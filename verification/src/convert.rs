//! The conversion dispatcher: one converter per (source, target) pair of
//! formats, each routing through the value model — the source codec's
//! parse, then the target codec's serialize. A failure at either stage
//! aborts the conversion: no partial output is ever returned.

use vstd::prelude::*;
use crate::csv;
use crate::format::FormatConverter;
use crate::json;
use crate::value::ValueModel;
use crate::xml;
use crate::yaml;

verus! {

/// What the source format's parse yields for a text.
pub open spec fn parse_spec(fmt: FormatConverter, s: Seq<char>) -> Option<ValueModel> {
    match fmt {
        FormatConverter::Json => json::sp_doc(s),
        FormatConverter::Csv => Some(csv::csv_model(s)),
        FormatConverter::Xml => xml::xml_parse(s),
        FormatConverter::Yaml => yaml::yaml_parse(s),
    }
}

/// What the target format's serialize yields for a value.
pub open spec fn ser_spec(fmt: FormatConverter, m: ValueModel) -> Option<Seq<char>> {
    match fmt {
        FormatConverter::Json => Some(json::pretty_text(m, 0)),
        FormatConverter::Csv => csv::csv_ser(m),
        FormatConverter::Yaml => Some(yaml::yaml_text(m)),
        FormatConverter::Xml => Some(xml::xml_text(m)),
    }
}

/// The message of a parse error: its kind and the offending position
/// (clamped to the `i64` range it is printed in).
pub open spec fn pos_msg(kind: Seq<char>, p: int) -> Seq<char> {
    kind + seq![' ', 'a', 't', ' ', 'p', 'o', 's', 'i', 't', 'i', 'o', 'n', ' ']
        + crate::num::int_text(
        if p > i64::MAX {
            i64::MAX as int
        } else {
            p
        },
    )
}

/// Build a parse error's message, matching [`pos_msg`].
fn parse_err_msg(kind: &str, p: usize) -> (r: String)
    ensures
        r@ == pos_msg(kind@, p as int),
{
    let mut msg = crate::text::to_chars(kind);
    let mut tail = crate::text::to_chars(" at position ");
    proof {
        reveal_strlit(" at position ");
        assert(tail@ =~= seq![' ', 'a', 't', ' ', 'p', 'o', 's', 'i', 't', 'i', 'o', 'n', ' ']);
    }
    let pu = p as u64;
    let mut digits = crate::num::i64_chars(if pu > 0x7FFF_FFFF_FFFF_FFFFu64 {
        0x7FFF_FFFF_FFFF_FFFFi64
    } else {
        pu as i64
    });
    let ghost msgv = msg@;
    let ghost tailv = tail@;
    let ghost digitsv = digits@;
    let mut out: Vec<char> = Vec::new();
    out.append(&mut msg);
    out.append(&mut tail);
    out.append(&mut digits);
    proof {
        assert(out@ =~= msgv + tailv + digitsv);
        assert(out@ =~= pos_msg(kind@, p as int));
    }
    crate::text::chars_to_string(&out)
}

/// Re-serialize a JSON document: parse, then pretty-print with 4-space
/// indentation and stable key order.
pub fn pretty_json(input: &str) -> (r: Result<String, String>)
    ensures
        match r {
            Ok(t) => json::sp_doc(input@) is Some && t@ == json::pretty_text(
                json::sp_doc(input@)->0,
                0,
            ),
            Err(e) => json::sp_doc(input@) is None && (exists|p: int|
                0 <= p <= input@.len() && e@ == pos_msg(("invalid JSON document")@, p)),
        },
{
    let chars = crate::text::to_chars(input);
    match json::parse_doc(&chars) {
        Ok(v) => Ok(json::to_pretty(&v)),
        Err(p) => {
            let e = parse_err_msg("invalid JSON document", p);
            proof {
                assert(e@ == pos_msg(("invalid JSON document")@, p as int));
            }
            Err(e)
        },
    }
}

/// JSON in, CSV out.
pub fn json_to_csv(input: &str) -> (r: Result<String, String>)
    ensures
        match r {
            Ok(t) => json::sp_doc(input@) is Some && csv::csv_ser(json::sp_doc(input@)->0)
                == Some(t@),
            Err(_) => json::sp_doc(input@) is None || csv::csv_ser(json::sp_doc(input@)->0)
                is None,
        },
        r is Err && json::sp_doc(input@) is None ==> (exists|p: int|
            0 <= p <= input@.len() && (r->Err_0)@ == pos_msg(("invalid JSON document")@, p)),
{
    let chars = crate::text::to_chars(input);
    match json::parse_doc(&chars) {
        Ok(v) => csv::serialize(&v),
        Err(p) => {
            let e = parse_err_msg("invalid JSON document", p);
            proof {
                assert(e@ == pos_msg(("invalid JSON document")@, p as int));
            }
            Err(e)
        },
    }
}

/// JSON in, YAML out.
pub fn json_to_yaml(input: &str) -> (r: Result<String, String>)
    ensures
        match r {
            Ok(t) => json::sp_doc(input@) is Some && t@ == yaml::yaml_text(
                json::sp_doc(input@)->0,
            ),
            Err(e) => json::sp_doc(input@) is None && (exists|p: int|
                0 <= p <= input@.len() && e@ == pos_msg(("invalid JSON document")@, p)),
        },
{
    let chars = crate::text::to_chars(input);
    match json::parse_doc(&chars) {
        Ok(v) => Ok(yaml::serialize(&v)),
        Err(p) => {
            let e = parse_err_msg("invalid JSON document", p);
            proof {
                assert(e@ == pos_msg(("invalid JSON document")@, p as int));
            }
            Err(e)
        },
    }
}

/// JSON in, XML out.
pub fn json_to_xml(input: &str) -> (r: Result<String, String>)
    ensures
        match r {
            Ok(t) => json::sp_doc(input@) is Some && t@ == xml::xml_text(
                json::sp_doc(input@)->0,
            ),
            Err(e) => json::sp_doc(input@) is None && (exists|p: int|
                0 <= p <= input@.len() && e@ == pos_msg(("invalid JSON document")@, p)),
        },
{
    let chars = crate::text::to_chars(input);
    match json::parse_doc(&chars) {
        Ok(v) => Ok(xml::serialize(&v)),
        Err(p) => {
            let e = parse_err_msg("invalid JSON document", p);
            proof {
                assert(e@ == pos_msg(("invalid JSON document")@, p as int));
            }
            Err(e)
        },
    }
}

/// CSV in, pretty JSON out. CSV parsing is total: the first record is
/// the header, each further record an object of strings.
pub fn csv_to_json(input: &str) -> (r: Result<String, String>)
    ensures
        r is Ok,
        r->Ok_0@ == json::pretty_text(csv::csv_model(input@), 0),
{
    let chars = crate::text::to_chars(input);
    let v = csv::parse(&chars);
    Ok(json::to_pretty(&v))
}

/// CSV in, YAML out.
pub fn csv_to_yaml(input: &str) -> (r: Result<String, String>)
    ensures
        r is Ok,
        r->Ok_0@ == yaml::yaml_text(csv::csv_model(input@)),
{
    let chars = crate::text::to_chars(input);
    let v = csv::parse(&chars);
    Ok(yaml::serialize(&v))
}

/// CSV in, XML out.
pub fn csv_to_xml(input: &str) -> (r: Result<String, String>)
    ensures
        r is Ok,
        r->Ok_0@ == xml::xml_text(csv::csv_model(input@)),
{
    let chars = crate::text::to_chars(input);
    let v = csv::parse(&chars);
    Ok(xml::serialize(&v))
}

/// Re-serialize CSV: parse, then emit with the sorted header union.
pub fn pretty_csv(input: &str) -> (r: Result<String, String>)
    ensures
        match r {
            Ok(t) => csv::csv_ser(csv::csv_model(input@)) == Some(t@),
            Err(_) => csv::csv_ser(csv::csv_model(input@)) is None,
        },
{
    let chars = crate::text::to_chars(input);
    let v = csv::parse(&chars);
    csv::serialize(&v)
}

/// XML in, pretty JSON out.
pub fn xml_to_json(input: &str) -> (r: Result<String, String>)
    ensures
        match r {
            Ok(t) => xml::xml_parse(input@) is Some && t@ == json::pretty_text(
                xml::xml_parse(input@)->0,
                0,
            ),
            Err(_) => xml::xml_parse(input@) is None,
        },
{
    let chars = crate::text::to_chars(input);
    match xml::parse(&chars) {
        Ok(v) => Ok(json::to_pretty(&v)),
        Err(e) => Err(e),
    }
}

/// XML in, CSV out.
pub fn xml_to_csv(input: &str) -> (r: Result<String, String>)
    ensures
        match r {
            Ok(t) => xml::xml_parse(input@) is Some && csv::csv_ser(xml::xml_parse(input@)->0)
                == Some(t@),
            Err(_) => xml::xml_parse(input@) is None || csv::csv_ser(
                xml::xml_parse(input@)->0,
            ) is None,
        },
{
    let chars = crate::text::to_chars(input);
    match xml::parse(&chars) {
        Ok(v) => csv::serialize(&v),
        Err(e) => Err(e),
    }
}

/// XML in, YAML out.
pub fn xml_to_yaml(input: &str) -> (r: Result<String, String>)
    ensures
        match r {
            Ok(t) => xml::xml_parse(input@) is Some && t@ == yaml::yaml_text(
                xml::xml_parse(input@)->0,
            ),
            Err(_) => xml::xml_parse(input@) is None,
        },
{
    let chars = crate::text::to_chars(input);
    match xml::parse(&chars) {
        Ok(v) => Ok(yaml::serialize(&v)),
        Err(e) => Err(e),
    }
}

/// Re-serialize XML: parse the tree, then emit it under the synthetic
/// `root` tag.
pub fn pretty_xml(input: &str) -> (r: Result<String, String>)
    ensures
        match r {
            Ok(t) => xml::xml_parse(input@) is Some && t@ == xml::xml_text(
                xml::xml_parse(input@)->0,
            ),
            Err(_) => xml::xml_parse(input@) is None,
        },
{
    let chars = crate::text::to_chars(input);
    match xml::parse(&chars) {
        Ok(v) => Ok(xml::serialize(&v)),
        Err(e) => Err(e),
    }
}

/// YAML in, pretty JSON out.
pub fn yaml_to_json(input: &str) -> (r: Result<String, String>)
    ensures
        match r {
            Ok(t) => yaml::yaml_parse(input@) is Some && t@ == json::pretty_text(
                yaml::yaml_parse(input@)->0,
                0,
            ),
            Err(_) => yaml::yaml_parse(input@) is None,
        },
{
    let chars = crate::text::to_chars(input);
    match yaml::parse(&chars) {
        Ok(v) => Ok(json::to_pretty(&v)),
        Err(e) => Err(e),
    }
}

/// YAML in, CSV out.
pub fn yaml_to_csv(input: &str) -> (r: Result<String, String>)
    ensures
        match r {
            Ok(t) => yaml::yaml_parse(input@) is Some && csv::csv_ser(
                yaml::yaml_parse(input@)->0,
            ) == Some(t@),
            Err(_) => yaml::yaml_parse(input@) is None || csv::csv_ser(
                yaml::yaml_parse(input@)->0,
            ) is None,
        },
{
    let chars = crate::text::to_chars(input);
    match yaml::parse(&chars) {
        Ok(v) => csv::serialize(&v),
        Err(e) => Err(e),
    }
}

/// YAML in, XML out.
pub fn yaml_to_xml(input: &str) -> (r: Result<String, String>)
    ensures
        match r {
            Ok(t) => yaml::yaml_parse(input@) is Some && t@ == xml::xml_text(
                yaml::yaml_parse(input@)->0,
            ),
            Err(_) => yaml::yaml_parse(input@) is None,
        },
{
    let chars = crate::text::to_chars(input);
    match yaml::parse(&chars) {
        Ok(v) => Ok(xml::serialize(&v)),
        Err(e) => Err(e),
    }
}

/// Re-serialize YAML: parse the first document, then emit plain block
/// style.
pub fn pretty_yaml(input: &str) -> (r: Result<String, String>)
    ensures
        match r {
            Ok(t) => yaml::yaml_parse(input@) is Some && t@ == yaml::yaml_text(
                yaml::yaml_parse(input@)->0,
            ),
            Err(_) => yaml::yaml_parse(input@) is None,
        },
{
    let chars = crate::text::to_chars(input);
    match yaml::parse(&chars) {
        Ok(v) => Ok(yaml::serialize(&v)),
        Err(e) => Err(e),
    }
}

/// Convert a text from one format to another: parse with the source
/// codec, serialize with the target codec. A failure at either stage
/// yields an error and no output: the call succeeds exactly when the
/// source parse and the target serialization both do, and the output is
/// then the serialization of the parsed value.
pub fn convert(input: &str, source: FormatConverter, target: FormatConverter) -> (r: Result<
    String,
    String,
>)
    ensures
        match r {
            Ok(t) => parse_spec(source, input@) is Some && ser_spec(
                target,
                parse_spec(source, input@)->0,
            ) == Some(t@),
            Err(_) => parse_spec(source, input@) is None || ser_spec(
                target,
                parse_spec(source, input@)->0,
            ) is None,
        },
{
    match (source, target) {
        (FormatConverter::Json, FormatConverter::Json) => pretty_json(input),
        (FormatConverter::Json, FormatConverter::Csv) => json_to_csv(input),
        (FormatConverter::Json, FormatConverter::Yaml) => json_to_yaml(input),
        (FormatConverter::Json, FormatConverter::Xml) => json_to_xml(input),
        (FormatConverter::Csv, FormatConverter::Json) => csv_to_json(input),
        (FormatConverter::Csv, FormatConverter::Csv) => pretty_csv(input),
        (FormatConverter::Csv, FormatConverter::Yaml) => csv_to_yaml(input),
        (FormatConverter::Csv, FormatConverter::Xml) => csv_to_xml(input),
        (FormatConverter::Yaml, FormatConverter::Json) => yaml_to_json(input),
        (FormatConverter::Yaml, FormatConverter::Csv) => yaml_to_csv(input),
        (FormatConverter::Yaml, FormatConverter::Yaml) => pretty_yaml(input),
        (FormatConverter::Yaml, FormatConverter::Xml) => yaml_to_xml(input),
        (FormatConverter::Xml, FormatConverter::Json) => xml_to_json(input),
        (FormatConverter::Xml, FormatConverter::Csv) => xml_to_csv(input),
        (FormatConverter::Xml, FormatConverter::Yaml) => xml_to_yaml(input),
        (FormatConverter::Xml, FormatConverter::Xml) => pretty_xml(input),
    }
}

} // verus!
