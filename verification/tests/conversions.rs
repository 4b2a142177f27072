use sliru_tools::{
    csv_to_json, csv_to_xml, csv_to_yaml, json_to_csv, json_to_xml, json_to_yaml, pretty_json,
    xml_to_json, xml_to_yaml, yaml_to_json, yaml_to_xml,
};

#[test]
fn json_pretty_prints_with_four_space_indent() {
    let out = pretty_json("{\"a\":1,\"b\":\"x\"}").unwrap();
    assert_eq!(out, "{\n    \"a\": 1,\n    \"b\": \"x\"\n}");
}

#[test]
fn json_keeps_key_order() {
    let out = pretty_json("{\"b\":1,\"a\":2}").unwrap();
    assert_eq!(out, "{\n    \"b\": 1,\n    \"a\": 2\n}");
}

#[test]
fn json_duplicate_key_last_write_wins() {
    let out = pretty_json("{\"a\":1,\"a\":2}").unwrap();
    assert_eq!(out, "{\n    \"a\": 2\n}");
}

#[test]
fn json_negative_zero_reads_as_zero() {
    assert_eq!(pretty_json("-0").unwrap(), "0");
}

#[test]
fn json_huge_integer_keeps_its_text() {
    let out = pretty_json("123456789012345678901234567890").unwrap();
    assert_eq!(out, "123456789012345678901234567890");
}

#[test]
fn json_float_keeps_its_text() {
    assert_eq!(pretty_json("1.5e3").unwrap(), "1.5e3");
    assert_eq!(pretty_json("[1.25, -0.5]").unwrap(), "[\n    1.25,\n    -0.5\n]");
}

#[test]
fn json_min_integer_round_trips() {
    assert_eq!(
        pretty_json("-9223372036854775808").unwrap(),
        "-9223372036854775808"
    );
}

#[test]
fn json_unicode_escape_decodes() {
    assert_eq!(pretty_json("\"a\\u0041\"").unwrap(), "\"aA\"");
}

#[test]
fn json_surrogate_pair_decodes() {
    assert_eq!(pretty_json("\"\\ud83d\\ude00\"").unwrap(), "\"\u{1F600}\"");
}

#[test]
fn json_control_escapes_round_trip() {
    assert_eq!(pretty_json("\"a\\nb\\tc\"").unwrap(), "\"a\\nb\\tc\"");
}

#[test]
fn json_malformed_is_an_error() {
    assert!(pretty_json("{\"a\":}").is_err());
    assert!(pretty_json("[1,]").is_err());
    assert!(pretty_json("").is_err());
    assert!(pretty_json("[1] tail").is_err());
}

#[test]
fn csv_decodes_to_string_valued_objects() {
    let out = csv_to_json("a,b\n1,x\n").unwrap();
    assert_eq!(
        out,
        "[\n    {\n        \"a\": \"1\",\n        \"b\": \"x\"\n    }\n]"
    );
}

#[test]
fn csv_quoted_cells_and_crlf() {
    let out = csv_to_json("a,b\r\n\"x,1\",2\r\n").unwrap();
    assert_eq!(
        out,
        "[\n    {\n        \"a\": \"x,1\",\n        \"b\": \"2\"\n    }\n]"
    );
}

#[test]
fn csv_blank_lines_are_skipped() {
    let out = csv_to_json("a\n\n1\n\n").unwrap();
    assert_eq!(out, "[\n    {\n        \"a\": \"1\"\n    }\n]");
}

#[test]
fn csv_doubled_quote_reads_as_one() {
    let out = csv_to_json("a\n\"say \"\"hi\"\"\"\n").unwrap();
    assert_eq!(out, "[\n    {\n        \"a\": \"say \\\"hi\\\"\"\n    }\n]");
}

#[test]
fn csv_short_row_omits_keys() {
    let out = csv_to_json("a,b,c\n1\n").unwrap();
    assert_eq!(out, "[\n    {\n        \"a\": \"1\"\n    }\n]");
}

#[test]
fn csv_empty_input_is_an_empty_array() {
    assert_eq!(csv_to_json("").unwrap(), "[]");
}

#[test]
fn json_to_csv_cell_rendering() {
    let out = json_to_csv("[{\"a\":null,\"b\":true,\"c\":1,\"d\":\"s\"}]").unwrap();
    assert_eq!(out, "a,b,c,d\n,true,1,s\n");
}

#[test]
fn json_to_csv_nested_value_is_compact_json() {
    let out = json_to_csv("[{\"a\":{\"b\":1}}]").unwrap();
    assert_eq!(out, "a\n\"{\"\"b\"\":1}\"\n");
}

#[test]
fn json_to_csv_bare_object_keeps_key_order() {
    let out = json_to_csv("{\"b\":1,\"a\":2}").unwrap();
    assert_eq!(out, "b,a\n1,2\n");
}

#[test]
fn json_to_csv_scalar_goes_under_value_header() {
    assert_eq!(json_to_csv("5").unwrap(), "value\n5\n");
    assert_eq!(json_to_csv("\"x\"").unwrap(), "value\n\"\"\"x\"\"\"\n");
}

#[test]
fn json_to_csv_non_object_array_element_is_a_fallback_row() {
    let out = json_to_csv("[{\"a\":1},5]").unwrap();
    assert_eq!(out, "a\n1\n5\n");
}

#[test]
fn xml_decodes_entities() {
    let out = xml_to_json("<root><t>a&lt;b&amp;c</t></root>").unwrap();
    assert_eq!(out, "{\n    \"t\": \"a<b&c\"\n}");
}

#[test]
fn xml_numeric_entities() {
    let out = xml_to_json("<root><t>&#65;&#x42;</t></root>").unwrap();
    assert_eq!(out, "{\n    \"t\": \"AB\"\n}");
}

#[test]
fn xml_text_type_inference() {
    let out =
        xml_to_json("<root><n>42</n><f>1.5</f><b>TRUE</b><s>hello</s><z>null</z></root>")
            .unwrap();
    assert_eq!(
        out,
        "{\n    \"n\": 42,\n    \"f\": 1.5,\n    \"b\": true,\n    \"s\": \"hello\",\n    \"z\": null\n}"
    );
}

#[test]
fn xml_skips_comments_declarations_and_cdata() {
    let out = xml_to_json("<?xml version=\"1.0\"?><!-- hi --><root><a><![CDATA[zap]]>1</a></root>")
        .unwrap();
    assert_eq!(out, "{\n    \"a\": 1\n}");
}

#[test]
fn xml_trailing_text_becomes_a_text_field() {
    let out = xml_to_json("<root><a>hi<b>1</b>tail</a></root>").unwrap();
    assert_eq!(out, "{\n    \"a\": {\n        \"b\": 1,\n        \"_text\": \"tail\"\n    }\n}");
}

#[test]
fn json_to_xml_escapes_text() {
    let out = json_to_xml("{\"t\":\"a<b&c\"}").unwrap();
    assert_eq!(out, "<root><t>a&lt;b&amp;c</t></root>");
}

#[test]
fn json_to_xml_shapes() {
    assert_eq!(json_to_xml("null").unwrap(), "<root></root>");
    assert_eq!(json_to_xml("[1,2]").unwrap(), "<root><item>1</item><item>2</item></root>");
    assert_eq!(json_to_xml("{\"a\":{\"b\":false}}").unwrap(), "<root><a><b>false</b></a></root>");
}

#[test]
fn yaml_block_mapping_and_sequence() {
    let out = yaml_to_json("a: 1\nb:\n  - 1\n  - x\n").unwrap();
    assert_eq!(
        out,
        "{\n    \"a\": 1,\n    \"b\": [\n        1,\n        \"x\"\n    ]\n}"
    );
}

#[test]
fn yaml_flow_and_inference() {
    let out = yaml_to_json("[1, two, {k: v}, ~]").unwrap();
    assert_eq!(
        out,
        "[\n    1,\n    \"two\",\n    {\n        \"k\": \"v\"\n    },\n    null\n]"
    );
}

#[test]
fn yaml_quoted_scalars_stay_strings() {
    let out = yaml_to_json("s: \"true\"\nt: 'x y'\n").unwrap();
    assert_eq!(out, "{\n    \"s\": \"true\",\n    \"t\": \"x y\"\n}");
}

#[test]
fn yaml_comments_and_document_markers() {
    let out = yaml_to_json("---\n# a comment\na: 1\n...\nignored: 2\n").unwrap();
    assert_eq!(out, "{\n    \"a\": 1\n}");
}

#[test]
fn json_to_yaml_block_style() {
    let out = json_to_yaml("{\"a\":1,\"b\":[1,2],\"c\":{\"d\":null}}").unwrap();
    assert_eq!(out, "a: 1\nb:\n  - 1\n  - 2\nc:\n  d: ~\n");
}

#[test]
fn json_to_yaml_leaves() {
    assert_eq!(json_to_yaml("[]").unwrap(), "[]\n");
    assert_eq!(json_to_yaml("{}").unwrap(), "{}\n");
    assert_eq!(json_to_yaml("null").unwrap(), "~\n");
    assert_eq!(json_to_yaml("\"true\"").unwrap(), "\"true\"\n");
}

#[test]
fn csv_to_yaml_and_xml_compose() {
    assert_eq!(csv_to_yaml("a\n1\n").unwrap(), "-\n  a: \"1\"\n");
    assert_eq!(csv_to_xml("a\n1\n").unwrap(), "<root><item><a>1</a></item></root>");
    assert_eq!(xml_to_yaml("<root><a>1</a></root>").unwrap(), "a: 1\n");
    assert_eq!(yaml_to_xml("a: 1\n").unwrap(), "<root><a>1</a></root>");
}

#[test]
fn yaml_only_first_document_is_parsed() {
    assert_eq!(yaml_to_json("a: 1\n---\nb: 2").unwrap(), "{\n    \"a\": 1\n}");
}

#[test]
fn yaml_sequence_item_may_hold_one_pair() {
    let out = yaml_to_json("- a: 1\n- b: x\n").unwrap();
    assert_eq!(
        out,
        "[\n    {\n        \"a\": 1\n    },\n    {\n        \"b\": \"x\"\n    }\n]"
    );
}
