use sliru_tools::{
    convert, csv_to_json, json_to_csv, json_to_xml, pretty_csv, pretty_json, pretty_xml,
    pretty_yaml, xml_to_json, yaml_to_csv, yaml_to_json, FormatConverter,
};

fn idempotent_json(input: &str) {
    let once = pretty_json(input).unwrap();
    let twice = pretty_json(&once).unwrap();
    assert_eq!(once, twice);
}

#[test]
fn reserializing_json_is_idempotent() {
    idempotent_json("{\"a\":[1,2.5,null,true,\"x\"],\"b\":{\"c\":{}},\"d\":[]}");
    idempotent_json("\"quotes \\\" and \\\\ and \\u0041\"");
    idempotent_json("[123456789012345678901234567890, -0, 1e5]");
}

fn idempotent_csv(input: &str) {
    let once = pretty_csv(input).unwrap();
    let twice = pretty_csv(&once).unwrap();
    assert_eq!(once, twice);
}

#[test]
fn reserializing_csv_is_idempotent() {
    idempotent_csv("b,a\n1,2\n\"x,y\",\"say \"\"hi\"\"\"\n");
    idempotent_csv("a,b\n1\n");
    idempotent_csv("a\n\"\"\n");
}

fn idempotent_xml(input: &str) {
    let once = pretty_xml(input).unwrap();
    let twice = pretty_xml(&once).unwrap();
    assert_eq!(once, twice);
}

#[test]
fn reserializing_xml_is_idempotent() {
    idempotent_xml("<root><item>1</item><item>2</item><item>3</item></root>");
    idempotent_xml("<root><a>text</a><b>true</b><c></c></root>");
    idempotent_xml("<root>just text</root>");
}

fn idempotent_yaml(input: &str) {
    let once = pretty_yaml(input).unwrap();
    let twice = pretty_yaml(&once).unwrap();
    assert_eq!(once, twice);
}

#[test]
fn reserializing_yaml_is_idempotent() {
    idempotent_yaml("a: 1\nb:\n  - 1\n  - x\nc: \"true\"\n");
    idempotent_yaml("- 1\n- two\n-\n  k: v\n");
    idempotent_yaml("5\n");
}

#[test]
fn csv_header_row_is_the_sorted_key_union() {
    let out = json_to_csv("[{\"a\":1,\"c\":2},{\"b\":3,\"a\":4}]").unwrap();
    assert_eq!(out, "a,b,c\n1,,2\n4,3,\n");
    assert!(out.starts_with("a,b,c\n"));
}

#[test]
fn xml_repeated_tags_fold_to_an_array() {
    let json = xml_to_json("<root><item>1</item><item>2</item></root>").unwrap();
    assert_eq!(json, "[\n    1,\n    2\n]");
    let back = json_to_xml(&json).unwrap();
    assert_eq!(back, "<root><item>1</item><item>2</item></root>");
}

#[test]
fn xml_three_repeats_keep_appending() {
    let json = xml_to_json("<root><a>1</a><a>2</a><a>3</a></root>").unwrap();
    assert_eq!(json, "{\n    \"a\": [\n        1,\n        2,\n        3\n    ]\n}");
}

#[test]
fn xml_text_only_element_collapses_to_a_scalar() {
    let json = xml_to_json("<root><name>Alice</name></root>").unwrap();
    assert_eq!(json, "{\n    \"name\": \"Alice\"\n}");
}

#[test]
fn csv_round_trip_is_lossy_but_predictable() {
    let csv = json_to_csv("[{\"a\":1,\"b\":\"x\"},{\"a\":2}]").unwrap();
    assert_eq!(csv, "a,b\n1,x\n2,\n");
    let back = csv_to_json(&csv).unwrap();
    assert_eq!(
        back,
        "[\n    {\n        \"a\": \"1\",\n        \"b\": \"x\"\n    },\n    {\n        \"a\": \"2\"\n    }\n]"
    );
}

#[test]
fn empty_yaml_document_is_a_parse_error() {
    assert!(yaml_to_json("").is_err());
    assert!(yaml_to_json("   \n\t\n").is_err());
    assert!(yaml_to_json("# only a comment\n").is_err());
    assert!(yaml_to_csv("").is_err());
}

#[test]
fn empty_or_malformed_xml_is_a_parse_error() {
    assert!(xml_to_json("").is_err());
    assert!(xml_to_json("   ").is_err());
    assert!(xml_to_json("<root>").is_err());
    assert!(xml_to_json("<a></b>").is_err());
    assert!(xml_to_json("</a>").is_err());
    assert!(xml_to_json("<a>1</a><b>2</b>").is_err());
}

#[test]
fn failed_serialization_yields_no_output() {
    // an empty array has no columns, so the CSV form does not exist
    assert!(json_to_csv("[]").is_err());
    assert!(json_to_csv("{}").is_err());
    assert!(json_to_csv("[1,2]").is_err());
    assert!(convert("[]", FormatConverter::Json, FormatConverter::Csv).is_err());
}

#[test]
fn dispatcher_routes_every_pair() {
    let json = "{\"a\":1}";
    assert_eq!(
        convert(json, FormatConverter::Json, FormatConverter::Json).unwrap(),
        "{\n    \"a\": 1\n}"
    );
    assert_eq!(
        convert(json, FormatConverter::Json, FormatConverter::Csv).unwrap(),
        "a\n1\n"
    );
    assert_eq!(
        convert(json, FormatConverter::Json, FormatConverter::Yaml).unwrap(),
        "a: 1\n"
    );
    assert_eq!(
        convert(json, FormatConverter::Json, FormatConverter::Xml).unwrap(),
        "<root><a>1</a></root>"
    );
    assert_eq!(
        convert("a\n1\n", FormatConverter::Csv, FormatConverter::Json).unwrap(),
        "[\n    {\n        \"a\": \"1\"\n    }\n]"
    );
    assert_eq!(
        convert("a: 1\n", FormatConverter::Yaml, FormatConverter::Xml).unwrap(),
        "<root><a>1</a></root>"
    );
    assert_eq!(
        convert("<root><a>1</a></root>", FormatConverter::Xml, FormatConverter::Yaml).unwrap(),
        "a: 1\n"
    );
    assert!(convert("{", FormatConverter::Json, FormatConverter::Yaml).is_err());
}

#[test]
fn format_selector_maps_integers() {
    assert_eq!(FormatConverter::from(0), FormatConverter::Json);
    assert_eq!(FormatConverter::from(1), FormatConverter::Csv);
    assert_eq!(FormatConverter::from(2), FormatConverter::Yaml);
    assert_eq!(FormatConverter::from(3), FormatConverter::Xml);
    assert_eq!(FormatConverter::from(99), FormatConverter::Json);
}
