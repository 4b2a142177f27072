//! Conversion of structured text between JSON, CSV, YAML and XML.
//!
//! Every conversion routes through one untyped value model
//! ([`value::Value`]): the source codec parses text into a value, the
//! target codec serializes the value back to text. The codecs own the
//! ambiguity-resolution rules needed where a format cannot carry the full
//! model: CSV columns are the sorted union of the objects' keys, repeated
//! XML tags fold into arrays, element text goes through type inference,
//! and CSV stays untyped on the way back in. The [`convert`] dispatcher
//! picks the codec pair for a (source, target) request; re-serializing
//! into the same format acts as a pretty-printer.
//!
//! [`request`] holds the HTTP request composer's parsing; sending the
//! request, hashing files and every other piece of I/O belongs to the
//! caller.

pub mod text;
pub mod num;
pub mod value;
pub mod json;
pub mod csv;
pub mod xml;
pub mod yaml;
pub mod format;
pub mod convert;
pub mod request;

pub use convert::{
    convert, pretty_json, pretty_csv, pretty_yaml, pretty_xml, json_to_csv, json_to_yaml,
    json_to_xml, csv_to_json, csv_to_yaml, csv_to_xml, yaml_to_json, yaml_to_csv, yaml_to_xml,
    xml_to_json, xml_to_csv, xml_to_yaml,
};
pub use format::FormatConverter;
pub use request::{parse_heredoc_request, RequestData, RequestResult};
pub use value::Value;
