//! The four formats a conversion can read or write.

use vstd::prelude::*;

verus! {

/// A source or target format of the converter.
#[derive(Clone, Copy, PartialEq, Eq, Structural, Debug)]
pub enum FormatConverter {
    Json,
    Csv,
    Yaml,
    Xml,
}

/// The format a small integer selects: 0 JSON, 1 CSV, 2 YAML, 3 XML,
/// anything else JSON.
pub open spec fn format_of(value: i32) -> FormatConverter {
    if value == 0 {
        FormatConverter::Json
    } else if value == 1 {
        FormatConverter::Csv
    } else if value == 2 {
        FormatConverter::Yaml
    } else if value == 3 {
        FormatConverter::Xml
    } else {
        FormatConverter::Json
    }
}

impl From<i32> for FormatConverter {
    fn from(value: i32) -> (r: Self)
        ensures
            r == format_of(value),
    {
        match value {
            0 => FormatConverter::Json,
            1 => FormatConverter::Csv,
            2 => FormatConverter::Yaml,
            3 => FormatConverter::Xml,
            _ => FormatConverter::Json,
        }
    }
}

impl vstd::std_specs::convert::FromSpecImpl<i32> for FormatConverter {
    open spec fn obeys_from_spec() -> bool {
        true
    }

    open spec fn from_spec(v: i32) -> Self {
        format_of(v)
    }
}

} // verus!
