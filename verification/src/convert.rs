//! The conversion pipeline: CSV bytes in, pretty-printed JSON bytes out.

use vstd::prelude::*;
use crate::parse::{parse_csv, parse_csv_spec, CsvError};
use crate::render::{render_json, render_json_spec};

verus! {

/// The settings of one conversion, as the command line selects them.
///
/// `delimiter` separates fields and defaults to a comma. `has_header` is
/// accepted on the interface but is not threaded into the conversion: the
/// first record is always read as the header, so a `false` here changes
/// nothing. `input` and `output` are the paths the caller reads from and
/// writes to; the conversion itself never touches the file system.
pub struct Config {
    pub input: String,
    pub output: String,
    pub delimiter: u8,
    pub has_header: bool,
}

/// What the conversion yields on input `s` under delimiter `d`: the parsed
/// records' first record keys the rest, and the document is rendered from
/// them; a parse error is the conversion's error.
pub open spec fn convert_spec(s: Seq<u8>, d: u8) -> Result<Seq<u8>, CsvError> {
    match parse_csv_spec(s, d) {
        Ok(records) => Ok(render_json_spec(records[0], records.skip(1))),
        Err(e) => Err(e),
    }
}

/// Converts one CSV input to one JSON document, exactly as `convert_spec`
/// describes: the first record is the header, every later record becomes
/// one object, in input order.
pub fn process_csv(input: &Vec<u8>, delimiter: u8) -> (r: Result<Vec<u8>, CsvError>)
    ensures
        match r {
            Ok(out) => convert_spec(input@, delimiter) == Ok::<Seq<u8>, CsvError>(out@),
            Err(e) => convert_spec(input@, delimiter) == Err::<Seq<u8>, CsvError>(e),
        },
{
    let mut records = match parse_csv(input, delimiter) {
        Ok(t) => t,
        Err(e) => {
            return Err(e);
        },
    };
    let ghost rs0 = records.deep_view();
    proof {
        crate::parse::lemma_parse_nonempty(input@, delimiter);
        assert(records@.len() == rs0.len());
    }
    let header = records.remove(0);
    proof {
        assert(header.deep_view() == rs0[0]);
        assert(records.deep_view() =~~= rs0.skip(1));
    }
    let out = render_json(&header, &records);
    Ok(out)
}

/// Converts under a configuration: its delimiter is honored; the first
/// record is always the header (see `Config`).
pub fn process_csv_with_config(input: &Vec<u8>, config: &Config) -> (r: Result<Vec<u8>, CsvError>)
    ensures
        match r {
            Ok(out) => convert_spec(input@, config.delimiter) == Ok::<Seq<u8>, CsvError>(out@),
            Err(e) => convert_spec(input@, config.delimiter) == Err::<Seq<u8>, CsvError>(e),
        },
{
    process_csv(input, config.delimiter)
}

} // verus!
