//! A small library that converts delimited text (CSV) with a header row into
//! a pretty-printed JSON array of row objects.
//!
//! The conversion is a pure function from input bytes to output bytes: the
//! CSV grammar, the positional pairing of each row with the header, and the
//! JSON rendering are all verified here. Reading the input file and writing
//! the output file happen outside the library.

use vstd::prelude::*;

pub mod parse;
pub mod render;
pub mod convert;
pub mod laws;
pub mod readback;

verus! {

/// Validates the input path: the caller reports whether the file exists,
/// and a missing file is rejected before any conversion begins.
pub fn verify_input_file(filename: &str, exists: bool) -> (r: Result<String, &'static str>)
    ensures
        r is Ok <==> exists,
        r is Ok ==> r->Ok_0@ == filename@,
        !exists ==> r->Err_0@ == "Input file does not exist"@,
{
    if exists {
        Ok(<String as vstd::string::StringExecFns>::from_str(filename))
    } else {
        Err("Input file does not exist")
    }
}

} // verus!
