//! The guarantees of the conversion, stated and proved in one place.

use vstd::prelude::*;
use crate::parse::{parse_csv_spec, CsvError};
use crate::render::{pair_count, render_json_spec, row_pairs, LBRACK, RBRACK};
use crate::convert::convert_spec;

verus! {

/// The model of the output document: one object per data row, each a
/// sequence of key/value pairs in header order.
pub open spec fn document_objects(header: Seq<Seq<u8>>, rows: Seq<Seq<Seq<u8>>>) -> Seq<
    Seq<(Seq<u8>, Seq<u8>)>,
> {
    Seq::new(rows.len(), |i: int| row_pairs(header, rows[i]))
}

/// Law: for any header and data rows, the document has exactly one object
/// per data row, and the object of row `i` has exactly
/// `min(header width, width of row i)` keys.
pub proof fn lemma_output_shape(header: Seq<Seq<u8>>, rows: Seq<Seq<Seq<u8>>>)
    ensures
        document_objects(header, rows).len() == rows.len(),
        forall|i: int|
            0 <= i < rows.len() ==> (#[trigger] document_objects(header, rows)[i]).len()
                == pair_count(header, rows[i]),
{
}

/// Law: in the document, the `j`-th key of object `i` is the `j`-th header
/// field and its value is the `j`-th field of row `i`: the values of each
/// object are the row's own fields, aligned to header order.
pub proof fn lemma_document_values(header: Seq<Seq<u8>>, rows: Seq<Seq<Seq<u8>>>)
    ensures
        forall|i: int, j: int|
            0 <= i < rows.len() && 0 <= j < pair_count(header, rows[i])
                ==> (#[trigger] document_objects(header, rows)[i][j]) == (header[j], rows[i][j]),
{
}

/// Law: the conversion is a function of the input bytes and the delimiter
/// alone, so converting the same input twice yields byte-identical output.
pub proof fn lemma_conversion_deterministic(a: Seq<u8>, b: Seq<u8>, d: u8)
    requires
        a == b,
    ensures
        convert_spec(a, d) == convert_spec(b, d),
{
}

/// Law: an input whose only record is the header converts to the empty
/// JSON array `[]`.
pub proof fn lemma_header_only_empty_array(s: Seq<u8>, d: u8)
    requires
        parse_csv_spec(s, d) is Ok,
        parse_csv_spec(s, d)->Ok_0.len() == 1,
    ensures
        convert_spec(s, d) == Ok::<Seq<u8>, CsvError>(seq![LBRACK, RBRACK]),
{
    let records = parse_csv_spec(s, d)->Ok_0;
    assert(records.skip(1).len() == 0);
    assert(render_json_spec(records[0], records.skip(1)) =~= seq![LBRACK, RBRACK]);
}

} // verus!
