//! What holds of every table that is read.

use crate::delimited::syntax::{
    cell_value, parse_table, row_entries, row_object, row_objects, FieldView,
};
use crate::number::canonical;
use crate::value::{law_unique_keys, lemma_put_all_values, put_all};
use vstd::prelude::*;

verus! {

/// The value of a field is canonical.
proof fn lemma_cell_canonical(field: FieldView)
    ensures
        canonical(cell_value(field)),
{
}

/// The object that a row is under a header is canonical.
proof fn lemma_row_canonical(header: Seq<FieldView>, row: Seq<FieldView>)
    ensures
        canonical(row_object(header, row)),
{
    let read = row_entries(header, row);
    let entries = put_all(Seq::empty(), read, row.len());
    law_unique_keys(Seq::empty(), read, row.len());
    lemma_put_all_values(read, row.len());
    assert forall|j: int| 0 <= j < entries.len() implies canonical((#[trigger] entries[j]).1) by {
        let k = choose|k: int| 0 <= k < row.len() && read[k].1 == entries[j].1;
        lemma_cell_canonical(row[k]);
    }
}

/// Canonical reading: every table that is read from a text is held as a
/// reader holds it. No row has a key twice, and every number is an integer
/// within 64 bits or a numeric literal that denotes itself.
pub proof fn law_read_canonical(s: Seq<char>, d: char)
    ensures
        parse_table(s, d) matches Ok(v) ==> canonical(v),
{
    if let Ok(v) = parse_table(s, d) {
        let rows = v->Array_0;
        assert forall|i: int| 0 <= i < rows.len() implies canonical(#[trigger] rows[i]) by {
            if s.len() > 0 {
                let header = crate::delimited::syntax::parse_record(s, d)->Ok_0.0;
                let left = crate::delimited::syntax::parse_record(s, d)->Ok_0.1;
                let all = crate::delimited::syntax::parse_records(
                    crate::text::tail(s, left),
                    d,
                    header.len(),
                )->Ok_0.0;
                assert(rows == row_objects(header, all));
                lemma_row_canonical(header, all[i]);
            }
        }
    }
}

} // verus!
