//! Laws the operations obey, stated over the same specifications their
//! contracts use and proved once and for all.

use vstd::prelude::*;

use crate::access::slice_row;
use crate::introspect::length_dim;
use crate::model::ElemVal;
use crate::mutate::append_row;
use crate::search::{row_has_all, row_has_any};
use crate::setops::{distinct_output_ok, lemma_sorted_nodup_unique, nodup_vals, present_rows,
    same_members, sorted_vals};
use crate::model::Value;

verus! {

/// Slicing a row from its first to its last 1-based position gives the
/// row back unchanged.
pub proof fn lemma_slice_identity(row: Seq<ElemVal>)
    ensures
        slice_row(ElemVal::List(row), ElemVal::Int(1), ElemVal::Int(row.len() as int)) == row,
{
    if row.len() == 0 {
        assert(slice_row(ElemVal::List(row), ElemVal::Int(1), ElemVal::Int(0)) =~= row);
    } else {
        assert(row.subrange(0, row.len() as int) =~= row);
    }
}

/// Appending one element to a present row grows its outermost length by
/// exactly one.
pub proof fn lemma_append_grows_length(row: ElemVal, e: ElemVal)
    requires
        row is List,
    ensures
        length_dim(row, 1) == ElemVal::Int(row->List_0.len() as int),
        length_dim(ElemVal::List(append_row(row, e, true)), 1) == ElemVal::Int(
            row->List_0.len() as int + 1,
        ),
{
    assert(append_row(row, e, true).len() == row->List_0.len() + 1);
}

/// Rows that are all present pass through the present-row filter
/// unchanged.
proof fn lemma_present_rows_all_present(s: Seq<ElemVal>)
    requires
        forall|i: int| 0 <= i < s.len() ==> !((#[trigger] s[i]) is Null),
    ensures
        present_rows(s) == s,
    decreases s.len(),
{
    if s.len() > 0 {
        assert(!(s.last() is Null));
        assert(forall|i: int|
            0 <= i < s.drop_last().len() ==> !((#[trigger] s.drop_last()[i]) is Null));
        lemma_present_rows_all_present(s.drop_last());
        assert(present_rows(s) =~= s);
    } else {
        assert(present_rows(s) =~= s);
    }
}

/// Deduplication is idempotent: running distinct over a distinct output
/// changes nothing.  Every output row is already present, sorted and
/// duplicate-free, so the second pass reproduces each row exactly.
pub proof fn lemma_distinct_idempotent(rows: Seq<ElemVal>, o1: Value, o2: Value)
    requires
        distinct_output_ok(rows, o1),
        distinct_output_ok(o1.vals(), o2),
    ensures
        o2.vals() == o1.vals(),
{
    let pres = present_rows(rows);
    assert(forall|i: int| 0 <= i < o1.vals().len() ==> !((#[trigger] o1.vals()[i]) is Null));
    lemma_present_rows_all_present(o1.vals());
    assert(o2.vals().len() == o1.vals().len());
    assert forall|i: int| 0 <= i < o2.vals().len() implies o2.vals()[i] == o1.vals()[i] by {
        assert(o1.vals()[i] matches ElemVal::List(r1) && sorted_vals(r1) && nodup_vals(r1));
        let r1 = o1.vals()[i]->List_0;
        let r2 = o2.vals()[i]->List_0;
        assert(sorted_vals(r2) && nodup_vals(r2) && same_members(r2, r1));
        lemma_sorted_nodup_unique(r2, r1);
    }
    assert(o2.vals() =~= o1.vals());
}

/// Every row contains all of its own values.
pub proof fn lemma_has_all_self(row: Seq<ElemVal>)
    ensures
        row_has_all(row, row),
{
}

/// No row shares a value with the empty row.
pub proof fn lemma_has_any_empty(row: Seq<ElemVal>)
    ensures
        !row_has_any(row, Seq::empty()),
{
    assert forall|v: ElemVal| !(row.contains(v) && Seq::<ElemVal>::empty().contains(v)) by {
        assert(!Seq::<ElemVal>::empty().contains(v));
    }
}

} // verus!
