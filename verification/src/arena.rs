//! The arena builder: the one construction primitive behind every
//! operation.  A new column starts empty for a declared type and grows by
//! range-copies out of source columns (`value_extend`), null fills
//! (`value_extend_nulls`), and single owned elements (`value_push_elem`).
//! The grown column is handed on by value and is immutable thereafter:
//! freezing is simply letting go of the right to grow it.

use vstd::prelude::*;

use crate::model::{elems_val, lemma_elem_member_decreases, lemma_vals_len, Elem, ElemVal, ListCol,
    Ty, Value};

verus! {

/// The rows a list column presents, given its child's elements, its
/// offsets and its per-row validity.
pub open spec fn rows_of(child: Seq<ElemVal>, offsets: Seq<usize>, valid: Seq<bool>) -> Seq<
    ElemVal,
> {
    Seq::new(
        (offsets.len() - 1) as nat,
        |i: int|
            if !valid[i] {
                ElemVal::Null
            } else {
                ElemVal::List(child.subrange(offsets[i] as int, offsets[i + 1] as int))
            },
    )
}

/// The offset bookkeeping invariants, stated over loose parts.
pub open spec fn parts_wf(child_len: nat, offsets: Seq<usize>, valid: Seq<bool>) -> bool {
    &&& offsets.len() >= 1
    &&& offsets[0] == 0
    &&& forall|i: int, j: int| 0 <= i <= j < offsets.len() ==> offsets[i] <= offsets[j]
    &&& offsets[offsets.len() - 1] == child_len
    &&& valid.len() == offsets.len() - 1
}

/// The per-row validity of a list column, with an absent mask read as
/// all-valid.
pub open spec fn col_valid_seq(b: ListCol) -> Seq<bool> {
    match b.nulls {
        Some(v) => v@,
        None => Seq::new(b.spec_row_count(), |i: int| true),
    }
}

/// A list column's value is `rows_of` its parts.
pub proof fn lemma_list_vals(b: ListCol)
    ensures
        Value::List(Box::new(b)).vals() =~= rows_of(b.values.vals(), b.offsets@, col_valid_seq(b)),
{
}

/// Appending a present row: extend the child by the row's elements, push
/// the new child length as an offset, and mark the row valid.  Earlier
/// rows read the same spans out of the extended child.
pub proof fn lemma_rows_snoc_valid(
    child: Seq<ElemVal>,
    ext: Seq<ElemVal>,
    offsets: Seq<usize>,
    valid: Seq<bool>,
    new_off: usize,
)
    requires
        parts_wf(child.len(), offsets, valid),
        new_off as int == child.len() + ext.len(),
    ensures
        rows_of(child + ext, offsets.push(new_off), valid.push(true)) =~= rows_of(
            child,
            offsets,
            valid,
        ).push(ElemVal::List(ext)),
{
    let lhs = rows_of(child + ext, offsets.push(new_off), valid.push(true));
    let rhs = rows_of(child, offsets, valid).push(ElemVal::List(ext));
    assert forall|i: int| 0 <= i < lhs.len() implies lhs[i] == rhs[i] by {
        if i < offsets.len() - 1 {
            if valid[i] {
                assert(offsets[i + 1] <= offsets[offsets.len() - 1]);
                assert((child + ext).subrange(offsets[i] as int, offsets[i + 1] as int) =~= child
                    .subrange(offsets[i] as int, offsets[i + 1] as int));
            }
        } else {
            assert((child + ext).subrange(child.len() as int, new_off as int) =~= ext);
        }
    }
}

/// Appending a null row: push the unchanged child length as an offset and
/// mark the row null.
pub proof fn lemma_rows_snoc_null(child: Seq<ElemVal>, offsets: Seq<usize>, valid: Seq<bool>)
    requires
        parts_wf(child.len(), offsets, valid),
    ensures
        rows_of(child, offsets.push(offsets[offsets.len() - 1]), valid.push(false)) =~= rows_of(
            child,
            offsets,
            valid,
        ).push(ElemVal::Null),
{
}

/// Whether an abstract element may stand in a column whose declared type
/// is `t`.  Null fits every type; a list fits a list type whose element
/// type every member fits.
pub open spec fn fits(e: ElemVal, t: Ty) -> bool
    decreases e,
{
    match e {
        ElemVal::Null => true,
        ElemVal::Int(_) => t is Int64,
        ElemVal::Bool(_) => t is Bool,
        ElemVal::Str(_) => t is Utf8,
        ElemVal::List(s) => {
            proof {
                broadcast use vstd::seq::axiom_seq_index_decreases;

                assert forall|i: int| 0 <= i < s.len() implies (decreases_to!(e => s[i])) by {
                    assert(decreases_to!(e => s));
                    assert(decreases_to!(s => s[i]));
                }
            }
            match t {
                Ty::List(t2) => forall|i: int| 0 <= i < s.len() ==> fits(#[trigger] s[i], *t2),
                _ => false,
            }
        },
    }
}

/// Every element of a well-formed column fits the column's declared type.
pub proof fn lemma_vals_fit(v: Value)
    requires
        v.wf(),
    ensures
        forall|i: int| 0 <= i < v.vals().len() ==> fits(#[trigger] v.vals()[i], v.spec_ty()),
    decreases v,
{
    match v {
        Value::List(b) => {
            lemma_vals_fit(b.values);
            assert forall|i: int| 0 <= i < v.vals().len() implies fits(
                #[trigger] v.vals()[i],
                v.spec_ty(),
            ) by {
                if b.spec_valid_at(i) {
                    let row = b.values.vals().subrange(
                        b.offsets@[i] as int,
                        b.offsets@[i + 1] as int,
                    );
                    assert(b.offsets@[i + 1] <= b.offsets@[b.offsets@.len() - 1]);
                    lemma_vals_len(b.values);
                    assert forall|k: int| 0 <= k < row.len() implies fits(
                        #[trigger] row[k],
                        b.values.spec_ty(),
                    ) by {
                        assert(row[k] == b.values.vals()[b.offsets@[i] + k]);
                    }
                    assert(v.vals()[i] == ElemVal::List(row));
                }
            }
        },
        _ => {},
    }
}

/// An empty column of the given declared type.
pub fn new_empty_value(t: &Ty) -> (v: Value)
    ensures
        v.wf(),
        v.spec_ty() == *t,
        v.vals() =~= Seq::<ElemVal>::empty(),
    decreases t,
{
    match t {
        Ty::Null => Value::Null(Vec::new()),
        Ty::Int64 => Value::Int64(Vec::new()),
        Ty::Bool => Value::Bool(Vec::new()),
        Ty::Utf8 => Value::Utf8(Vec::new()),
        Ty::List(t2) => {
            let values = new_empty_value(t2);
            let mut offsets: Vec<usize> = Vec::new();
            offsets.push(0);
            let nulls: Vec<bool> = Vec::new();
            let col = ListCol { values, offsets, nulls: Some(nulls) };
            let v = Value::List(Box::new(col));
            proof {
                lemma_vals_len(v);
            }
            v
        },
    }
}

/// Deep copy of a column.
pub fn value_clone(v: &Value) -> (r: Value)
    requires
        v.wf(),
    ensures
        r.wf(),
        r.spec_ty() == v.spec_ty(),
        r.vals() == v.vals(),
{
    let t = v.ty();
    let empty = new_empty_value(&t);
    let n = v.len();
    proof {
        lemma_vals_len(*v);
    }
    let r = value_extend(empty, v, 0, n);
    proof {
        assert(r.vals() =~= v.vals());
    }
    r
}

/// A validity mask with one explicit flag per row; an absent mask reads
/// as all-valid.
fn normalize_mask(nulls: Option<Vec<bool>>, rc: usize) -> (m: Vec<bool>)
    requires
        match nulls {
            Some(v) => v@.len() == rc,
            None => true,
        },
    ensures
        m@.len() == rc,
        m@ =~= match nulls {
            Some(v) => v@,
            None => Seq::new(rc as nat, |i: int| true),
        },
{
    match nulls {
        Some(v) => v,
        None => {
            let mut m: Vec<bool> = Vec::new();
            for k in 0..rc
                invariant
                    m@.len() == k,
                    forall|i: int| 0 <= i < k ==> m@[i],
            {
                m.push(true);
            }
            m
        },
    }
}

/// Append elements `[start, end)` of `src` to `dst`, a column of the same
/// declared type.  Null slots and null rows copy as nulls; nested rows
/// copy span by span.
#[verifier::loop_isolation(false)]
#[verifier::rlimit(60)]
pub fn value_extend(dst: Value, src: &Value, start: usize, end: usize) -> (r: Value)
    requires
        dst.wf(),
        src.wf(),
        dst.spec_ty() == src.spec_ty(),
        start <= end,
        end <= src.spec_len(),
    ensures
        r.wf(),
        r.spec_ty() == dst.spec_ty(),
        r.vals() == dst.vals() + src.vals().subrange(start as int, end as int),
    decreases src,
{
    let ghost dst_vals = dst.vals();
    let ghost src_vals = src.vals();
    let ghost goal = dst.vals() + src.vals().subrange(start as int, end as int);
    proof {
        lemma_vals_len(dst);
        lemma_vals_len(*src);
    }
    match (dst, src) {
        (Value::Int64(mut d), Value::Int64(s)) => {
            let ghost d0 = d@;
            for j in start..end
                invariant
                    d@ =~= d0 + s@.subrange(start as int, j as int),
            {
                let x = s[j];
                d.push(x);
                proof {
                    assert(s@.subrange(start as int, j as int).push(s@[j as int]) =~= s@.subrange(
                        start as int,
                        j as int + 1,
                    ));
                }
            }
            let r = Value::Int64(d);
            proof {
                assert(r.vals() =~= goal);
            }
            r
        },
        (Value::Bool(mut d), Value::Bool(s)) => {
            let ghost d0 = d@;
            for j in start..end
                invariant
                    d@ =~= d0 + s@.subrange(start as int, j as int),
            {
                let x = s[j];
                d.push(x);
                proof {
                    assert(s@.subrange(start as int, j as int).push(s@[j as int]) =~= s@.subrange(
                        start as int,
                        j as int + 1,
                    ));
                }
            }
            let r = Value::Bool(d);
            proof {
                assert(r.vals() =~= goal);
            }
            r
        },
        (Value::Utf8(mut d), Value::Utf8(s)) => {
            let ghost d0 = d@;
            for j in start..end
                invariant
                    d@.len() == d0.len() + j - start,
                    forall|k: int| 0 <= k < d0.len() ==> d@[k] == d0[k],
                    forall|k: int|
                        d0.len() <= k < d@.len() ==> (#[trigger] d@[k] matches Some(t) ==> (
                        s@[start + k - d0.len()] matches Some(u) && t@ == u@)),
                    forall|k: int|
                        d0.len() <= k < d@.len() ==> (#[trigger] d@[k] is None <==> s@[start + k
                            - d0.len()] is None),
            {
                let x: Option<String> = match &s[j] {
                    Some(t) => Some(t.clone()),
                    None => None,
                };
                d.push(x);
            }
            let r = Value::Utf8(d);
            proof {
                assert(r.vals() =~= goal);
            }
            r
        },
        (Value::Null(mut d), Value::Null(s)) => {
            let ghost d0 = d@;
            for j in start..end
                invariant
                    d@.len() == d0.len() + j - start,
            {
                d.push(());
            }
            let r = Value::Null(d);
            proof {
                assert(r.vals() =~= goal);
            }
            r
        },
        (Value::List(db), Value::List(sb)) => {
            let ghost src_child = sb.values.vals();
            proof {
                lemma_vals_len(sb.values);
                lemma_list_vals(*db);
            }
            let col = *db;
            let rc = col.offsets.len() - 1;
            let mut values = col.values;
            let mut offsets = col.offsets;
            let mut mask = normalize_mask(col.nulls, rc);
            let ghost child_ty = values.spec_ty();
            for r_i in start..end
                invariant
                    values.wf(),
                    values.spec_ty() == child_ty,
                    parts_wf(values.spec_len(), offsets@, mask@),
                    rows_of(values.vals(), offsets@, mask@) =~= dst_vals + src_vals.subrange(
                        start as int,
                        r_i as int,
                    ),
            {
                let ghost child0 = values.vals();
                let ghost offsets0 = offsets@;
                let ghost mask0 = mask@;
                proof {
                    lemma_vals_len(values);
                }
                if sb.valid_at(r_i) {
                    let s_lo = sb.offsets[r_i];
                    let s_hi = sb.offsets[r_i + 1];
                    values = value_extend(values, &sb.values, s_lo, s_hi);
                    proof {
                        lemma_vals_len(values);
                    }
                    let new_off = values.len();
                    offsets.push(new_off);
                    mask.push(true);
                    proof {
                        let ext = src_child.subrange(s_lo as int, s_hi as int);
                        lemma_rows_snoc_valid(child0, ext, offsets0, mask0, new_off);
                        assert(src_vals[r_i as int] == ElemVal::List(ext));
                        assert(src_vals.subrange(start as int, r_i as int + 1) =~= src_vals
                            .subrange(start as int, r_i as int).push(src_vals[r_i as int]));
                        assert(rows_of(values.vals(), offsets@, mask@) =~= dst_vals
                            + src_vals.subrange(start as int, r_i as int + 1));
                    }
                } else {
                    let new_off = offsets[offsets.len() - 1];
                    offsets.push(new_off);
                    mask.push(false);
                    proof {
                        lemma_rows_snoc_null(child0, offsets0, mask0);
                        assert(src_vals[r_i as int] is Null);
                        assert(src_vals.subrange(start as int, r_i as int + 1) =~= src_vals
                            .subrange(start as int, r_i as int).push(src_vals[r_i as int]));
                        assert(rows_of(values.vals(), offsets@, mask@) =~= dst_vals
                            + src_vals.subrange(start as int, r_i as int + 1));
                    }
                }
            }
            let out = ListCol { values, offsets, nulls: Some(mask) };
            let r = Value::List(Box::new(out));
            proof {
                lemma_list_vals(out);
                assert(r.vals() =~= goal);
            }
            r
        },
        _ => {
            proof {
                assert(false);
            }
            vstd::pervasive::unreached()
        },
    }
}

/// Append `n` null slots to `dst`.
#[verifier::loop_isolation(false)]
pub fn value_extend_nulls(dst: Value, n: usize) -> (r: Value)
    requires
        dst.wf(),
    ensures
        r.wf(),
        r.spec_ty() == dst.spec_ty(),
        r.vals() == dst.vals() + Seq::new(n as nat, |i: int| ElemVal::Null),
{
    let ghost dst_vals = dst.vals();
    let ghost goal = dst.vals() + Seq::new(n as nat, |i: int| ElemVal::Null);
    proof {
        lemma_vals_len(dst);
    }
    match dst {
        Value::Int64(mut d) => {
            let ghost d0 = d@;
            for j in 0..n
                invariant
                    d@.len() == d0.len() + j,
                    forall|k: int| 0 <= k < d0.len() ==> d@[k] == d0[k],
                    forall|k: int| d0.len() <= k < d@.len() ==> #[trigger] d@[k] is None,
            {
                d.push(None);
            }
            let r = Value::Int64(d);
            proof {
                assert(r.vals() =~= goal);
            }
            r
        },
        Value::Bool(mut d) => {
            let ghost d0 = d@;
            for j in 0..n
                invariant
                    d@.len() == d0.len() + j,
                    forall|k: int| 0 <= k < d0.len() ==> d@[k] == d0[k],
                    forall|k: int| d0.len() <= k < d@.len() ==> #[trigger] d@[k] is None,
            {
                d.push(None);
            }
            let r = Value::Bool(d);
            proof {
                assert(r.vals() =~= goal);
            }
            r
        },
        Value::Utf8(mut d) => {
            let ghost d0 = d@;
            for j in 0..n
                invariant
                    d@.len() == d0.len() + j,
                    forall|k: int| 0 <= k < d0.len() ==> d@[k] == d0[k],
                    forall|k: int| d0.len() <= k < d@.len() ==> #[trigger] d@[k] is None,
            {
                d.push(None);
            }
            let r = Value::Utf8(d);
            proof {
                assert(r.vals() =~= goal);
            }
            r
        },
        Value::Null(mut d) => {
            let ghost d0 = d@;
            for j in 0..n
                invariant
                    d@.len() == d0.len() + j,
            {
                d.push(());
            }
            let r = Value::Null(d);
            proof {
                assert(r.vals() =~= goal);
            }
            r
        },
        Value::List(db) => {
            proof {
                lemma_list_vals(*db);
            }
            let col = *db;
            let rc = col.offsets.len() - 1;
            let values = col.values;
            let mut offsets = col.offsets;
            let mut mask = normalize_mask(col.nulls, rc);
            proof {
                lemma_vals_len(values);
            }
            for j in 0..n
                invariant
                    parts_wf(values.spec_len(), offsets@, mask@),
                    rows_of(values.vals(), offsets@, mask@) =~= dst_vals + Seq::new(
                        j as nat,
                        |i: int| ElemVal::Null,
                    ),
            {
                let ghost offsets0 = offsets@;
                let ghost mask0 = mask@;
                let new_off = offsets[offsets.len() - 1];
                offsets.push(new_off);
                mask.push(false);
                proof {
                    lemma_rows_snoc_null(values.vals(), offsets0, mask0);
                    assert(rows_of(values.vals(), offsets@, mask@) =~= dst_vals + Seq::new(
                        (j + 1) as nat,
                        |i: int| ElemVal::Null,
                    ));
                }
            }
            let out = ListCol { values, offsets, nulls: Some(mask) };
            let r = Value::List(Box::new(out));
            proof {
                lemma_list_vals(out);
                assert(r.vals() =~= goal);
            }
            r
        },
    }
}

/// Append one owned element to `dst`; the element must fit the column's
/// declared type.
#[verifier::loop_isolation(false)]
pub fn value_push_elem(dst: Value, e: &Elem) -> (r: Value)
    requires
        dst.wf(),
        fits(e.val(), dst.spec_ty()),
    ensures
        r.wf(),
        r.spec_ty() == dst.spec_ty(),
        r.vals() == dst.vals().push(e.val()),
    decreases e,
{
    let ghost dst_vals = dst.vals();
    let ghost goal = dst.vals().push(e.val());
    proof {
        lemma_vals_len(dst);
    }
    match (dst, e) {
        (Value::Int64(mut d), Elem::Int(x)) => {
            d.push(Some(*x));
            let r = Value::Int64(d);
            proof {
                assert(r.vals() =~= goal);
            }
            r
        },
        (Value::Int64(mut d), Elem::Null) => {
            d.push(None);
            let r = Value::Int64(d);
            proof {
                assert(r.vals() =~= goal);
            }
            r
        },
        (Value::Bool(mut d), Elem::Bool(x)) => {
            d.push(Some(*x));
            let r = Value::Bool(d);
            proof {
                assert(r.vals() =~= goal);
            }
            r
        },
        (Value::Bool(mut d), Elem::Null) => {
            d.push(None);
            let r = Value::Bool(d);
            proof {
                assert(r.vals() =~= goal);
            }
            r
        },
        (Value::Utf8(mut d), Elem::Str(s)) => {
            d.push(Some(s.clone()));
            let r = Value::Utf8(d);
            proof {
                assert(r.vals() =~= goal);
            }
            r
        },
        (Value::Utf8(mut d), Elem::Null) => {
            d.push(None);
            let r = Value::Utf8(d);
            proof {
                assert(r.vals() =~= goal);
            }
            r
        },
        (Value::Null(mut d), Elem::Null) => {
            d.push(());
            let r = Value::Null(d);
            proof {
                assert(r.vals() =~= goal);
            }
            r
        },
        (Value::List(db), Elem::Null) => {
            proof {
                lemma_list_vals(*db);
            }
            let col = *db;
            let rc = col.offsets.len() - 1;
            let values = col.values;
            let mut offsets = col.offsets;
            let mut mask = normalize_mask(col.nulls, rc);
            proof {
                lemma_vals_len(values);
            }
            let ghost offsets0 = offsets@;
            let ghost mask0 = mask@;
            let new_off = offsets[offsets.len() - 1];
            offsets.push(new_off);
            mask.push(false);
            proof {
                lemma_rows_snoc_null(values.vals(), offsets0, mask0);
            }
            let out = ListCol { values, offsets, nulls: Some(mask) };
            let r = Value::List(Box::new(out));
            proof {
                lemma_list_vals(out);
                assert(r.vals() =~= goal);
            }
            r
        },
        (Value::List(db), Elem::List(v)) => {
            let ghost row = e.val()->List_0;
            proof {
                lemma_list_vals(*db);
                assert(row =~= elems_val(v@));
            }
            let col = *db;
            let rc = col.offsets.len() - 1;
            let mut values = col.values;
            let mut offsets = col.offsets;
            let mut mask = normalize_mask(col.nulls, rc);
            let ghost child_ty = values.spec_ty();
            let ghost child0 = values.vals();
            proof {
                lemma_vals_len(values);
            }
            let n = v.len();
            for j in 0..n
                invariant
                    values.wf(),
                    values.spec_ty() == child_ty,
                    values.vals() =~= child0 + elems_val(v@).subrange(0, j as int),
            {
                proof {
                    lemma_elem_member_decreases(*e, j as int);
                    assert(fits(row[j as int], child_ty));
                    assert(row[j as int] == v@[j as int].val());
                    assert(elems_val(v@).subrange(0, j as int).push(v@[j as int].val())
                        =~= elems_val(v@).subrange(0, j as int + 1));
                }
                values = value_push_elem(values, &v[j]);
            }
            proof {
                lemma_vals_len(values);
                assert(elems_val(v@).subrange(0, n as int) =~= elems_val(v@));
            }
            let new_off = values.len();
            offsets.push(new_off);
            mask.push(true);
            proof {
                lemma_rows_snoc_valid(child0, elems_val(v@), offsets@.drop_last(), mask@.drop_last(), new_off);
                assert(offsets@.drop_last().push(new_off) =~= offsets@);
                assert(mask@.drop_last().push(true) =~= mask@);
            }
            let out = ListCol { values, offsets, nulls: Some(mask) };
            let r = Value::List(Box::new(out));
            proof {
                lemma_list_vals(out);
                assert(r.vals() =~= goal);
            }
            r
        },
        _ => {
            proof {
                assert(false);
            }
            vstd::pervasive::unreached()
        },
    }
}

} // verus!
