//! Search within rows: first match position, all match positions, and
//! the membership tests.  All comparisons are null-safe: two nulls are
//! equal.

use vstd::prelude::*;

use crate::arena::{fits, new_empty_value, value_extend_nulls, value_push_elem};
use crate::error::ArrayError;
use crate::model::{elems_val, lemma_vals_len, read_row, value_get, Elem, ElemVal, ListCol, Ty,
    Value};
use crate::order::{elem_eq, elems_contains};
use crate::setops::valid_pairs;

verus! {

/// The first index at or after `k` whose element equals `v`.
pub open spec fn first_match(s: Seq<ElemVal>, v: ElemVal, k: int) -> Option<int>
    decreases s.len() - k,
{
    if k < 0 || k >= s.len() {
        None
    } else if s[k] == v {
        Some(k)
    } else {
        first_match(s, v, k + 1)
    }
}

/// All 1-based positions at or after `k` whose element equals `v`.
pub open spec fn match_positions(s: Seq<ElemVal>, v: ElemVal, k: int) -> Seq<ElemVal>
    decreases s.len() - k,
{
    if k < 0 || k >= s.len() {
        Seq::empty()
    } else if s[k] == v {
        seq![ElemVal::Int(k + 1)] + match_positions(s, v, k + 1)
    } else {
        match_positions(s, v, k + 1)
    }
}

/// The start value an entry of the start column denotes; a null entry
/// reads as 0, which fails validation on any non-empty present row.
pub open spec fn start_of(e: ElemVal) -> int {
    match e {
        ElemVal::Int(i) => i,
        _ => 0,
    }
}

/// A row on which the requested start position is out of bounds: the
/// start must lie in `[1, len]` for every present, non-empty row.
pub open spec fn start_bad(row: ElemVal, start_e: ElemVal) -> bool {
    row matches ElemVal::List(s) && s.len() > 0 && !(1 <= start_of(start_e) <= s.len())
}

/// The argument shape `array_position` accepts: a list column, an
/// element column of the element type (or of the untyped-null type), and
/// optionally an integer start column.
pub open spec fn position_args_ok(args: Seq<Value>) -> bool {
    &&& (args.len() == 2 || args.len() == 3)
    &&& args[0] is List
    &&& (args[0]->List_0.values.spec_ty() == args[1].spec_ty() || args[1].spec_ty() is Null)
    &&& (args.len() == 3 ==> args[2] is Int64)
}

/// The start entries `array_position` works with: the third column's
/// values, or 1 for every row when no third argument is given.
pub open spec fn start_entries(args: Seq<Value>) -> Seq<ElemVal> {
    if args.len() == 3 {
        args[2].vals()
    } else {
        Seq::new(args[0].spec_len(), |i: int| ElemVal::Int(1))
    }
}

/// What `array_position` owes: per row, the 1-based position of the
/// first element at or after the start that equals the row's element,
/// null when the row is null or holds no match.
pub open spec fn position_output_ok(args: Seq<Value>, out: Value) -> bool {
    &&& out is Int64
    &&& out.vals().len() == args[0].spec_len()
    &&& forall|i: int|
        0 <= i < out.vals().len() ==> out.vals()[i] == (match args[0].vals()[i] {
            ElemVal::List(s) => {
                match first_match(s, args[1].vals()[i], start_of(start_entries(args)[i]) - 1) {
                    Some(p) => ElemVal::Int(p + 1),
                    None => ElemVal::Null,
                }
            },
            _ => ElemVal::Null,
        })
}

/// Scan a row for the first element equal to `e`, starting at `from`.
#[verifier::loop_isolation(false)]
fn scan_first(row: &Vec<Elem>, e: &Elem, from: usize) -> (r: Option<usize>)
    ensures
        match r {
            Some(p) => first_match(elems_val(row@), e.val(), from as int) == Some(p as int)
                && from <= p < row@.len(),
            None => first_match(elems_val(row@), e.val(), from as int) is None,
        },
{
    let ghost s = elems_val(row@);
    let n = row.len();
    let mut k = from;
    while k < n
        invariant
            from <= k,
            first_match(s, e.val(), from as int) == first_match(s, e.val(), k as int),
        decreases n - k,
    {
        if elem_eq(&row[k], e) {
            return Some(k);
        }
        k = k + 1;
    }
    None
}

/// Per row, the 1-based position of the first element at or after the
/// given start that equals the paired element, or null when the row is
/// null or holds no match.  A start outside `[1, len]` on a present,
/// non-empty row is an execution error.
#[verifier::loop_isolation(false)]
pub fn array_position(args: &Vec<Value>) -> (r: Result<Value, ArrayError>)
    requires
        forall|i: int| 0 <= i < args@.len() ==> (#[trigger] args@[i]).wf(),
        position_args_ok(args@) ==> args@[1].spec_len() == args@[0].spec_len() && (args@.len() == 3
            ==> args@[2].spec_len() == args@[0].spec_len()),
        args@.len() >= 1 ==> (args@[0] matches Value::List(b) ==> b.values.spec_len()
            <= i64::MAX),
    ensures
        r is Ok <==> (position_args_ok(args@) && (forall|i: int|
            0 <= i < args@[0].spec_len() ==> !start_bad(
                #[trigger] args@[0].vals()[i],
                start_entries(args@)[i],
            ))),
        r matches Ok(out) ==> position_output_ok(args@, out),
        r matches Err(e) ==> (if !(args@.len() == 2 || args@.len() == 3) {
            e is Plan
        } else if !(args@[0] is List) {
            e is Internal
        } else if !position_args_ok(args@) {
            e is Plan
        } else {
            e is Exec
        }),
{
    if !(args.len() == 2 || args.len() == 3) {
        return Err(ArrayError::Plan("array_position expects two or three arguments".to_owned()));
    }
    let b: &ListCol = match &args[0] {
        Value::List(b) => b,
        _ => {
            return Err(ArrayError::Internal("array_position expects a list column".to_owned()));
        },
    };
    let et = args[1].ty();
    let ct = b.values.ty();
    if !(crate::model::ty_eq(&ct, &et) || matches!(et, Ty::Null)) {
        return Err(ArrayError::Plan("array_position received incompatible types".to_owned()));
    }
    if args.len() == 3 && !matches!(&args[2], Value::Int64(_)) {
        return Err(ArrayError::Plan("array_position expects an integer start".to_owned()));
    }
    let ghost list_vals = args@[0].vals();
    let ghost elem_vals = args@[1].vals();
    let ghost starts = start_entries(args@);
    proof {
        lemma_vals_len(args@[0]);
        lemma_vals_len(args@[1]);
        if args@.len() == 3 {
            lemma_vals_len(args@[2]);
        }
    }
    let rc = b.row_count();
    // validate every start before producing anything, as one pass
    let mut i: usize = 0;
    while i < rc
        invariant
            i <= rc,
            forall|k: int| 0 <= k < i ==> !start_bad(#[trigger] list_vals[k], starts[k]),
        decreases rc - i,
    {
        if b.valid_at(i) {
            let start = b.offsets[i];
            let end = b.offsets[i + 1];
            let len = end - start;
            proof {
                assert(list_vals[i as int] == ElemVal::List(
                    b.values.vals().subrange(start as int, end as int),
                ));
                lemma_vals_len(b.values);
            }
            if len > 0 {
                let s_val: i64 = if args.len() == 3 {
                    match &args[2] {
                        Value::Int64(d) => match d[i] {
                            Some(x) => x,
                            None => 0,
                        },
                        _ => 0,
                    }
                } else {
                    1
                };
                proof {
                    assert(start_of(starts[i as int]) == s_val as int);
                }
                if !(1 <= s_val && s_val as i128 <= len as i128) {
                    return Err(ArrayError::Exec("start index out of bounds".to_owned()));
                }
            }
        } else {
            proof {
                assert(list_vals[i as int] is Null);
            }
        }
        i = i + 1;
    }
    let mut data: Vec<Option<i64>> = Vec::new();
    for i in 0..rc
        invariant
            data@.len() == i,
            forall|k: int|
                0 <= k < i ==> (match list_vals[k] {
                    ElemVal::List(s) => {
                        match first_match(s, elem_vals[k], start_of(starts[k]) - 1) {
                            Some(p) => (#[trigger] data@[k]) matches Some(x) && x as int == p + 1,
                            None => data@[k] is None,
                        }
                    },
                    _ => data@[k] is None,
                }),
    {
        match read_row(b, i) {
            None => {
                data.push(None);
                proof {
                    assert(list_vals[i as int] is Null);
                }
            },
            Some(row) => {
                let e = value_get(&args[1], i);
                let s_val: i64 = if args.len() == 3 {
                    match &args[2] {
                        Value::Int64(d) => match d[i] {
                            Some(x) => x,
                            None => 0,
                        },
                        _ => 0,
                    }
                } else {
                    1
                };
                let n = row.len();
                let ghost s = list_vals[i as int]->List_0;
                proof {
                    assert(start_of(starts[i as int]) == s_val as int);
                    assert(e.val() == elem_vals[i as int]);
                    assert(elems_val(row@) =~= s);
                    assert(!start_bad(list_vals[i as int], starts[i as int]));
                    lemma_vals_len(b.values);
                    assert(s.len() <= b.values.spec_len());
                }
                let from: usize = if 1 <= s_val && s_val as i128 - 1 <= n as i128 {
                    (s_val - 1) as usize
                } else {
                    // an out-of-range start reaches this point only on an
                    // empty row, where every scan start finds nothing
                    n
                };
                proof {
                    if !(1 <= s_val as int <= s.len() + 1) {
                        assert(s.len() == 0);
                        assert(first_match(s, e.val(), from as int) is None);
                        assert(first_match(s, e.val(), s_val as int - 1) is None);
                    } else {
                        if s_val as int - 1 == s.len() {
                            assert(first_match(s, e.val(), from as int) is None);
                            assert(first_match(s, e.val(), s_val as int - 1) is None);
                        } else {
                            assert(from as int == s_val as int - 1);
                        }
                    }
                }
                match scan_first(&row, &e, from) {
                    Some(p) => {
                        data.push(Some(p as i64 + 1));
                        proof {
                            assert(first_match(s, e.val(), s_val as int - 1) == Some(p as int));
                        }
                    },
                    None => {
                        data.push(None);
                        proof {
                            assert(first_match(s, e.val(), s_val as int - 1) is None);
                        }
                    },
                }
            },
        }
    }
    let out = Value::Int64(data);
    proof {
        assert forall|i: int| 0 <= i < out.vals().len() implies out.vals()[i] == (
        match list_vals[i] {
            ElemVal::List(s) => {
                match first_match(s, elem_vals[i], start_of(starts[i]) - 1) {
                    Some(p) => ElemVal::Int(p + 1),
                    None => ElemVal::Null,
                }
            },
            _ => ElemVal::Null,
        }) by {
            match list_vals[i] {
                ElemVal::List(s) => {
                    match first_match(s, elem_vals[i], start_of(starts[i]) - 1) {
                        Some(p) => {
                            assert(data@[i] matches Some(x) && x as int == p + 1);
                        },
                        None => {
                            assert(data@[i] is None);
                        },
                    }
                },
                _ => {
                    assert(data@[i] is None);
                },
            }
        }
    }
    Ok(out)
}

/// The argument shape `array_positions` accepts.
pub open spec fn positions_args_ok(args: Seq<Value>) -> bool {
    &&& args.len() == 2
    &&& args[0] is List
    &&& (args[0]->List_0.values.spec_ty() == args[1].spec_ty() || args[1].spec_ty() is Null)
}

/// Per row, all 1-based positions of elements equal to the paired
/// element, collected into a list row; a null row gives a null row.
#[verifier::loop_isolation(false)]
pub fn array_positions(args: &Vec<Value>) -> (r: Result<Value, ArrayError>)
    requires
        forall|i: int| 0 <= i < args@.len() ==> (#[trigger] args@[i]).wf(),
        positions_args_ok(args@) ==> args@[1].spec_len() == args@[0].spec_len(),
        args@.len() >= 1 ==> (args@[0] matches Value::List(b) ==> b.values.spec_len()
            <= i64::MAX),
    ensures
        r is Ok <==> positions_args_ok(args@),
        r matches Ok(out) ==> {
            &&& out.wf()
            &&& out.spec_ty() == Ty::List(Box::new(Ty::Int64))
            &&& out.vals().len() == args@[0].spec_len()
            &&& forall|i: int|
                0 <= i < out.vals().len() ==> out.vals()[i] == (match args@[0].vals()[i] {
                    ElemVal::List(s) => ElemVal::List(match_positions(s, args@[1].vals()[i], 0)),
                    _ => ElemVal::Null,
                })
        },
        r matches Err(e) ==> (if args@.len() != 2 {
            e is Plan
        } else if !(args@[0] is List) {
            e is Internal
        } else {
            e is Plan
        }),
{
    if args.len() != 2 {
        return Err(ArrayError::Plan("array_positions expects two arguments".to_owned()));
    }
    let b: &ListCol = match &args[0] {
        Value::List(b) => b,
        _ => {
            return Err(ArrayError::Internal("array_positions expects a list column".to_owned()));
        },
    };
    let et = args[1].ty();
    let ct = b.values.ty();
    if !(crate::model::ty_eq(&ct, &et) || matches!(et, Ty::Null)) {
        return Err(ArrayError::Plan("array_positions received incompatible types".to_owned()));
    }
    let ghost list_vals = args@[0].vals();
    let ghost elem_vals = args@[1].vals();
    proof {
        lemma_vals_len(args@[0]);
        lemma_vals_len(args@[1]);
    }
    let out_ty = Ty::List(Box::new(Ty::Int64));
    let mut out = new_empty_value(&out_ty);
    let rc = b.row_count();
    for i in 0..rc
        invariant
            out.wf(),
            out.spec_ty() == Ty::List(Box::new(Ty::Int64)),
            out.vals().len() == i,
            forall|k: int|
                0 <= k < i ==> out.vals()[k] == (match list_vals[k] {
                    ElemVal::List(s) => ElemVal::List(match_positions(s, elem_vals[k], 0)),
                    _ => ElemVal::Null,
                }),
    {
        proof {
            lemma_vals_len(out);
        }
        match read_row(b, i) {
            None => {
                out = value_extend_nulls(out, 1);
            },
            Some(row) => {
                let e = value_get(&args[1], i);
                let ghost s = list_vals[i as int]->List_0;
                proof {
                    assert(e.val() == elem_vals[i as int]);
                }
                let n = row.len();
                proof {
                    assert(elems_val(row@) =~= s);
                    lemma_vals_len(b.values);
                    assert(s.len() <= b.values.spec_len());
                }
                let mut ps: Vec<Elem> = Vec::new();
                proof {
                    assert(match_positions(s, e.val(), 0) =~= elems_val(ps@) + match_positions(
                        s,
                        e.val(),
                        0,
                    ));
                }
                for k in 0..n
                    invariant
                        match_positions(s, e.val(), 0) =~= elems_val(ps@) + match_positions(
                            s,
                            e.val(),
                            k as int,
                        ),
                        forall|m: int|
                            0 <= m < ps@.len() ==> ((#[trigger] elems_val(ps@)[m]) matches
                                ElemVal::Int(p) && 1 <= p <= s.len() && p <= i64::MAX),
                {
                    let ghost pv = elems_val(ps@);
                    if elem_eq(&row[k], &e) {
                        ps.push(Elem::Int(k as i64 + 1));
                        proof {
                            assert(s[k as int] == e.val());
                            assert(match_positions(s, e.val(), k as int) == seq![
                                ElemVal::Int(k as int + 1),
                            ] + match_positions(s, e.val(), k as int + 1));
                            assert(elems_val(ps@) =~= pv.push(ElemVal::Int(k as int + 1)));
                            assert(pv + (seq![ElemVal::Int(k as int + 1)] + match_positions(
                                s,
                                e.val(),
                                k as int + 1,
                            )) =~= elems_val(ps@) + match_positions(s, e.val(), k as int + 1));
                        }
                    } else {
                        proof {
                            assert(s[k as int] != e.val());
                        }
                    }
                }
                proof {
                    assert(match_positions(s, e.val(), n as int) =~= Seq::<ElemVal>::empty());
                    assert(elems_val(ps@) + Seq::<ElemVal>::empty() =~= elems_val(ps@));
                }
                let row_elem = Elem::List(ps);
                proof {
                    assert(row_elem.val() matches ElemVal::List(v) && v =~= match_positions(
                        s,
                        e.val(),
                        0,
                    ));
                    let v = row_elem.val()->List_0;
                    assert forall|m: int| 0 <= m < v.len() implies fits(
                        #[trigger] v[m],
                        Ty::Int64,
                    ) by {
                        assert(v[m] == elems_val(ps@)[m]);
                        assert(elems_val(ps@)[m] is Int);
                    }
                    assert(fits(row_elem.val(), Ty::List(Box::new(Ty::Int64))));
                }
                out = value_push_elem(out, &row_elem);
            },
        }
    }
    Ok(out)
}

/// Whether every value of `b` appears in `a`; vacuously true for an
/// empty `b`.
pub open spec fn row_has_all(a: Seq<ElemVal>, b: Seq<ElemVal>) -> bool {
    forall|v: ElemVal| b.contains(v) ==> a.contains(v)
}

/// Whether some value appears in both rows.
pub open spec fn row_has_any(a: Seq<ElemVal>, b: Seq<ElemVal>) -> bool {
    exists|v: ElemVal| a.contains(v) && b.contains(v)
}

/// What `array_has` owes: one boolean per present row — whether the
/// paired element appears in the row.  Null rows are dropped.
pub open spec fn has_rows(list: Seq<ElemVal>, elems: Seq<ElemVal>) -> Seq<ElemVal>
    decreases list.len(),
{
    if list.len() == 0 || elems.len() == 0 {
        Seq::empty()
    } else if list.last() is Null {
        has_rows(list.drop_last(), elems.drop_last())
    } else {
        has_rows(list.drop_last(), elems.drop_last()).push(
            ElemVal::Bool(list.last()->List_0.contains(elems.last())),
        )
    }
}

/// Whether every element of `bv` appears in `av`.
#[verifier::loop_isolation(false)]
fn row_has_all_exec(av: &Vec<Elem>, bv: &Vec<Elem>) -> (r: bool)
    ensures
        r == row_has_all(elems_val(av@), elems_val(bv@)),
{
    let ghost a = elems_val(av@);
    let ghost bb = elems_val(bv@);
    let n = bv.len();
    for j in 0..n
        invariant
            forall|k: int| 0 <= k < j ==> a.contains(#[trigger] bb[k]),
    {
        if !elems_contains(av, &bv[j]) {
            proof {
                assert(bb.contains(bb[j as int]));
            }
            return false;
        }
    }
    proof {
        assert forall|v: ElemVal| bb.contains(v) implies a.contains(v) by {
            let k = choose|k: int| 0 <= k < bb.len() && bb[k] == v;
            assert(a.contains(bb[k]));
        }
    }
    true
}

/// Whether some element appears in both rows.
#[verifier::loop_isolation(false)]
fn row_has_any_exec(av: &Vec<Elem>, bv: &Vec<Elem>) -> (r: bool)
    ensures
        r == row_has_any(elems_val(av@), elems_val(bv@)),
{
    let ghost a = elems_val(av@);
    let ghost bb = elems_val(bv@);
    let n = bv.len();
    for j in 0..n
        invariant
            forall|k: int| 0 <= k < j ==> !a.contains(#[trigger] bb[k]),
    {
        if elems_contains(av, &bv[j]) {
            proof {
                assert(bb.contains(bb[j as int]));
            }
            return true;
        }
    }
    proof {
        assert forall|v: ElemVal| !(a.contains(v) && bb.contains(v)) by {
            if bb.contains(v) {
                let k = choose|k: int| 0 <= k < bb.len() && bb[k] == v;
                assert(!a.contains(bb[k]));
            }
        }
    }
    false
}

/// The argument shape `array_has` accepts: a list column and an element
/// column of the element type (or of the untyped-null type).
pub open spec fn has_args_ok(args: Seq<Value>) -> bool {
    &&& args.len() == 2
    &&& args[0] is List
    &&& (args[0]->List_0.values.spec_ty() == args[1].spec_ty() || args[1].spec_ty() is Null)
}

/// Per present row, whether any element of the row equals, null-safely,
/// the paired element; null rows are dropped.
#[verifier::loop_isolation(false)]
pub fn array_has(args: &Vec<Value>) -> (r: Result<Value, ArrayError>)
    requires
        forall|i: int| 0 <= i < args@.len() ==> (#[trigger] args@[i]).wf(),
        has_args_ok(args@) ==> args@[1].spec_len() == args@[0].spec_len(),
    ensures
        r is Ok <==> has_args_ok(args@),
        r matches Ok(out) ==> out is Bool && out.vals() == has_rows(
            args@[0].vals(),
            args@[1].vals(),
        ),
        r matches Err(e) ==> (if args@.len() != 2 {
            e is Plan
        } else if !(args@[0] is List) {
            e is Internal
        } else {
            e is Plan
        }),
{
    if args.len() != 2 {
        return Err(ArrayError::Plan("array_has expects two arguments".to_owned()));
    }
    let b: &ListCol = match &args[0] {
        Value::List(b) => b,
        _ => {
            return Err(ArrayError::Internal("array_has expects a list column".to_owned()));
        },
    };
    let et = args[1].ty();
    let ct = b.values.ty();
    if !(crate::model::ty_eq(&ct, &et) || matches!(et, Ty::Null)) {
        return Err(ArrayError::Plan("array_has received incompatible types".to_owned()));
    }
    let ghost list_vals = args@[0].vals();
    let ghost elem_vals = args@[1].vals();
    proof {
        lemma_vals_len(args@[0]);
        lemma_vals_len(args@[1]);
    }
    let rc = b.row_count();
    let mut data: Vec<Option<bool>> = Vec::new();
    proof {
        assert(list_vals.subrange(0, 0) =~= Seq::<ElemVal>::empty());
        assert(has_rows(list_vals.subrange(0, 0), elem_vals.subrange(0, 0)) =~= Seq::<
            ElemVal,
        >::empty());
    }
    for i in 0..rc
        invariant
            Value::Bool(data).vals() =~= has_rows(
                list_vals.subrange(0, i as int),
                elem_vals.subrange(0, i as int),
            ),
    {
        proof {
            assert(list_vals.subrange(0, i as int + 1).drop_last() =~= list_vals.subrange(
                0,
                i as int,
            ));
            assert(elem_vals.subrange(0, i as int + 1).drop_last() =~= elem_vals.subrange(
                0,
                i as int,
            ));
        }
        match read_row(b, i) {
            None => {},
            Some(av) => {
                let e = value_get(&args[1], i);
                let res = elems_contains(&av, &e);
                let ghost pre_vals = Value::Bool(data).vals();
                data.push(Some(res));
                proof {
                    assert(e.val() == elem_vals[i as int]);
                    assert(Value::Bool(data).vals() =~= pre_vals.push(
                        ElemVal::Bool(list_vals[i as int]->List_0.contains(elem_vals[i as int])),
                    ));
                }
            },
        }
    }
    proof {
        assert(list_vals.subrange(0, rc as int) =~= list_vals);
        assert(elem_vals.subrange(0, rc as int) =~= elem_vals);
    }
    Ok(Value::Bool(data))
}

/// The argument shape `array_has_any` and `array_has_all` accept: two
/// list columns with equal element types.
pub open spec fn has2_args_ok(args: Seq<Value>) -> bool {
    &&& args.len() == 2
    &&& args[0] is List
    &&& args[1] is List
    &&& args[0]->List_0.values.spec_ty() == args[1]->List_0.values.spec_ty()
}

/// What the two-list membership tests owe: one boolean per pair of
/// present rows; pairs with a null row are dropped.
pub open spec fn has2_output_ok(a: Value, b: Value, out: Value, all: bool) -> bool {
    let ps = valid_pairs(a.vals(), b.vals());
    &&& out is Bool
    &&& out.vals().len() == ps.len()
    &&& forall|k: int|
        0 <= k < ps.len() ==> out.vals()[k] == ElemVal::Bool(
            if all {
                row_has_all(ps[k].0->List_0, ps[k].1->List_0)
            } else {
                row_has_any(ps[k].0->List_0, ps[k].1->List_0)
            },
        )
}

/// Shared walk of the two membership tests.
#[verifier::loop_isolation(false)]
fn general_array_has(l: &ListCol, rr: &ListCol, all: bool, a: Ghost<Value>, b: Ghost<Value>) -> (out: Value)
    requires
        a@ == Value::List(Box::new(*l)),
        b@ == Value::List(Box::new(*rr)),
        a@.wf(),
        b@.wf(),
        a@.spec_len() == b@.spec_len(),
    ensures
        has2_output_ok(a@, b@, out, all),
{
    let ghost a_vals = a@.vals();
    let ghost b_vals = b@.vals();
    proof {
        lemma_vals_len(a@);
        lemma_vals_len(b@);
    }
    let rc = l.row_count();
    let mut data: Vec<Option<bool>> = Vec::new();
    proof {
        assert(a_vals.subrange(0, 0) =~= Seq::<ElemVal>::empty());
        assert(valid_pairs(a_vals.subrange(0, 0), b_vals.subrange(0, 0)) =~= Seq::<(
            ElemVal,
            ElemVal,
        )>::empty());
    }
    for i in 0..rc
        invariant
            data@.len() == valid_pairs(
                a_vals.subrange(0, i as int),
                b_vals.subrange(0, i as int),
            ).len(),
            forall|k: int|
                0 <= k < data@.len() ==> #[trigger] data@[k] == Some(
                    if all {
                        row_has_all(
                            valid_pairs(
                                a_vals.subrange(0, i as int),
                                b_vals.subrange(0, i as int),
                            )[k].0->List_0,
                            valid_pairs(
                                a_vals.subrange(0, i as int),
                                b_vals.subrange(0, i as int),
                            )[k].1->List_0,
                        )
                    } else {
                        row_has_any(
                            valid_pairs(
                                a_vals.subrange(0, i as int),
                                b_vals.subrange(0, i as int),
                            )[k].0->List_0,
                            valid_pairs(
                                a_vals.subrange(0, i as int),
                                b_vals.subrange(0, i as int),
                            )[k].1->List_0,
                        )
                    },
                ),
    {
        proof {
            assert(a_vals.subrange(0, i as int + 1).drop_last() =~= a_vals.subrange(0, i as int));
            assert(b_vals.subrange(0, i as int + 1).drop_last() =~= b_vals.subrange(0, i as int));
        }
        let ra = read_row(l, i);
        let rb = read_row(rr, i);
        match (ra, rb) {
            (Some(av), Some(bv)) => {
                let res = if all {
                    row_has_all_exec(&av, &bv)
                } else {
                    row_has_any_exec(&av, &bv)
                };
                data.push(Some(res));
            },
            _ => {},
        }
    }
    proof {
        assert(a_vals.subrange(0, rc as int) =~= a_vals);
        assert(b_vals.subrange(0, rc as int) =~= b_vals);
        assert forall|k: int|
            0 <= k < valid_pairs(a_vals, b_vals).len() implies Value::Bool(data).vals()[k]
            == ElemVal::Bool(
            if all {
                row_has_all(
                    valid_pairs(a_vals, b_vals)[k].0->List_0,
                    valid_pairs(a_vals, b_vals)[k].1->List_0,
                )
            } else {
                row_has_any(
                    valid_pairs(a_vals, b_vals)[k].0->List_0,
                    valid_pairs(a_vals, b_vals)[k].1->List_0,
                )
            },
        ) by {}
    }
    Value::Bool(data)
}

/// Per pair of present rows, whether some value of the second row
/// appears in the first; pairs with a null row are dropped.
pub fn array_has_any(args: &Vec<Value>) -> (r: Result<Value, ArrayError>)
    requires
        forall|i: int| 0 <= i < args@.len() ==> (#[trigger] args@[i]).wf(),
        has2_args_ok(args@) ==> args@[1].spec_len() == args@[0].spec_len(),
    ensures
        r is Ok <==> has2_args_ok(args@),
        r matches Ok(out) ==> has2_output_ok(args@[0], args@[1], out, false),
        r matches Err(e) ==> (if args@.len() != 2 {
            e is Plan
        } else if !(args@[0] is List) {
            e is Internal
        } else if !(args@[1] is List) && args@[1] is Null {
            e is Internal
        } else {
            e is Plan
        }),
{
    match check_has2_args(args, "array_has_any") {
        Ok((l, rr)) => Ok(
            general_array_has(l, rr, false, Ghost(args@[0]), Ghost(args@[1])),
        ),
        Err(e) => Err(e),
    }
}

/// Per pair of present rows, whether every value of the second row
/// appears in the first — vacuously true for an empty second row; pairs
/// with a null row are dropped.
pub fn array_has_all(args: &Vec<Value>) -> (r: Result<Value, ArrayError>)
    requires
        forall|i: int| 0 <= i < args@.len() ==> (#[trigger] args@[i]).wf(),
        has2_args_ok(args@) ==> args@[1].spec_len() == args@[0].spec_len(),
    ensures
        r is Ok <==> has2_args_ok(args@),
        r matches Ok(out) ==> has2_output_ok(args@[0], args@[1], out, true),
        r matches Err(e) ==> (if args@.len() != 2 {
            e is Plan
        } else if !(args@[0] is List) {
            e is Internal
        } else if !(args@[1] is List) && args@[1] is Null {
            e is Internal
        } else {
            e is Plan
        }),
{
    match check_has2_args(args, "array_has_all") {
        Ok((l, rr)) => Ok(
            general_array_has(l, rr, true, Ghost(args@[0]), Ghost(args@[1])),
        ),
        Err(e) => Err(e),
    }
}

/// Validate the arguments of the two-list membership tests.
fn check_has2_args<'a>(args: &'a Vec<Value>, name: &str) -> (r: Result<
    (&'a ListCol, &'a ListCol),
    ArrayError,
>)
    requires
        forall|i: int| 0 <= i < args@.len() ==> (#[trigger] args@[i]).wf(),
    ensures
        r is Ok <==> has2_args_ok(args@),
        r matches Ok((l, rr)) ==> args@[0] == Value::List(Box::new(*l)) && args@[1] == Value::List(
            Box::new(*rr),
        ),
        r matches Err(e) ==> (if args@.len() != 2 {
            e is Plan
        } else if !(args@[0] is List) {
            e is Internal
        } else if !(args@[1] is List) && args@[1] is Null {
            e is Internal
        } else {
            e is Plan
        }),
{
    if args.len() != 2 {
        return Err(ArrayError::Plan("the membership test expects two arguments".to_owned()));
    }
    let l: &ListCol = match &args[0] {
        Value::List(b) => b,
        _ => {
            return Err(ArrayError::Internal("the membership test expects a list column".to_owned()));
        },
    };
    match &args[1] {
        Value::List(rr) => {
            let lt = l.values.ty();
            let rt = rr.values.ty();
            if !crate::model::ty_eq(&lt, &rt) {
                return Err(ArrayError::Plan(
                    "the membership test received incompatible types".to_owned(),
                ));
            }
            Ok((l, rr))
        },
        Value::Null(_) => Err(
            ArrayError::Internal("the membership test expects a list column".to_owned()),
        ),
        _ => Err(ArrayError::Plan("the membership test received incompatible types".to_owned())),
    }
}

} // verus!
