//! Mutation: append, prepend, remove, replace, repeat, and per-row sort.
//! Every operation builds a fresh column; inputs are never changed.

use vstd::prelude::*;

use crate::arena::{fits, lemma_vals_fit, new_empty_value, value_extend_nulls, value_push_elem,
    value_clone};
use crate::construct::{concat_args_ok, concat_internal, concat_output_ok, make_array,
    row_content};
use crate::error::ArrayError;
use crate::model::{elems_val, lemma_vals_len, read_row, value_get, Elem, ElemVal, ListCol, Ty,
    Value};
use crate::order::{cmp_val, elem_cmp, elem_eq, Ord3};

verus! {

/// The row append or prepend produces: the row's elements (none for a
/// null row) with the paired element at the back or the front.
pub open spec fn append_row(row: ElemVal, e: ElemVal, is_append: bool) -> Seq<ElemVal> {
    if is_append {
        row_content(row).push(e)
    } else {
        seq![e] + row_content(row)
    }
}

/// Append or prepend one element per row, growing each row's span by
/// one; a null row yields a singleton row.
#[verifier::loop_isolation(false)]
pub(crate) fn general_append_and_prepend(
    list: &ListCol,
    element: &Value,
    is_append: bool,
    lv: Ghost<Value>,
) -> (out: Value)
    requires
        lv@ == Value::List(Box::new(*list)),
        lv@.wf(),
        element.wf(),
        element.spec_len() == lv@.spec_len(),
        element.spec_ty() == list.values.spec_ty() || element.spec_ty() is Null,
    ensures
        out.wf(),
        out.spec_ty() == Ty::List(Box::new(list.values.spec_ty())),
        out.vals().len() == lv@.spec_len(),
        forall|i: int|
            0 <= i < out.vals().len() ==> out.vals()[i] == ElemVal::List(
                append_row(lv@.vals()[i], element.vals()[i], is_append),
            ),
{
    let ghost list_vals = lv@.vals();
    let ghost elem_vals = element.vals();
    let ghost child_ty = list.values.spec_ty();
    proof {
        lemma_vals_len(lv@);
        lemma_vals_len(*element);
    }
    let child_ty_e = list.values.ty();
    let out_ty = Ty::List(Box::new(child_ty_e));
    let mut out = new_empty_value(&out_ty);
    let rc = list.row_count();
    for i in 0..rc
        invariant
            out.wf(),
            out.spec_ty() == Ty::List(Box::new(child_ty)),
            out.vals().len() == i,
            forall|k: int|
                0 <= k < i ==> out.vals()[k] == ElemVal::List(
                    append_row(list_vals[k], elem_vals[k], is_append),
                ),
    {
        proof {
            lemma_vals_len(out);
        }
        let e = value_get(element, i);
        let mut row: Vec<Elem> = match read_row(list, i) {
            Some(es) => es,
            None => Vec::new(),
        };
        let ghost content = row_content(list_vals[i as int]);
        proof {
            assert(elems_val(row@) =~= content);
            assert(e.val() == elem_vals[i as int]);
        }
        if is_append {
            row.push(e);
            proof {
                assert(elems_val(row@) =~= content.push(elem_vals[i as int]));
            }
        } else {
            row.insert(0, e);
            proof {
                assert(elems_val(row@) =~= seq![elem_vals[i as int]] + content);
            }
        }
        let row_elem = Elem::List(row);
        proof {
            let goal = append_row(list_vals[i as int], elem_vals[i as int], is_append);
            assert(row_elem.val() matches ElemVal::List(s) && s =~= goal);
            lemma_vals_fit(lv@);
            lemma_vals_fit(*element);
            assert(fits(elem_vals[i as int], element.spec_ty()));
            assert forall|m: int| 0 <= m < goal.len() implies fits(
                #[trigger] goal[m],
                child_ty,
            ) by {
                assert(fits(list_vals[i as int], Ty::List(Box::new(child_ty))));
                if element.spec_ty() is Null {
                    assert(elem_vals[i as int] is Null);
                }
                if is_append {
                    if m < goal.len() - 1 {
                        assert(goal[m] == list_vals[i as int]->List_0[m]);
                    }
                } else {
                    if m > 0 {
                        assert(goal[m] == list_vals[i as int]->List_0[m - 1]);
                    }
                }
            }
            assert(fits(row_elem.val(), Ty::List(Box::new(child_ty))));
        }
        out = value_push_elem(out, &row_elem);
    }
    out
}

/// The argument shape `array_append` accepts: a list column and an
/// element column whose type is the element type, or the untyped-null
/// type when the element type is itself untyped-null.
pub open spec fn append_args_ok(args: Seq<Value>, list_at: int, elem_at: int) -> bool {
    &&& args.len() == 2
    &&& args[list_at] is List
    &&& (args[list_at]->List_0.values.spec_ty() == args[elem_at].spec_ty()
        || args[elem_at].spec_ty() is Null)
}

/// What the append and prepend operations owe once the arguments are
/// accepted, by the element type of the list: nested element types go
/// through depth-aligned concatenation, an untyped-null element type
/// builds a fresh single-element list per row, and flat element types
/// grow each row by one.
pub open spec fn append_output_ok(
    args: Seq<Value>,
    list_at: int,
    elem_at: int,
    is_append: bool,
    out: Value,
) -> bool {
    let child = args[list_at]->List_0.values.spec_ty();
    if child is List {
        concat_output_ok(args, out)
    } else if child is Null {
        &&& out.vals().len() == 1
        &&& (out.vals()[0] matches ElemVal::List(s) && s.len() == 1 && s[0] is Null)
    } else {
        &&& out.spec_ty() == args[list_at].spec_ty()
        &&& out.vals().len() == args[list_at].spec_len()
        &&& forall|i: int|
            0 <= i < out.vals().len() ==> out.vals()[i] == ElemVal::List(
                append_row(args[list_at].vals()[i], args[elem_at].vals()[i], is_append),
            )
    }
}

/// Append one element to every row of a list column; see
/// `append_output_ok` for the three element-type regimes.
#[verifier::loop_isolation(false)]
pub fn array_append(args: &Vec<Value>) -> (r: Result<Value, ArrayError>)
    requires
        forall|i: int| 0 <= i < args@.len() ==> (#[trigger] args@[i]).wf(),
        forall|i: int|
            0 <= i < args@.len() ==> (#[trigger] args@[i]).spec_ty().spec_depth() <= usize::MAX,
        append_args_ok(args@, 0, 1) ==> args@[1].spec_len() == args@[0].spec_len(),
    ensures
        r is Ok ==> append_args_ok(args@, 0, 1),
        r matches Ok(out) ==> out.wf() && append_output_ok(args@, 0, 1, true, out),
        append_args_ok(args@, 0, 1) && !(args@[0]->List_0.values.spec_ty() is List) ==> r is Ok,
        append_args_ok(args@, 0, 1) && args@[0]->List_0.values.spec_ty() is List ==> (r is Ok
            <==> concat_args_ok(args@)),
    {
    if args.len() != 2 {
        return Err(ArrayError::Plan("array_append expects two arguments".to_owned()));
    }
    let b: &ListCol = match &args[0] {
        Value::List(b) => b,
        _ => {
            return Err(ArrayError::Internal("array_append expects a list column".to_owned()));
        },
    };
    let ct = b.values.ty();
    let et = args[1].ty();
    if !(crate::model::ty_eq(&ct, &et) || matches!(et, Ty::Null)) {
        return Err(ArrayError::Plan("array_append received incompatible types".to_owned()));
    }
    match &ct {
        Ty::List(_) => concat_internal(args),
        Ty::Null => {
            let mut margs: Vec<Value> = Vec::new();
            margs.push(value_clone(&args[1]));
            proof {
                assert(margs@[0].spec_ty() is Null);
                assert(margs@.drop_first() =~= Seq::<Value>::empty());
                assert(crate::construct::common_ty(Seq::<Value>::empty()) is Null);
                assert(crate::construct::common_ty(margs@) is Null);
            }
            make_array(&margs)
        },
        _ => Ok(general_append_and_prepend(b, &args[1], true, Ghost(args@[0]))),
    }
}

/// Prepend one element to every row of a list column; the element column
/// comes first, as `array_prepend(element, list)`.
#[verifier::loop_isolation(false)]
pub fn array_prepend(args: &Vec<Value>) -> (r: Result<Value, ArrayError>)
    requires
        forall|i: int| 0 <= i < args@.len() ==> (#[trigger] args@[i]).wf(),
        forall|i: int|
            0 <= i < args@.len() ==> (#[trigger] args@[i]).spec_ty().spec_depth() <= usize::MAX,
        append_args_ok(args@, 1, 0) ==> args@[0].spec_len() == args@[1].spec_len(),
    ensures
        r is Ok ==> append_args_ok(args@, 1, 0),
        r matches Ok(out) ==> out.wf() && append_output_ok(args@, 1, 0, false, out),
        append_args_ok(args@, 1, 0) && !(args@[1]->List_0.values.spec_ty() is List) ==> r is Ok,
        append_args_ok(args@, 1, 0) && args@[1]->List_0.values.spec_ty() is List ==> (r is Ok
            <==> concat_args_ok(args@)),
    {
    if args.len() != 2 {
        return Err(ArrayError::Plan("array_prepend expects two arguments".to_owned()));
    }
    let b: &ListCol = match &args[1] {
        Value::List(b) => b,
        _ => {
            return Err(ArrayError::Internal("array_prepend expects a list column".to_owned()));
        },
    };
    let ct = b.values.ty();
    let et = args[0].ty();
    if !(crate::model::ty_eq(&ct, &et) || matches!(et, Ty::Null)) {
        return Err(ArrayError::Plan("array_prepend received incompatible types".to_owned()));
    }
    match &ct {
        Ty::List(_) => concat_internal(args),
        Ty::Null => {
            let mut margs: Vec<Value> = Vec::new();
            margs.push(value_clone(&args[0]));
            proof {
                assert(margs@[0].spec_ty() is Null);
                assert(margs@.drop_first() =~= Seq::<Value>::empty());
                assert(crate::construct::common_ty(Seq::<Value>::empty()) is Null);
                assert(crate::construct::common_ty(margs@) is Null);
            }
            make_array(&margs)
        },
        _ => Ok(general_append_and_prepend(b, &args[0], false, Ghost(args@[1]))),
    }
}

/// The row removal produces: the row without its first `n` elements
/// equal, null-safely, to `v`.
pub open spec fn remove_rec(s: Seq<ElemVal>, v: ElemVal, n: int) -> Seq<ElemVal>
    decreases s.len(),
{
    if s.len() == 0 {
        Seq::empty()
    } else if s[0] == v && n > 0 {
        remove_rec(s.drop_first(), v, n - 1)
    } else {
        seq![s[0]] + remove_rec(s.drop_first(), v, n)
    }
}

/// Remove up to `n` occurrences of the paired element from each row; a
/// null row stays null.
#[verifier::loop_isolation(false)]
fn general_remove(list: &ListCol, element: &Value, arr_n: &Vec<i64>, lv: Ghost<Value>) -> (out:
    Value)
    requires
        lv@ == Value::List(Box::new(*list)),
        lv@.wf(),
        element.wf(),
        element.spec_len() == lv@.spec_len(),
        arr_n@.len() == lv@.spec_len(),
    ensures
        out.wf(),
        out.spec_ty() == Ty::List(Box::new(list.values.spec_ty())),
        out.vals().len() == lv@.spec_len(),
        forall|i: int|
            0 <= i < out.vals().len() ==> out.vals()[i] == (match lv@.vals()[i] {
                ElemVal::List(s) => ElemVal::List(
                    remove_rec(s, element.vals()[i], arr_n@[i] as int),
                ),
                _ => ElemVal::Null,
            }),
{
    let ghost list_vals = lv@.vals();
    let ghost elem_vals = element.vals();
    let ghost child_ty = list.values.spec_ty();
    proof {
        lemma_vals_len(lv@);
        lemma_vals_len(*element);
    }
    let child_ty_e = list.values.ty();
    let out_ty = Ty::List(Box::new(child_ty_e));
    let mut out = new_empty_value(&out_ty);
    let rc = list.row_count();
    for i in 0..rc
        invariant
            out.wf(),
            out.spec_ty() == Ty::List(Box::new(child_ty)),
            out.vals().len() == i,
            forall|k: int|
                0 <= k < i ==> out.vals()[k] == (match list_vals[k] {
                    ElemVal::List(s) => ElemVal::List(remove_rec(s, elem_vals[k], arr_n@[k] as int)),
                    _ => ElemVal::Null,
                }),
    {
        proof {
            lemma_vals_len(out);
        }
        match read_row(list, i) {
            None => {
                out = value_extend_nulls(out, 1);
            },
            Some(es) => {
                let e = value_get(element, i);
                let n = arr_n[i];
                let ghost s = list_vals[i as int]->List_0;
                let ghost goal = remove_rec(s, elem_vals[i as int], n as int);
                proof {
                    assert(elems_val(es@) =~= s);
                    assert(e.val() == elem_vals[i as int]);
                    assert(s.skip(0) =~= s);
                }
                let mut row: Vec<Elem> = Vec::new();
                let mut removed: i64 = 0;
                let m = es.len();
                proof {
                    assert(elems_val(row@) =~= Seq::<ElemVal>::empty());
                }
                for j in 0..m
                    invariant
                        0 <= removed <= j,
                        goal =~= elems_val(row@) + remove_rec(
                            s.skip(j as int),
                            elem_vals[i as int],
                            n - removed,
                        ),
                        forall|q: int|
                            0 <= q < row@.len() ==> s.contains(#[trigger] elems_val(row@)[q]),
                {
                    let ghost rv = elems_val(row@);
                    proof {
                        assert(s.skip(j as int)[0] == s[j as int]);
                        assert(s.skip(j as int).drop_first() =~= s.skip(j as int + 1));
                    }
                    if removed < n && elem_eq(&es[j], &e) {
                        removed = removed + 1;
                    } else {
                        row.push(crate::model::elem_clone(&es[j]));
                        proof {
                            assert(elems_val(row@) =~= rv.push(s[j as int]));
                            assert(rv + (seq![s[j as int]] + remove_rec(
                                s.skip(j as int + 1),
                                elem_vals[i as int],
                                n - removed,
                            )) =~= elems_val(row@) + remove_rec(
                                s.skip(j as int + 1),
                                elem_vals[i as int],
                                n - removed,
                            ));
                            assert(s.contains(s[j as int]));
                        }
                    }
                }
                proof {
                    assert(s.skip(m as int) =~= Seq::<ElemVal>::empty());
                    assert(elems_val(row@) + Seq::<ElemVal>::empty() =~= elems_val(row@));
                }
                let row_elem = Elem::List(row);
                proof {
                    assert(row_elem.val() matches ElemVal::List(v) && v =~= goal);
                    lemma_vals_fit(lv@);
                    assert(fits(list_vals[i as int], Ty::List(Box::new(child_ty))));
                    assert forall|q: int| 0 <= q < goal.len() implies fits(
                        #[trigger] goal[q],
                        child_ty,
                    ) by {
                        assert(goal.contains(goal[q]));
                        let w = choose|w: int| 0 <= w < s.len() && s[w] == goal[q];
                        assert(fits(s[w], child_ty));
                    }
                    assert(fits(row_elem.val(), Ty::List(Box::new(child_ty))));
                }
                out = value_push_elem(out, &row_elem);
            },
        }
    }
    out
}

/// Shared validation and dispatch of the remove family.
#[verifier::loop_isolation(false)]
fn array_remove_internal(args: &Vec<Value>, arr_n: Vec<i64>, nargs: usize) -> (r: Result<
    Value,
    ArrayError,
>)
    requires
        nargs >= 2,
        forall|i: int| 0 <= i < args@.len() ==> (#[trigger] args@[i]).wf(),
        args@.len() == nargs ==> (args@[0] is List ==> (arr_n@.len() == args@[0].spec_len()
            && args@[1].spec_len() == args@[0].spec_len())),
    ensures
        r is Ok <==> (args@.len() == nargs && args@[0] is List),
        r matches Ok(out) ==> {
            &&& out.wf()
            &&& out.spec_ty() == args@[0].spec_ty()
            &&& out.vals().len() == args@[0].spec_len()
            &&& forall|i: int|
                0 <= i < out.vals().len() ==> out.vals()[i] == (match args@[0].vals()[i] {
                    ElemVal::List(s) => ElemVal::List(
                        remove_rec(s, args@[1].vals()[i], arr_n@[i] as int),
                    ),
                    _ => ElemVal::Null,
                })
        },
        r matches Err(e) ==> (if args@.len() != nargs {
            e is Plan
        } else {
            e is Internal
        }),
{
    if args.len() != nargs {
        return Err(ArrayError::Plan("the remove operation got the wrong argument count".to_owned()));
    }
    let b: &ListCol = match &args[0] {
        Value::List(b) => b,
        _ => {
            return Err(ArrayError::Internal("the remove operation expects a list column".to_owned()));
        },
    };
    Ok(general_remove(b, &args[1], &arr_n, Ghost(args@[0])))
}

/// A vector holding `v` once per row of the first argument.
#[verifier::loop_isolation(false)]
fn splat_n(args: &Vec<Value>, v: i64) -> (r: Vec<i64>)
    requires
        args@.len() >= 1,
        forall|i: int| 0 <= i < args@.len() ==> (#[trigger] args@[i]).wf(),
    ensures
        r@.len() == args@[0].spec_len(),
        forall|k: int| 0 <= k < r@.len() ==> r@[k] == v,
{
    let n = args[0].len();
    let mut out: Vec<i64> = Vec::new();
    for k in 0..n
        invariant
            out@.len() == k,
            forall|m: int| 0 <= m < k ==> out@[m] == v,
    {
        out.push(v);
    }
    out
}

/// Per row, remove the first occurrence of the paired element; a null
/// row stays null.
pub fn array_remove(args: &Vec<Value>) -> (r: Result<Value, ArrayError>)
    requires
        forall|i: int| 0 <= i < args@.len() ==> (#[trigger] args@[i]).wf(),
        args@.len() == 2 ==> (args@[0] is List ==> args@[1].spec_len() == args@[0].spec_len()),
        args@.len() >= 1,
    ensures
        r is Ok <==> (args@.len() == 2 && args@[0] is List),
        r matches Ok(out) ==> {
            &&& out.wf()
            &&& out.spec_ty() == args@[0].spec_ty()
            &&& out.vals().len() == args@[0].spec_len()
            &&& forall|i: int|
                0 <= i < out.vals().len() ==> out.vals()[i] == (match args@[0].vals()[i] {
                    ElemVal::List(s) => ElemVal::List(remove_rec(s, args@[1].vals()[i], 1)),
                    _ => ElemVal::Null,
                })
        },
        r matches Err(e) ==> (if args@.len() != 2 {
            e is Plan
        } else {
            e is Internal
        }),
{
    let arr_n = splat_n(args, 1);
    array_remove_internal(args, arr_n, 2)
}

/// Per row, remove every occurrence of the paired element; a null row
/// stays null.
pub fn array_remove_all(args: &Vec<Value>) -> (r: Result<Value, ArrayError>)
    requires
        forall|i: int| 0 <= i < args@.len() ==> (#[trigger] args@[i]).wf(),
        args@.len() == 2 ==> (args@[0] is List ==> args@[1].spec_len() == args@[0].spec_len()),
        args@.len() >= 1,
    ensures
        r is Ok <==> (args@.len() == 2 && args@[0] is List),
        r matches Ok(out) ==> {
            &&& out.wf()
            &&& out.spec_ty() == args@[0].spec_ty()
            &&& out.vals().len() == args@[0].spec_len()
            &&& forall|i: int|
                0 <= i < out.vals().len() ==> out.vals()[i] == (match args@[0].vals()[i] {
                    ElemVal::List(s) => ElemVal::List(
                        remove_rec(s, args@[1].vals()[i], i64::MAX as int),
                    ),
                    _ => ElemVal::Null,
                })
        },
        r matches Err(e) ==> (if args@.len() != 2 {
            e is Plan
        } else {
            e is Internal
        }),
{
    let arr_n = splat_n(args, i64::MAX);
    array_remove_internal(args, arr_n, 2)
}

/// The per-row cap an integer column entry denotes; a null entry caps at
/// zero.
pub open spec fn count_of(e: ElemVal) -> int {
    match e {
        ElemVal::Int(x) => x,
        _ => 0,
    }
}

/// Read the per-row caps of the counted remove and replace operations.
#[verifier::loop_isolation(false)]
fn read_counts(col: &Value, rc: usize) -> (r: Vec<i64>)
    requires
        col.wf(),
        col is Int64,
        col.spec_len() == rc,
    ensures
        r@.len() == rc,
        forall|k: int| 0 <= k < rc ==> r@[k] as int == count_of(col.vals()[k]),
{
    let ghost cv = col.vals();
    proof {
        lemma_vals_len(*col);
    }
    let d: &Vec<Option<i64>> = match col {
        Value::Int64(d) => d,
        _ => {
            proof {
                assert(false);
            }
            vstd::pervasive::unreached()
        },
    };
    let mut out: Vec<i64> = Vec::new();
    for k in 0..rc
        invariant
            out@.len() == k,
            forall|m: int| 0 <= m < k ==> out@[m] as int == count_of(cv[m]),
    {
        match d[k] {
            Some(x) => out.push(x),
            None => out.push(0),
        }
    }
    out
}

/// Per row, remove the first `n` occurrences of the paired element,
/// with `n` taken from the third column; a null row stays null.
pub fn array_remove_n(args: &Vec<Value>) -> (r: Result<Value, ArrayError>)
    requires
        forall|i: int| 0 <= i < args@.len() ==> (#[trigger] args@[i]).wf(),
        args@.len() == 3 ==> ((args@[0] is List && args@[2] is Int64) ==> (args@[1].spec_len()
            == args@[0].spec_len() && args@[2].spec_len() == args@[0].spec_len())),
        args@.len() >= 1,
    ensures
        r is Ok <==> (args@.len() == 3 && args@[0] is List && args@[2] is Int64),
        r matches Ok(out) ==> {
            &&& out.wf()
            &&& out.spec_ty() == args@[0].spec_ty()
            &&& out.vals().len() == args@[0].spec_len()
            &&& forall|i: int|
                0 <= i < out.vals().len() ==> out.vals()[i] == (match args@[0].vals()[i] {
                    ElemVal::List(s) => ElemVal::List(
                        remove_rec(s, args@[1].vals()[i], count_of(args@[2].vals()[i])),
                    ),
                    _ => ElemVal::Null,
                })
        },
        r matches Err(e) ==> (if args@.len() != 3 {
            e is Plan
        } else {
            e is Internal
        }),
{
    if args.len() != 3 {
        return Err(ArrayError::Plan("array_remove_n expects three arguments".to_owned()));
    }
    if !matches!(&args[2], Value::Int64(_)) {
        return Err(ArrayError::Internal("array_remove_n expects an integer count".to_owned()));
    }
    let b: &ListCol = match &args[0] {
        Value::List(b) => b,
        _ => {
            return Err(ArrayError::Internal("array_remove_n expects a list column".to_owned()));
        },
    };
    proof {
        lemma_vals_len(args@[0]);
    }
    let rc = b.row_count();
    let arr_n = read_counts(&args[2], rc);
    Ok(general_remove(b, &args[1], &arr_n, Ghost(args@[0])))
}

/// The row replacement produces: the row with its first `n` elements
/// equal, null-safely, to `from` replaced by `to`.
pub open spec fn replace_rec(s: Seq<ElemVal>, from: ElemVal, to: ElemVal, n: int) -> Seq<ElemVal>
    decreases s.len(),
{
    if s.len() == 0 {
        Seq::empty()
    } else if s[0] == from && n > 0 {
        seq![to] + replace_rec(s.drop_first(), from, to, n - 1)
    } else {
        seq![s[0]] + replace_rec(s.drop_first(), from, to, n)
    }
}

/// Replace up to `n` occurrences of one element by another, per row; a
/// null row stays null, and matches past the cap are copied unchanged.
#[verifier::loop_isolation(false)]
fn general_replace(
    list: &ListCol,
    from_col: &Value,
    to_col: &Value,
    arr_n: &Vec<i64>,
    lv: Ghost<Value>,
) -> (out: Value)
    requires
        lv@ == Value::List(Box::new(*list)),
        lv@.wf(),
        from_col.wf(),
        to_col.wf(),
        from_col.spec_len() == lv@.spec_len(),
        to_col.spec_len() == lv@.spec_len(),
        arr_n@.len() == lv@.spec_len(),
        to_col.spec_ty() == list.values.spec_ty() || to_col.spec_ty() is Null,
    ensures
        out.wf(),
        out.spec_ty() == Ty::List(Box::new(list.values.spec_ty())),
        out.vals().len() == lv@.spec_len(),
        forall|i: int|
            0 <= i < out.vals().len() ==> out.vals()[i] == (match lv@.vals()[i] {
                ElemVal::List(s) => ElemVal::List(
                    replace_rec(s, from_col.vals()[i], to_col.vals()[i], arr_n@[i] as int),
                ),
                _ => ElemVal::Null,
            }),
{
    let ghost list_vals = lv@.vals();
    let ghost from_vals = from_col.vals();
    let ghost to_vals = to_col.vals();
    let ghost child_ty = list.values.spec_ty();
    proof {
        lemma_vals_len(lv@);
        lemma_vals_len(*from_col);
        lemma_vals_len(*to_col);
    }
    let child_ty_e = list.values.ty();
    let out_ty = Ty::List(Box::new(child_ty_e));
    let mut out = new_empty_value(&out_ty);
    let rc = list.row_count();
    for i in 0..rc
        invariant
            out.wf(),
            out.spec_ty() == Ty::List(Box::new(child_ty)),
            out.vals().len() == i,
            forall|k: int|
                0 <= k < i ==> out.vals()[k] == (match list_vals[k] {
                    ElemVal::List(s) => ElemVal::List(
                        replace_rec(s, from_vals[k], to_vals[k], arr_n@[k] as int),
                    ),
                    _ => ElemVal::Null,
                }),
    {
        proof {
            lemma_vals_len(out);
        }
        match read_row(list, i) {
            None => {
                out = value_extend_nulls(out, 1);
            },
            Some(es) => {
                let from_e = value_get(from_col, i);
                let to_e = value_get(to_col, i);
                let n = arr_n[i];
                let ghost s = list_vals[i as int]->List_0;
                let ghost goal = replace_rec(s, from_vals[i as int], to_vals[i as int], n as int);
                proof {
                    assert(elems_val(es@) =~= s);
                    assert(from_e.val() == from_vals[i as int]);
                    assert(to_e.val() == to_vals[i as int]);
                    assert(s.skip(0) =~= s);
                }
                let mut row: Vec<Elem> = Vec::new();
                let mut replaced: i64 = 0;
                let m = es.len();
                proof {
                    assert(elems_val(row@) =~= Seq::<ElemVal>::empty());
                }
                for j in 0..m
                    invariant
                        0 <= replaced <= j,
                        goal =~= elems_val(row@) + replace_rec(
                            s.skip(j as int),
                            from_vals[i as int],
                            to_vals[i as int],
                            n - replaced,
                        ),
                        forall|q: int|
                            0 <= q < row@.len() ==> (s.contains(#[trigger] elems_val(row@)[q])
                                || elems_val(row@)[q] == to_vals[i as int]),
                {
                    let ghost rv = elems_val(row@);
                    proof {
                        assert(s.skip(j as int)[0] == s[j as int]);
                        assert(s.skip(j as int).drop_first() =~= s.skip(j as int + 1));
                    }
                    if replaced < n && elem_eq(&es[j], &from_e) {
                        row.push(crate::model::elem_clone(&to_e));
                        replaced = replaced + 1;
                        proof {
                            assert(elems_val(row@) =~= rv.push(to_vals[i as int]));
                            assert(rv + (seq![to_vals[i as int]] + replace_rec(
                                s.skip(j as int + 1),
                                from_vals[i as int],
                                to_vals[i as int],
                                n - replaced,
                            )) =~= elems_val(row@) + replace_rec(
                                s.skip(j as int + 1),
                                from_vals[i as int],
                                to_vals[i as int],
                                n - replaced,
                            ));
                        }
                    } else {
                        row.push(crate::model::elem_clone(&es[j]));
                        proof {
                            assert(elems_val(row@) =~= rv.push(s[j as int]));
                            assert(rv + (seq![s[j as int]] + replace_rec(
                                s.skip(j as int + 1),
                                from_vals[i as int],
                                to_vals[i as int],
                                n - replaced,
                            )) =~= elems_val(row@) + replace_rec(
                                s.skip(j as int + 1),
                                from_vals[i as int],
                                to_vals[i as int],
                                n - replaced,
                            ));
                            assert(s.contains(s[j as int]));
                        }
                    }
                }
                proof {
                    assert(s.skip(m as int) =~= Seq::<ElemVal>::empty());
                    assert(elems_val(row@) + Seq::<ElemVal>::empty() =~= elems_val(row@));
                }
                let row_elem = Elem::List(row);
                proof {
                    assert(row_elem.val() matches ElemVal::List(v) && v =~= goal);
                    lemma_vals_fit(lv@);
                    lemma_vals_fit(*to_col);
                    assert(fits(list_vals[i as int], Ty::List(Box::new(child_ty))));
                    assert(fits(to_vals[i as int], to_col.spec_ty()));
                    assert forall|q: int| 0 <= q < goal.len() implies fits(
                        #[trigger] goal[q],
                        child_ty,
                    ) by {
                        assert(goal.contains(goal[q]));
                        if to_col.spec_ty() is Null {
                            assert(to_vals[i as int] is Null);
                        }
                        if goal[q] != to_vals[i as int] {
                            let w = choose|w: int| 0 <= w < s.len() && s[w] == goal[q];
                            assert(fits(s[w], child_ty));
                        }
                    }
                    assert(fits(row_elem.val(), Ty::List(Box::new(child_ty))));
                }
                out = value_push_elem(out, &row_elem);
            },
        }
    }
    out
}

/// Argument shape of the replace family: a list column, a from column,
/// a to column whose type is the element type (or untyped-null), and for
/// the counted variant an integer cap column.
pub open spec fn replace_args_ok(args: Seq<Value>, nargs: int) -> bool {
    &&& args.len() == nargs
    &&& args[0] is List
    &&& (args[0]->List_0.values.spec_ty() == args[2].spec_ty() || args[2].spec_ty() is Null)
    &&& (nargs == 4 ==> args[3] is Int64)
}

/// Shared validation and dispatch of the replace family.
#[verifier::loop_isolation(false)]
fn replace_dispatch(args: &Vec<Value>, arr_n: Vec<i64>, nargs: usize) -> (r: Result<
    Value,
    ArrayError,
>)
    requires
        nargs >= 3,
        forall|i: int| 0 <= i < args@.len() ==> (#[trigger] args@[i]).wf(),
        replace_args_ok(args@, nargs as int) ==> (args@[1].spec_len() == args@[0].spec_len()
            && args@[2].spec_len() == args@[0].spec_len() && arr_n@.len() == args@[0].spec_len()),
    ensures
        r is Ok <==> replace_args_ok(args@, nargs as int),
        r matches Ok(out) ==> {
            &&& out.wf()
            &&& out.spec_ty() == args@[0].spec_ty()
            &&& out.vals().len() == args@[0].spec_len()
            &&& forall|i: int|
                0 <= i < out.vals().len() ==> out.vals()[i] == (match args@[0].vals()[i] {
                    ElemVal::List(s) => ElemVal::List(
                        replace_rec(s, args@[1].vals()[i], args@[2].vals()[i], arr_n@[i] as int),
                    ),
                    _ => ElemVal::Null,
                })
        },
        r matches Err(e) ==> (if args@.len() != nargs {
            e is Plan
        } else if !(args@[0] is List) {
            e is Internal
        } else {
            e is Plan
        }),
{
    if args.len() != nargs {
        return Err(ArrayError::Plan("the replace operation got the wrong argument count".to_owned()));
    }
    let b: &ListCol = match &args[0] {
        Value::List(b) => b,
        _ => {
            return Err(ArrayError::Internal("the replace operation expects a list column".to_owned()));
        },
    };
    let ct = b.values.ty();
    let tt = args[2].ty();
    if !(crate::model::ty_eq(&ct, &tt) || matches!(tt, Ty::Null)) {
        return Err(ArrayError::Plan("the replace operation received incompatible types".to_owned()));
    }
    if nargs == 4 && !matches!(&args[3], Value::Int64(_)) {
        return Err(ArrayError::Plan("the replace operation expects an integer count".to_owned()));
    }
    Ok(general_replace(b, &args[1], &args[2], &arr_n, Ghost(args@[0])))
}

/// Per row, replace the first occurrence of one element by another.
pub fn array_replace(args: &Vec<Value>) -> (r: Result<Value, ArrayError>)
    requires
        forall|i: int| 0 <= i < args@.len() ==> (#[trigger] args@[i]).wf(),
        args@.len() >= 1,
        replace_args_ok(args@, 3) ==> (args@[1].spec_len() == args@[0].spec_len()
            && args@[2].spec_len() == args@[0].spec_len()),
    ensures
        r is Ok <==> replace_args_ok(args@, 3),
        r matches Ok(out) ==> {
            &&& out.wf()
            &&& out.spec_ty() == args@[0].spec_ty()
            &&& out.vals().len() == args@[0].spec_len()
            &&& forall|i: int|
                0 <= i < out.vals().len() ==> out.vals()[i] == (match args@[0].vals()[i] {
                    ElemVal::List(s) => ElemVal::List(
                        replace_rec(s, args@[1].vals()[i], args@[2].vals()[i], 1),
                    ),
                    _ => ElemVal::Null,
                })
        },
{
    let arr_n = splat_n(args, 1);
    replace_dispatch(args, arr_n, 3)
}

/// Per row, replace the first `n` occurrences, with `n` taken from the
/// fourth column.
pub fn array_replace_n(args: &Vec<Value>) -> (r: Result<Value, ArrayError>)
    requires
        forall|i: int| 0 <= i < args@.len() ==> (#[trigger] args@[i]).wf(),
        args@.len() >= 1,
        args@.len() == 4 ==> ((args@[0] is List && args@[3] is Int64) ==> (args@[1].spec_len()
            == args@[0].spec_len() && args@[2].spec_len() == args@[0].spec_len()
            && args@[3].spec_len() == args@[0].spec_len())),
    ensures
        r is Ok <==> replace_args_ok(args@, 4),
        r matches Ok(out) ==> {
            &&& out.wf()
            &&& out.spec_ty() == args@[0].spec_ty()
            &&& out.vals().len() == args@[0].spec_len()
            &&& forall|i: int|
                0 <= i < out.vals().len() ==> out.vals()[i] == (match args@[0].vals()[i] {
                    ElemVal::List(s) => ElemVal::List(
                        replace_rec(
                            s,
                            args@[1].vals()[i],
                            args@[2].vals()[i],
                            count_of(args@[3].vals()[i]),
                        ),
                    ),
                    _ => ElemVal::Null,
                })
        },
{
    if args.len() != 4 {
        return Err(ArrayError::Plan("array_replace_n expects four arguments".to_owned()));
    }
    if !matches!(&args[3], Value::Int64(_)) {
        let arr_n = splat_n(args, 0);
        return replace_dispatch(args, arr_n, 4);
    }
    proof {
        lemma_vals_len(args@[0]);
    }
    let rc = args[0].len();
    proof {
        lemma_vals_len(args@[3]);
    }
    if matches!(&args[0], Value::List(_)) {
        let arr_n = read_counts(&args[3], rc);
        replace_dispatch(args, arr_n, 4)
    } else {
        let arr_n = splat_n(args, 0);
        replace_dispatch(args, arr_n, 4)
    }
}

/// Per row, replace every occurrence of one element by another.
pub fn array_replace_all(args: &Vec<Value>) -> (r: Result<Value, ArrayError>)
    requires
        forall|i: int| 0 <= i < args@.len() ==> (#[trigger] args@[i]).wf(),
        args@.len() >= 1,
        replace_args_ok(args@, 3) ==> (args@[1].spec_len() == args@[0].spec_len()
            && args@[2].spec_len() == args@[0].spec_len()),
    ensures
        r is Ok <==> replace_args_ok(args@, 3),
        r matches Ok(out) ==> {
            &&& out.wf()
            &&& out.spec_ty() == args@[0].spec_ty()
            &&& out.vals().len() == args@[0].spec_len()
            &&& forall|i: int|
                0 <= i < out.vals().len() ==> out.vals()[i] == (match args@[0].vals()[i] {
                    ElemVal::List(s) => ElemVal::List(
                        replace_rec(s, args@[1].vals()[i], args@[2].vals()[i], i64::MAX as int),
                    ),
                    _ => ElemVal::Null,
                })
        },
{
    let arr_n = splat_n(args, i64::MAX);
    replace_dispatch(args, arr_n, 3)
}

/// The row `array_repeat` produces: the element, `c` times; a negative
/// count gives an empty row.
pub open spec fn repeat_row(v: ElemVal, c: int) -> Seq<ElemVal> {
    Seq::new(
        if c >= 0 {
            c as nat
        } else {
            0
        },
        |k: int| v,
    )
}

/// Per row, a fresh list holding the paired element `count` times.  The
/// element may itself be a list row, which nests the output one level
/// deeper.  A null element repeats as nulls; a null count reads as zero.
#[verifier::loop_isolation(false)]
pub fn array_repeat(args: &Vec<Value>) -> (r: Result<Value, ArrayError>)
    requires
        forall|i: int| 0 <= i < args@.len() ==> (#[trigger] args@[i]).wf(),
        args@.len() == 2 ==> (args@[1] matches Value::Int64(d) ==> (d@.len()
            == args@[0].spec_len() && (forall|k: int|
            0 <= k < d@.len() ==> ((#[trigger] d@[k]) matches Some(x) ==> x <= usize::MAX)))),
    ensures
        r is Ok <==> (args@.len() == 2 && args@[1] is Int64),
        r matches Ok(out) ==> {
            &&& out.wf()
            &&& out.spec_ty() == Ty::List(Box::new(args@[0].spec_ty()))
            &&& out.vals().len() == args@[0].spec_len()
            &&& forall|i: int|
                0 <= i < out.vals().len() ==> out.vals()[i] == ElemVal::List(
                    repeat_row(args@[0].vals()[i], count_of(args@[1].vals()[i])),
                )
        },
        r matches Err(e) ==> (if args@.len() != 2 {
            e is Plan
        } else {
            e is Internal
        }),
{
    if args.len() != 2 {
        return Err(ArrayError::Plan("array_repeat expects two arguments".to_owned()));
    }
    let counts: &Vec<Option<i64>> = match &args[1] {
        Value::Int64(d) => d,
        _ => {
            return Err(ArrayError::Internal("array_repeat expects an integer count".to_owned()));
        },
    };
    let ghost elem_vals = args@[0].vals();
    let ghost count_vals = args@[1].vals();
    let ghost ety = args@[0].spec_ty();
    proof {
        lemma_vals_len(args@[0]);
        lemma_vals_len(args@[1]);
    }
    let et = args[0].ty();
    let out_ty = Ty::List(Box::new(et));
    let mut out = new_empty_value(&out_ty);
    let rc = args[0].len();
    for i in 0..rc
        invariant
            out.wf(),
            out.spec_ty() == Ty::List(Box::new(ety)),
            out.vals().len() == i,
            forall|k: int|
                0 <= k < i ==> out.vals()[k] == ElemVal::List(
                    repeat_row(elem_vals[k], count_of(count_vals[k])),
                ),
    {
        proof {
            lemma_vals_len(out);
        }
        let e = value_get(&args[0], i);
        let c: i64 = match counts[i] {
            Some(x) => x,
            None => 0,
        };
        proof {
            assert(count_of(count_vals[i as int]) == c as int);
            assert(e.val() == elem_vals[i as int]);
        }
        let reps: usize = if c >= 0 {
            c as usize
        } else {
            0
        };
        let mut row: Vec<Elem> = Vec::new();
        for k in 0..reps
            invariant
                row@.len() == k,
                forall|m: int| 0 <= m < k ==> (#[trigger] row@[m]).val() == elem_vals[i as int],
        {
            row.push(crate::model::elem_clone(&e));
        }
        let row_elem = Elem::List(row);
        proof {
            let goal = repeat_row(elem_vals[i as int], c as int);
            assert(row_elem.val() matches ElemVal::List(s) && s =~= goal);
            lemma_vals_fit(args@[0]);
            assert(fits(elem_vals[i as int], ety));
            assert forall|m: int| 0 <= m < goal.len() implies fits(#[trigger] goal[m], ety) by {
                assert(goal[m] == elem_vals[i as int]);
            }
            assert(fits(row_elem.val(), Ty::List(Box::new(ety))));
        }
        out = value_push_elem(out, &row_elem);
    }
    Ok(out)
}

/// The per-row sort order: `desc` flips the canonical order between
/// data values; `nf` puts nulls before every data value, or after.
pub open spec fn dir_le(desc: bool, nf: bool, a: ElemVal, b: ElemVal) -> bool {
    if a is Null && b is Null {
        true
    } else if a is Null {
        nf
    } else if b is Null {
        !nf
    } else if desc {
        !(cmp_val(a, b) is Lt)
    } else {
        !(cmp_val(a, b) is Gt)
    }
}

/// The sort order is total.
pub proof fn lemma_dir_le_total(desc: bool, nf: bool, a: ElemVal, b: ElemVal)
    ensures
        dir_le(desc, nf, a, b) || dir_le(desc, nf, b, a),
{
    crate::order::lemma_cmp_val_antisym(a, b);
}

/// The sort order is transitive.
pub proof fn lemma_dir_le_trans(desc: bool, nf: bool, a: ElemVal, b: ElemVal, c: ElemVal)
    requires
        dir_le(desc, nf, a, b),
        dir_le(desc, nf, b, c),
    ensures
        dir_le(desc, nf, a, c),
{
    if !(a is Null) && !(b is Null) && !(c is Null) {
        crate::order::lemma_cmp_val_eq(a, b);
        crate::order::lemma_cmp_val_eq(b, c);
        crate::order::lemma_cmp_val_eq(a, c);
        crate::order::lemma_cmp_val_antisym(a, b);
        crate::order::lemma_cmp_val_antisym(b, c);
        crate::order::lemma_cmp_val_antisym(a, c);
        if desc {
            if cmp_val(b, a) is Lt && cmp_val(c, b) is Lt {
                crate::order::lemma_cmp_val_trans(c, b, a);
            }
        } else {
            if cmp_val(a, b) is Lt && cmp_val(b, c) is Lt {
                crate::order::lemma_cmp_val_trans(a, b, c);
            }
        }
    }
}

/// A row sorted in the requested direction and null placement.
pub open spec fn sorted_dir(s: Seq<ElemVal>, desc: bool, nf: bool) -> bool {
    forall|i: int, j: int| 0 <= i < j < s.len() ==> dir_le(desc, nf, s[i], s[j])
}

/// Compare two owned elements in the requested sort order.
fn elem_dir_le(a: &Elem, b: &Elem, desc: bool, nf: bool) -> (r: bool)
    ensures
        r == dir_le(desc, nf, a.val(), b.val()),
{
    let an = matches!(a, Elem::Null);
    let bn = matches!(b, Elem::Null);
    proof {
        assert(an == (a.val() is Null)) by {
            match a {
                Elem::Null => {},
                Elem::Int(_) => {},
                Elem::Bool(_) => {},
                Elem::Str(_) => {},
                Elem::List(_) => {},
            }
        }
        assert(bn == (b.val() is Null)) by {
            match b {
                Elem::Null => {},
                Elem::Int(_) => {},
                Elem::Bool(_) => {},
                Elem::Str(_) => {},
                Elem::List(_) => {},
            }
        }
    }
    if an && bn {
        true
    } else if an {
        nf
    } else if bn {
        !nf
    } else {
        let c = elem_cmp(a, b);
        if desc {
            !matches!(c, Ord3::Lt)
        } else {
            !matches!(c, Ord3::Gt)
        }
    }
}

/// Insert an element into a row sorted in the requested order, keeping
/// it sorted; equal elements insert after their equals.
#[verifier::loop_isolation(false)]
fn insert_dir(acc: Vec<Elem>, e: Elem, desc: bool, nf: bool) -> (r: Vec<Elem>)
    requires
        sorted_dir(elems_val(acc@), desc, nf),
    ensures
        sorted_dir(elems_val(r@), desc, nf),
        elems_val(r@).to_multiset() == elems_val(acc@).to_multiset().insert(e.val()),
{
    broadcast use vstd::seq_lib::group_to_multiset_ensures;

    let ghost av = elems_val(acc@);
    let n = acc.len();
    let mut j: usize = 0;
    while j < n
        invariant
            j <= n,
            forall|k: int| 0 <= k < j ==> dir_le(desc, nf, av[k], e.val()),
        decreases n - j,
    {
        if !elem_dir_le(&acc[j], &e, desc, nf) {
            break ;
        }
        j = j + 1;
    }
    proof {
        if j < n {
            assert(!dir_le(desc, nf, av[j as int], e.val()));
            lemma_dir_le_total(desc, nf, av[j as int], e.val());
        }
    }
    let mut out = acc;
    out.insert(j, e);
    proof {
        let ov = elems_val(out@);
        assert(ov.len() == av.len() + 1);
        assert(forall|k: int| 0 <= k < j ==> ov[k] == av[k]);
        assert(ov[j as int] == e.val());
        assert(forall|k: int| j < k < ov.len() ==> ov[k] == av[k - 1]);
        assert forall|x: int, y: int| 0 <= x < y < ov.len() implies dir_le(
            desc,
            nf,
            ov[x],
            ov[y],
        ) by {
            if y < j {
            } else if x < j && y == j {
            } else if x < j && y > j {
                if j < n {
                    assert(dir_le(desc, nf, av[x], e.val()));
                    assert(dir_le(desc, nf, e.val(), av[j as int]));
                    if y - 1 > j {
                        assert(dir_le(desc, nf, av[j as int], av[y - 1]));
                        lemma_dir_le_trans(desc, nf, e.val(), av[j as int], av[y - 1]);
                    }
                    lemma_dir_le_trans(desc, nf, av[x], e.val(), av[y - 1]);
                }
            } else if x == j {
                assert(dir_le(desc, nf, e.val(), av[j as int]));
                if y - 1 > j {
                    assert(dir_le(desc, nf, av[j as int], av[y - 1]));
                    lemma_dir_le_trans(desc, nf, e.val(), av[j as int], av[y - 1]);
                }
            } else {
            }
        }
        // the multiset effect of inserting mid-sequence
        assert(out@.len() == acc@.len() + 1);
        assert(ov =~= av.insert(j as int, e.val()));
        assert(av.insert(j as int, e.val()).to_multiset() =~= av.to_multiset().insert(e.val()));
    }
    out
}

/// Sort one row's elements in the requested order.
#[verifier::loop_isolation(false)]
fn sort_one_row(es: &Vec<Elem>, desc: bool, nf: bool) -> (r: Vec<Elem>)
    ensures
        sorted_dir(elems_val(r@), desc, nf),
        elems_val(r@).to_multiset() == elems_val(es@).to_multiset(),
{
    broadcast use vstd::seq_lib::group_to_multiset_ensures;

    let ghost sv = elems_val(es@);
    let mut acc: Vec<Elem> = Vec::new();
    let n = es.len();
    proof {
        assert(elems_val(acc@) =~= Seq::<ElemVal>::empty());
        assert(sv.subrange(0, 0) =~= Seq::<ElemVal>::empty());
        assert(Seq::<ElemVal>::empty().to_multiset() =~= sv.subrange(0, 0).to_multiset());
    }
    for j in 0..n
        invariant
            sorted_dir(elems_val(acc@), desc, nf),
            elems_val(acc@).to_multiset() == sv.subrange(0, j as int).to_multiset(),
    {
        let e = crate::model::elem_clone(&es[j]);
        proof {
            assert(e.val() == sv[j as int]);
            assert(sv.subrange(0, j as int + 1) =~= sv.subrange(0, j as int).push(sv[j as int]));
        }
        acc = insert_dir(acc, e, desc, nf);
    }
    proof {
        assert(sv.subrange(0, n as int) =~= sv);
    }
    acc
}

/// Whether two text values are equal up to ASCII letter case.
pub open spec fn ascii_eq_char(x: char, y: char) -> bool {
    ||| x as u32 == y as u32
    ||| (97 <= x as u32 <= 122 && x as u32 - 32 == y as u32)
    ||| (97 <= y as u32 <= 122 && y as u32 - 32 == x as u32)
}

/// Case-insensitive (ASCII) equality of two character sequences.
pub open spec fn eq_icase(a: Seq<char>, b: Seq<char>) -> bool {
    a.len() == b.len() && forall|i: int| 0 <= i < a.len() ==> ascii_eq_char(a[i], b[i])
}

/// Compare two strings, ignoring ASCII letter case.
#[verifier::loop_isolation(false)]
pub fn str_eq_icase(s: &str, t: &str) -> (r: bool)
    ensures
        r == eq_icase(s@, t@),
{
    let sl = s.unicode_len();
    let tl = t.unicode_len();
    if sl != tl {
        return false;
    }
    for i in 0..sl
        invariant
            forall|k: int| 0 <= k < i ==> ascii_eq_char(s@[k], t@[k]),
    {
        let cx = s.get_char(i);
        let cy = t.get_char(i);
        let xu = cx as u32;
        let yu = cy as u32;
        let ok = xu == yu || (97 <= xu && xu <= 122 && xu - 32 == yu) || (97 <= yu && yu <= 122
            && yu - 32 == xu);
        if !ok {
            return false;
        }
    }
    true
}

/// The first entry of a text modifier column; anything else reads as
/// empty text, which matches no modifier.
pub open spec fn modifier_at(v: Value) -> Seq<char> {
    match v.vals()[0] {
        ElemVal::Str(s) => s,
        _ => Seq::empty(),
    }
}

/// Read the first entry of a text modifier column.
fn read_modifier<'a>(v: &'a Value) -> (r: Option<&'a String>)
    requires
        v.wf(),
        v.spec_len() >= 1,
    ensures
        match r {
            Some(s) => v is Utf8 && modifier_at(*v) == s@,
            None => !(v is Utf8) || modifier_at(*v) == Seq::<char>::empty(),
        },
{
    proof {
        lemma_vals_len(*v);
    }
    match v {
        Value::Utf8(d) => match &d[0] {
            Some(s) => Some(s),
            None => None,
        },
        _ => None,
    }
}

/// The argument shape `array_sort` accepts: a list column, and one or
/// two text modifiers — a sort direction (`ASC` or `DESC`) and a null
/// placement (`NULLS FIRST` or `NULLS LAST`), case-insensitively.
pub open spec fn sort_args_ok(args: Seq<Value>) -> bool {
    &&& 1 <= args.len() <= 3
    &&& args[0] is List
    &&& (args.len() >= 2 ==> (eq_icase(modifier_at(args[1]), "DESC"@) || eq_icase(
        modifier_at(args[1]),
        "ASC"@,
    )))
    &&& (args.len() == 3 ==> (eq_icase(modifier_at(args[2]), "NULLS FIRST"@) || eq_icase(
        modifier_at(args[2]),
        "NULLS LAST"@,
    )))
}

/// The direction `array_sort` works in: descending iff the second
/// argument says `DESC`.
pub open spec fn sort_desc(args: Seq<Value>) -> bool {
    args.len() >= 2 && eq_icase(modifier_at(args[1]), "DESC"@)
}

/// The null placement `array_sort` works with: nulls first unless the
/// third argument says `NULLS LAST`.
pub open spec fn sort_nulls_first(args: Seq<Value>) -> bool {
    !(args.len() == 3 && eq_icase(modifier_at(args[2]), "NULLS LAST"@))
}

/// Per row, the row's elements sorted in the requested direction with
/// the requested null placement; a null row stays null.  A bad modifier
/// is a planning error.
#[verifier::loop_isolation(false)]
pub fn array_sort(args: &Vec<Value>) -> (r: Result<Value, ArrayError>)
    requires
        forall|i: int| 0 <= i < args@.len() ==> (#[trigger] args@[i]).wf(),
        forall|i: int| 1 <= i < args@.len() ==> (#[trigger] args@[i]).spec_len() >= 1,
        args@.len() >= 1,
    ensures
        r is Ok <==> sort_args_ok(args@),
        r matches Ok(out) ==> {
            &&& out.wf()
            &&& out.spec_ty() == args@[0].spec_ty()
            &&& out.vals().len() == args@[0].spec_len()
            &&& forall|i: int|
                0 <= i < out.vals().len() ==> (match args@[0].vals()[i] {
                    ElemVal::List(s) => (#[trigger] out.vals()[i]) matches ElemVal::List(t)
                        && sorted_dir(t, sort_desc(args@), sort_nulls_first(args@))
                        && t.to_multiset() == s.to_multiset(),
                    _ => out.vals()[i] is Null,
                })
        },
        r matches Err(e) ==> (if !(1 <= args@.len() <= 3) {
            e is Internal
        } else if !(args@[0] is List) {
            e is Internal
        } else {
            e is Plan
        }),
{
    if !(args.len() >= 1 && args.len() <= 3) {
        return Err(ArrayError::Internal("array_sort expects one to three arguments".to_owned()));
    }
    let b: &ListCol = match &args[0] {
        Value::List(b) => b,
        _ => {
            return Err(ArrayError::Internal("array_sort expects a list column".to_owned()));
        },
    };
    let mut desc = false;
    let mut nf = true;
    if args.len() >= 2 {
        let m = read_modifier(&args[1]);
        let good = match m {
            Some(s) => {
                if str_eq_icase(s.as_str(), "DESC") {
                    desc = true;
                    true
                } else if str_eq_icase(s.as_str(), "ASC") {
                    desc = false;
                    true
                } else {
                    false
                }
            },
            None => false,
        };
        if !good {
            proof {
                if eq_icase(modifier_at(args@[1]), "DESC"@) || eq_icase(
                    modifier_at(args@[1]),
                    "ASC"@,
                ) {
                    reveal_strlit("DESC");
                    reveal_strlit("ASC");
                    assert(false);
                }
            }
            return Err(ArrayError::Plan("array_sort expects DESC or ASC".to_owned()));
        }
    }
    if args.len() == 3 {
        let m = read_modifier(&args[2]);
        let good = match m {
            Some(s) => {
                if str_eq_icase(s.as_str(), "NULLS FIRST") {
                    nf = true;
                    true
                } else if str_eq_icase(s.as_str(), "NULLS LAST") {
                    nf = false;
                    true
                } else {
                    false
                }
            },
            None => false,
        };
        if !good {
            proof {
                if eq_icase(modifier_at(args@[2]), "NULLS FIRST"@) || eq_icase(
                    modifier_at(args@[2]),
                    "NULLS LAST"@,
                ) {
                    reveal_strlit("NULLS FIRST");
                    reveal_strlit("NULLS LAST");
                    assert(false);
                }
            }
            return Err(ArrayError::Plan("array_sort expects NULLS FIRST or NULLS LAST".to_owned()));
        }
    }
    proof {
        assert(desc == sort_desc(args@)) by {
            if args@.len() >= 2 {
                reveal_strlit("DESC");
                reveal_strlit("ASC");
            }
        }
        assert(nf == sort_nulls_first(args@)) by {
            if args@.len() == 3 {
                reveal_strlit("NULLS FIRST");
                reveal_strlit("NULLS LAST");
            }
        }
    }
    let ghost list_vals = args@[0].vals();
    let ghost child_ty = b.values.spec_ty();
    proof {
        lemma_vals_len(args@[0]);
    }
    let child_ty_e = b.values.ty();
    let out_ty = Ty::List(Box::new(child_ty_e));
    let mut out = new_empty_value(&out_ty);
    let rc = b.row_count();
    for i in 0..rc
        invariant
            out.wf(),
            out.spec_ty() == Ty::List(Box::new(child_ty)),
            out.vals().len() == i,
            forall|k: int|
                0 <= k < i ==> (match list_vals[k] {
                    ElemVal::List(s) => (#[trigger] out.vals()[k]) matches ElemVal::List(t)
                        && sorted_dir(t, desc, nf) && t.to_multiset() == s.to_multiset(),
                    _ => out.vals()[k] is Null,
                }),
    {
        broadcast use vstd::seq_lib::group_to_multiset_ensures;

        proof {
            lemma_vals_len(out);
        }
        match read_row(b, i) {
            None => {
                out = value_extend_nulls(out, 1);
            },
            Some(es) => {
                let sorted = sort_one_row(&es, desc, nf);
                let ghost s = list_vals[i as int]->List_0;
                let ghost tv = elems_val(sorted@);
                proof {
                    assert(elems_val(es@) =~= s);
                }
                let row_elem = Elem::List(sorted);
                proof {
                    assert(row_elem.val() matches ElemVal::List(t) && t =~= tv);
                    lemma_vals_fit(args@[0]);
                    assert(fits(list_vals[i as int], Ty::List(Box::new(child_ty))));
                    assert forall|q: int| 0 <= q < tv.len() implies fits(
                        #[trigger] tv[q],
                        child_ty,
                    ) by {
                        assert(tv.contains(tv[q]));
                        assert(tv.to_multiset().count(tv[q]) > 0);
                        assert(s.to_multiset().count(tv[q]) > 0);
                        assert(s.contains(tv[q]));
                        let w = choose|w: int| 0 <= w < s.len() && s[w] == tv[q];
                        assert(fits(s[w], child_ty));
                    }
                    assert(fits(row_elem.val(), Ty::List(Box::new(child_ty))));
                }
                out = value_push_elem(out, &row_elem);
            },
        }
    }
    Ok(out)
}

} // verus!
