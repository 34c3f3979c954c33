//! Construction: building a list column out of element columns, aligning
//! nesting depths, and row-wise concatenation.

use vstd::prelude::*;

use crate::arena::{fits, lemma_vals_fit, new_empty_value, value_extend_nulls, value_push_elem,
    value_clone};
use crate::error::ArrayError;
use crate::model::{elems_val, lemma_vals_len, read_row, value_get, Elem, ElemVal, ListCol, Ty,
    Value};

verus! {

/// The declared type `make_array` gives its rows' elements: the first
/// argument type that is not the untyped-null type.
pub open spec fn common_ty(args: Seq<Value>) -> Ty
    decreases args.len(),
{
    if args.len() == 0 {
        Ty::Null
    } else if !(args[0].spec_ty() is Null) {
        args[0].spec_ty()
    } else {
        common_ty(args.drop_first())
    }
}

/// Every argument has the common type or the untyped-null type.
pub open spec fn make_array_args_ok(args: Seq<Value>) -> bool {
    forall|j: int|
        0 <= j < args.len() ==> ((#[trigger] args[j]).spec_ty() == common_ty(args)
            || args[j].spec_ty() is Null)
}

/// What `make_array` owes on columns of a data type: one row per input
/// row, holding the arguments' elements at that row in argument order.
pub open spec fn make_array_output_ok(args: Seq<Value>, out: Value) -> bool {
    &&& out.vals().len() == args[0].spec_len()
    &&& forall|i: int|
        0 <= i < out.vals().len() ==> out.vals()[i] == ElemVal::List(
            Seq::new(args.len(), |j: int| args[j].vals()[i]),
        )
}

/// Build one list column out of the argument columns: row `i` holds the
/// arguments' elements at row `i`, in argument order.  With no argument,
/// or none of a data type, the result is one row of untyped nulls.
#[verifier::loop_isolation(false)]
pub fn make_array(args: &Vec<Value>) -> (r: Result<Value, ArrayError>)
    requires
        forall|i: int| 0 <= i < args@.len() ==> (#[trigger] args@[i]).wf(),
        make_array_args_ok(args@),
        forall|j: int|
            0 <= j < args@.len() ==> (#[trigger] args@[j]).spec_len() == args@[0].spec_len(),
    ensures
        r is Ok,
        r matches Ok(out) ==> {
            &&& out.wf()
            &&& (if common_ty(args@) is Null {
                &&& out.spec_ty() == Ty::List(Box::new(Ty::Null))
                &&& out.vals().len() == 1
                &&& (out.vals()[0] matches ElemVal::List(s) && s.len() == args@.len() && (forall|
                    k: int,
                |
                    0 <= k < s.len() ==> s[k] is Null))
            } else {
                out.spec_ty() == Ty::List(Box::new(common_ty(args@))) && make_array_output_ok(
                    args@,
                    out,
                )
            })
        },
{
    let ghost ats = args@;
    let n = args.len();
    let mut dt = Ty::Null;
    let mut j: usize = 0;
    proof {
        assert(ats.skip(0) =~= ats);
    }
    while j < n
        invariant
            j <= n,
            (dt == common_ty(ats) && !(dt is Null)) || (dt is Null && common_ty(
                ats.skip(j as int),
            ) == common_ty(ats)),
        decreases n - j,
    {
        proof {
            assert(ats.skip(j as int)[0] == ats[j as int]);
            assert(ats.skip(j as int).drop_first() =~= ats.skip(j as int + 1));
        }
        if matches!(dt, Ty::Null) {
            let t = args[j].ty();
            if !matches!(t, Ty::Null) {
                dt = t;
            }
        }
        j = j + 1;
    }
    proof {
        if dt is Null {
            assert(ats.skip(n as int) =~= Seq::<Value>::empty());
        }
    }
    if matches!(dt, Ty::Null) {
        // an empty argument list or all untyped-null arguments: one row
        // of as many untyped nulls
        let mut d: Vec<()> = Vec::new();
        let mut k: usize = 0;
        while k < n
            invariant
                k <= n,
                d@.len() == k,
            decreases n - k,
        {
            d.push(());
            k = k + 1;
        }
        let mut offsets: Vec<usize> = Vec::new();
        offsets.push(0);
        offsets.push(n);
        let col = ListCol { values: Value::Null(d), offsets, nulls: None };
        let out = Value::List(Box::new(col));
        proof {
            assert(col.offsets@.len() == 2);
            assert(col.offsets@[0] == 0);
            assert(col.offsets@[1] == n);
            assert(col.values.spec_len() == n);
            assert forall|x: int, y: int|
                0 <= x <= y < col.offsets@.len() implies col.offsets@[x] <= col.offsets@[y] by {
                if x == 0 && y == 1 {
                    assert(col.offsets@[0] == 0);
                }
            }
            assert(col.offsets_wf());
            assert(col.values.wf());
            assert(out.wf());
            lemma_vals_len(out);
            assert(out.vals()[0] == ElemVal::List(
                Value::Null(d).vals().subrange(0, n as int),
            ));
            assert(out.vals()[0] matches ElemVal::List(s) && s.len() == ats.len() && (forall|
                k: int,
            |
                0 <= k < s.len() ==> s[k] is Null));
            assert(common_ty(ats) is Null);
            assert(col.values.spec_ty() == Ty::Null);
            assert(out.spec_ty() == Ty::List(Box::new(Ty::Null)));
            assert(out.vals().len() == 1);
        }
        return Ok(out);
    }
    // at least one argument has a data type, so a first argument exists
    let rc = args[0].len();
    let out_ty = Ty::List(Box::new(dt));
    let mut out = new_empty_value(&out_ty);
    let ghost dtg = common_ty(ats);
    for i in 0..rc
        invariant
            out.wf(),
            out.spec_ty() == Ty::List(Box::new(dtg)),
            out.vals().len() == i,
            forall|k: int|
                0 <= k < i ==> out.vals()[k] == ElemVal::List(
                    Seq::new(ats.len(), |j: int| ats[j].vals()[k]),
                ),
    {
        proof {
            lemma_vals_len(out);
        }
        let mut row: Vec<Elem> = Vec::new();
        for j in 0..n
            invariant
                row@.len() == j,
                forall|m: int| 0 <= m < j ==> row@[m].val() == ats[m].vals()[i as int],
        {
            proof {
                lemma_vals_len(ats[j as int]);
            }
            row.push(value_get(&args[j], i));
        }
        let row_elem = Elem::List(row);
        proof {
            assert(row_elem.val() matches ElemVal::List(s) && s =~= Seq::new(
                ats.len(),
                |j: int| ats[j].vals()[i as int],
            ));
            let s = row_elem.val()->List_0;
            assert forall|m: int| 0 <= m < s.len() implies fits(#[trigger] s[m], dtg) by {
                lemma_vals_fit(ats[m]);
                lemma_vals_len(ats[m]);
                assert(fits(ats[m].vals()[i as int], ats[m].spec_ty()));
                if ats[m].spec_ty() is Null {
                    assert(ats[m].vals()[i as int] is Null);
                }
            }
            assert(fits(row_elem.val(), Ty::List(Box::new(dtg))));
        }
        out = value_push_elem(out, &row_elem);
    }
    Ok(out)
}

/// One added nesting level: each row becomes a singleton list holding
/// the old row.
pub open spec fn wrap_rows(rows: Seq<ElemVal>) -> Seq<ElemVal> {
    Seq::new(rows.len(), |i: int| ElemVal::List(seq![rows[i]]))
}

/// `k` added nesting levels.
pub open spec fn wrap_rows_n(rows: Seq<ElemVal>, k: nat) -> Seq<ElemVal>
    decreases k,
{
    if k == 0 {
        rows
    } else {
        wrap_rows(wrap_rows_n(rows, (k - 1) as nat))
    }
}

/// The declared type after `k` added nesting levels.
pub open spec fn list_ty_n(t: Ty, k: nat) -> Ty
    decreases k,
{
    if k == 0 {
        t
    } else {
        Ty::List(Box::new(list_ty_n(t, (k - 1) as nat)))
    }
}

/// The greatest nesting depth among the arguments.
pub open spec fn max_depth(args: Seq<Value>) -> nat
    decreases args.len(),
{
    if args.len() == 0 {
        0
    } else {
        let rest = max_depth(args.drop_first());
        if args[0].spec_ty().spec_depth() >= rest {
            args[0].spec_ty().spec_depth()
        } else {
            rest
        }
    }
}

/// Wrap the column in one more list level, one singleton row per old
/// row.
#[verifier::loop_isolation(false)]
fn wrap_value(v: Value) -> (r: Value)
    requires
        v.wf(),
    ensures
        r.wf(),
        r.spec_ty() == Ty::List(Box::new(v.spec_ty())),
        r.vals() == wrap_rows(v.vals()),
        r.spec_len() == v.spec_len(),
{
    proof {
        lemma_vals_len(v);
    }
    let n = v.len();
    let mut offsets: Vec<usize> = Vec::new();
    for k in 0..n
        invariant
            offsets@.len() == k,
            forall|m: int| 0 <= m < k ==> offsets@[m] == m,
    {
        offsets.push(k);
    }
    offsets.push(n);
    let ghost vv = v.vals();
    let col = ListCol { values: v, offsets, nulls: None };
    let r = Value::List(Box::new(col));
    proof {
        lemma_vals_len(r);
        assert forall|i: int| 0 <= i < r.vals().len() implies r.vals()[i] == wrap_rows(vv)[i] by {
            assert(vv.subrange(i, i + 1) =~= seq![vv[i]]);
        }
        assert(r.vals() =~= wrap_rows(vv));
    }
    r
}

/// Equalize the nesting depth of the argument columns: any column below
/// the greatest depth is wrapped, each old row becoming a singleton row,
/// until all depths agree.
#[verifier::loop_isolation(false)]
pub fn align_array_dimensions(args: Vec<Value>) -> (r: Result<Vec<Value>, ArrayError>)
    requires
        forall|i: int| 0 <= i < args@.len() ==> (#[trigger] args@[i]).wf(),
        forall|i: int|
            0 <= i < args@.len() ==> (#[trigger] args@[i]).spec_ty().spec_depth() <= usize::MAX,
    ensures
        r matches Ok(out) ==> {
            &&& out@.len() == args@.len()
            &&& forall|j: int|
                0 <= j < out@.len() ==> {
                    &&& (#[trigger] out@[j]).wf()
                    &&& out@[j].spec_ty() == list_ty_n(
                        args@[j].spec_ty(),
                        (max_depth(args@) - args@[j].spec_ty().spec_depth()) as nat,
                    )
                    &&& out@[j].vals() == wrap_rows_n(
                        args@[j].vals(),
                        (max_depth(args@) - args@[j].spec_ty().spec_depth()) as nat,
                    )
                }
        },
        r is Ok,
{
    let ghost ats = args@;
    let n = args.len();
    // find the greatest depth
    let mut maxd: usize = 0;
    let mut j: usize = 0;
    proof {
        assert(ats.skip(0) =~= ats);
    }
    while j < n
        invariant
            j <= n,
            maxd <= usize::MAX,
            max_depth(ats) == (if max_depth(ats.skip(j as int)) >= maxd as nat {
                max_depth(ats.skip(j as int))
            } else {
                maxd as nat
            }),
            forall|m: int| 0 <= m < j ==> (#[trigger] ats[m]).spec_ty().spec_depth() <= maxd,
        decreases n - j,
    {
        proof {
            assert(ats.skip(j as int)[0] == ats[j as int]);
            assert(ats.skip(j as int).drop_first() =~= ats.skip(j as int + 1));
        }
        let d = ty_depth(&args[j]);
        if d > maxd {
            maxd = d;
        }
        j = j + 1;
    }
    proof {
        assert(ats.skip(n as int) =~= Seq::<Value>::empty());
        assert(max_depth(ats) == maxd as nat);
    }
    let mut out: Vec<Value> = Vec::new();
    for j in 0..n
        invariant
            out@.len() == j,
            forall|m: int|
                0 <= m < j ==> {
                    &&& (#[trigger] out@[m]).wf()
                    &&& out@[m].spec_ty() == list_ty_n(
                        ats[m].spec_ty(),
                        (maxd - ats[m].spec_ty().spec_depth()) as nat,
                    )
                    &&& out@[m].vals() == wrap_rows_n(
                        ats[m].vals(),
                        (maxd - ats[m].spec_ty().spec_depth()) as nat,
                    )
                },
    {
        let mut cur = value_clone(&args[j]);
        let mut d = ty_depth(&args[j]);
        let ghost d0 = ats[j as int].spec_ty().spec_depth();
        while d < maxd
            invariant
                cur.wf(),
                d0 <= d <= maxd,
                cur.spec_ty() == list_ty_n(ats[j as int].spec_ty(), (d - d0) as nat),
                cur.vals() == wrap_rows_n(ats[j as int].vals(), (d - d0) as nat),
                cur.spec_ty().spec_depth() == d,
            decreases maxd - d,
        {
            cur = wrap_value(cur);
            d = d + 1;
            proof {
                lemma_wrap_step(ats[j as int].spec_ty(), ats[j as int].vals(), (d - 1 - d0) as nat);
            }
        }
        out.push(cur);
    }
    Ok(out)
}

/// Wrapping once more is one more level.
proof fn lemma_wrap_step(t: Ty, rows: Seq<ElemVal>, k: nat)
    ensures
        list_ty_n(t, k + 1) == Ty::List(Box::new(list_ty_n(t, k))),
        wrap_rows_n(rows, k + 1) == wrap_rows(wrap_rows_n(rows, k)),
        list_ty_n(t, k).spec_depth() == t.spec_depth() + k,
    decreases k,
{
    if k > 0 {
        lemma_wrap_step(t, rows, (k - 1) as nat);
    }
}

/// The elements of a present row; a null row holds none.
pub open spec fn row_content(v: ElemVal) -> Seq<ElemVal> {
    match v {
        ElemVal::List(s) => s,
        _ => Seq::empty(),
    }
}

/// The concatenation of the rows' elements, in row order; null rows
/// contribute nothing.
pub open spec fn concat_contents(rows: Seq<ElemVal>) -> Seq<ElemVal>
    decreases rows.len(),
{
    if rows.len() == 0 {
        Seq::empty()
    } else {
        row_content(rows[0]) + concat_contents(rows.drop_first())
    }
}

/// The row concatenation produces from one row of each argument: null
/// when every row is null, else every present row's elements in
/// argument order.
pub open spec fn concat_row(rows: Seq<ElemVal>) -> ElemVal {
    if forall|j: int| 0 <= j < rows.len() ==> rows[j] is Null {
        ElemVal::Null
    } else {
        ElemVal::List(concat_contents(rows))
    }
}

/// Argument `j` after depth alignment.
pub open spec fn aligned_vals(args: Seq<Value>, j: int) -> Seq<ElemVal> {
    wrap_rows_n(args[j].vals(), (max_depth(args) - args[j].spec_ty().spec_depth()) as nat)
}

/// The declared type of argument `j` after depth alignment.
pub open spec fn aligned_ty(args: Seq<Value>, j: int) -> Ty {
    list_ty_n(args[j].spec_ty(), (max_depth(args) - args[j].spec_ty().spec_depth()) as nat)
}

/// The argument shape row concatenation accepts: after alignment, every
/// argument is a list column of one type.
pub open spec fn concat_args_ok(args: Seq<Value>) -> bool {
    &&& args.len() >= 1
    &&& max_depth(args) >= 1
    &&& forall|j: int| 0 <= j < args.len() ==> #[trigger] aligned_ty(args, j) == aligned_ty(args, 0)
}

/// What row concatenation owes: per row, the concatenation of the
/// arguments' aligned rows.
pub open spec fn concat_output_ok(args: Seq<Value>, out: Value) -> bool {
    &&& out.wf()
    &&& out.spec_ty() == aligned_ty(args, 0)
    &&& out.vals().len() == args[0].spec_len()
    &&& forall|i: int|
        0 <= i < out.vals().len() ==> out.vals()[i] == concat_row(
            Seq::new(args.len(), |j: int| aligned_vals(args, j)[i]),
        )
}

/// Wrapping keeps the number of rows.
pub proof fn lemma_wrap_n_len(rows: Seq<ElemVal>, k: nat)
    ensures
        wrap_rows_n(rows, k).len() == rows.len(),
    decreases k,
{
    if k > 0 {
        lemma_wrap_n_len(rows, (k - 1) as nat);
    }
}

/// Concatenate the arguments row by row, after aligning their depths:
/// each output row holds every argument's row elements in argument
/// order, and is null only when every argument's row is null.
#[verifier::loop_isolation(false)]
#[verifier::rlimit(60)]
pub(crate) fn concat_internal(args: &Vec<Value>) -> (r: Result<Value, ArrayError>)
    requires
        forall|i: int| 0 <= i < args@.len() ==> (#[trigger] args@[i]).wf(),
        forall|i: int|
            0 <= i < args@.len() ==> (#[trigger] args@[i]).spec_ty().spec_depth() <= usize::MAX,
        args@.len() >= 1,
        forall|j: int|
            0 <= j < args@.len() ==> (#[trigger] args@[j]).spec_len() == args@[0].spec_len(),
    ensures
        r is Ok <==> concat_args_ok(args@),
        r matches Ok(out) ==> concat_output_ok(args@, out),
        r matches Err(e) ==> (if max_depth(args@) == 0 {
            e is Internal
        } else {
            e is Plan
        }),
{
    let ghost ats = args@;
    let n = args.len();
    let mut copies: Vec<Value> = Vec::new();
    for j in 0..n
        invariant
            copies@.len() == j,
            forall|m: int|
                0 <= m < j ==> (#[trigger] copies@[m]).wf() && copies@[m].spec_ty()
                    == ats[m].spec_ty() && copies@[m].vals() == ats[m].vals(),
    {
        copies.push(value_clone(&args[j]));
    }
    proof {
        assert forall|m: int| 0 <= m < copies@.len() implies (#[trigger] copies@[m]).wf()
            && copies@[m].spec_ty().spec_depth() <= usize::MAX by {
            assert(copies@[m].spec_ty() == ats[m].spec_ty());
        }
        assert(max_depth(copies@) == max_depth(ats)) by {
            lemma_max_depth_congruent(copies@, ats);
        }
    }
    let aligned = match align_array_dimensions(copies) {
        Ok(a) => a,
        Err(_) => {
            proof {
                assert(false);
            }
            return Err(ArrayError::Internal("alignment failed".to_owned()));
        },
    };
    proof {
        assert forall|j: int| 0 <= j < aligned@.len() implies (#[trigger] aligned@[j]).vals()
            == aligned_vals(ats, j) && aligned@[j].spec_ty() == aligned_ty(ats, j) by {
            assert(aligned@[j].spec_ty() == list_ty_n(
                ats[j].spec_ty(),
                (max_depth(ats) - ats[j].spec_ty().spec_depth()) as nat,
            ));
        }
    }
    // after alignment every argument must be a list column of one type
    let a0_ty = aligned[0].ty();
    if !matches!(a0_ty, Ty::List(_)) {
        proof {
            lemma_wrap_step(ats[0].spec_ty(), ats[0].vals(), 0);
            if max_depth(ats) >= 1 {
                let k = (max_depth(ats) - ats[0].spec_ty().spec_depth()) as nat;
                lemma_wrap_step(ats[0].spec_ty(), ats[0].vals(), k);
                assert(aligned_ty(ats, 0).spec_depth() == max_depth(ats));
                assert(aligned_ty(ats, 0) is List);
            }
        }
        return Err(ArrayError::Internal("concatenation expects list columns".to_owned()));
    }
    let mut tys_ok = true;
    for j in 1..n
        invariant
            tys_ok <==> (forall|m: int|
                0 <= m < j ==> #[trigger] aligned_ty(ats, m) == aligned_ty(ats, 0)),
    {
        let tj = aligned[j].ty();
        let t0 = aligned[0].ty();
        if !crate::model::ty_eq(&tj, &t0) {
            tys_ok = false;
        }
    }
    if !tys_ok {
        return Err(ArrayError::Plan("concatenation received incompatible types".to_owned()));
    }
    proof {
        let k0 = (max_depth(ats) - ats[0].spec_ty().spec_depth()) as nat;
        lemma_wrap_step(ats[0].spec_ty(), ats[0].vals(), k0);
        assert(aligned_ty(ats, 0).spec_depth() >= 1);
        assert(max_depth(ats) >= 1);
        assert(concat_args_ok(ats));
    }
    let b0: &ListCol = match &aligned[0] {
        Value::List(b) => b,
        _ => {
            proof {
                assert(false);
            }
            return Err(ArrayError::Internal("concatenation expects list columns".to_owned()));
        },
    };
    let ghost child_ty = b0.values.spec_ty();
    let child_ty_e = b0.values.ty();
    let out_ty = Ty::List(Box::new(child_ty_e));
    let mut out = new_empty_value(&out_ty);
    let rc = b0.row_count();
    proof {
        lemma_vals_len(aligned@[0]);
        lemma_wrap_n_len(ats[0].vals(), (max_depth(ats) - ats[0].spec_ty().spec_depth()) as nat);
        lemma_vals_len(ats[0]);
        assert(rc == ats[0].spec_len());
    }
    for i in 0..rc
        invariant
            out.wf(),
            out.spec_ty() == aligned_ty(ats, 0),
            out.vals().len() == i,
            forall|k: int|
                0 <= k < i ==> out.vals()[k] == concat_row(
                    Seq::new(ats.len(), |j: int| aligned_vals(ats, j)[k]),
                ),
    {
        proof {
            lemma_vals_len(out);
        }
        let ghost rowseq = Seq::new(ats.len(), |j: int| aligned_vals(ats, j)[i as int]);
        let mut row: Vec<Elem> = Vec::new();
        let mut all_null = true;
        proof {
            assert(rowseq.skip(0) =~= rowseq);
            assert(elems_val(row@) =~= Seq::<ElemVal>::empty());
        }
        for j in 0..n
            invariant
                all_null <==> (forall|m: int| 0 <= m < j ==> rowseq[m] is Null),
                concat_contents(rowseq) =~= elems_val(row@) + concat_contents(
                    rowseq.skip(j as int),
                ),
                forall|m: int|
                    0 <= m < row@.len() ==> fits(#[trigger] elems_val(row@)[m], child_ty),
        {
            let bj: &ListCol = match &aligned[j] {
                Value::List(b) => b,
                _ => {
                    proof {
                        assert(aligned@[j as int].spec_ty() == aligned_ty(ats, j as int));
                        assert(false);
                    }
                    return Err(ArrayError::Internal("concatenation expects list columns".to_owned()));
                },
            };
            let ghost rv = elems_val(row@);
            proof {
                assert(rowseq.skip(j as int)[0] == rowseq[j as int]);
                assert(rowseq.skip(j as int).drop_first() =~= rowseq.skip(j as int + 1));
                lemma_vals_len(aligned@[j as int]);
                lemma_wrap_n_len(
                    ats[j as int].vals(),
                    (max_depth(ats) - ats[j as int].spec_ty().spec_depth()) as nat,
                );
                lemma_vals_len(ats[j as int]);
            }
            match read_row(bj, i) {
                None => {
                    proof {
                        assert(rowseq[j as int] is Null);
                        assert(row_content(rowseq[j as int]) =~= Seq::<ElemVal>::empty());
                        assert(rv + (Seq::<ElemVal>::empty() + concat_contents(
                            rowseq.skip(j as int + 1),
                        )) =~= rv + concat_contents(rowseq.skip(j as int + 1)));
                    }
                },
                Some(mut es) => {
                    all_null = false;
                    proof {
                        assert(rowseq[j as int] == ElemVal::List(elems_val(es@)));
                        lemma_vals_fit(aligned@[j as int]);
                        assert(fits(rowseq[j as int], aligned_ty(ats, j as int)));
                        assert(aligned_ty(ats, j as int) == Ty::List(Box::new(child_ty)));
                        assert forall|m: int| 0 <= m < es@.len() implies fits(
                            #[trigger] elems_val(es@)[m],
                            child_ty,
                        ) by {
                            assert(fits(rowseq[j as int]->List_0[m], child_ty));
                        }
                    }
                    let ghost ev = elems_val(es@);
                    row.append(&mut es);
                    proof {
                        assert(elems_val(row@) =~= rv + ev);
                        assert(rv + (row_content(rowseq[j as int]) + concat_contents(
                            rowseq.skip(j as int + 1),
                        )) =~= (rv + ev) + concat_contents(rowseq.skip(j as int + 1)));
                    }
                },
            }
        }
        proof {
            assert(rowseq.skip(n as int) =~= Seq::<ElemVal>::empty());
            assert(elems_val(row@) + Seq::<ElemVal>::empty() =~= elems_val(row@));
            assert(concat_contents(rowseq) =~= elems_val(row@));
        }
        if all_null {
            out = value_extend_nulls(out, 1);
            proof {
                assert(concat_row(rowseq) is Null);
            }
        } else {
            let row_elem = Elem::List(row);
            proof {
                assert(row_elem.val() matches ElemVal::List(s) && s =~= concat_contents(rowseq));
                assert(!(forall|m: int| 0 <= m < rowseq.len() ==> rowseq[m] is Null));
                assert(concat_row(rowseq) == ElemVal::List(concat_contents(rowseq)));
                assert(fits(row_elem.val(), Ty::List(Box::new(child_ty))));
            }
            out = value_push_elem(out, &row_elem);
        }
    }
    Ok(out)
}

/// Depth depends only on the types, which the copies share.
proof fn lemma_max_depth_congruent(a: Seq<Value>, b: Seq<Value>)
    requires
        a.len() == b.len(),
        forall|i: int| 0 <= i < a.len() ==> (#[trigger] a[i]).spec_ty() == b[i].spec_ty(),
    ensures
        max_depth(a) == max_depth(b),
    decreases a.len(),
{
    if a.len() > 0 {
        assert(a.drop_first().len() == b.drop_first().len());
        assert forall|i: int|
            0 <= i < a.drop_first().len() implies (#[trigger] a.drop_first()[i]).spec_ty()
            == b.drop_first()[i].spec_ty() by {
            assert(a.drop_first()[i] == a[i + 1]);
            assert(b.drop_first()[i] == b[i + 1]);
        }
        lemma_max_depth_congruent(a.drop_first(), b.drop_first());
    }
}

/// The innermost non-list type under a declared type.
pub open spec fn base_ty(t: Ty) -> Ty
    decreases t,
{
    match t {
        Ty::List(t2) => base_ty(*t2),
        _ => t,
    }
}

/// The arguments `array_concat` keeps: those whose innermost element
/// type is a data type.
pub open spec fn kept_args(args: Seq<Value>) -> Seq<Value>
    decreases args.len(),
{
    if args.len() == 0 {
        Seq::empty()
    } else if base_ty(args.last().spec_ty()) is Null {
        kept_args(args.drop_last())
    } else {
        kept_args(args.drop_last()).push(args.last())
    }
}

/// The innermost non-list type, computed.
fn base_ty_of(t: &Ty) -> (r: &Ty)
    ensures
        *r == base_ty(*t),
    decreases t,
{
    match t {
        Ty::List(t2) => base_ty_of(t2),
        _ => t,
    }
}

/// Concatenate the rows of the argument list columns, dropping arguments
/// whose innermost element type is the untyped-null type.  An argument
/// that is no list at all is a planning error.
#[verifier::loop_isolation(false)]
pub fn array_concat(args: &Vec<Value>) -> (r: Result<Value, ArrayError>)
    requires
        forall|i: int| 0 <= i < args@.len() ==> (#[trigger] args@[i]).wf(),
        forall|i: int|
            0 <= i < args@.len() ==> (#[trigger] args@[i]).spec_ty().spec_depth() <= usize::MAX,
        kept_args(args@).len() >= 1,
        forall|j: int|
            0 <= j < kept_args(args@).len() ==> (#[trigger] kept_args(args@)[j]).spec_len()
                == kept_args(args@)[0].spec_len(),
    ensures
        r is Ok <==> ((forall|i: int|
            0 <= i < args@.len() ==> (#[trigger] args@[i]).spec_ty().spec_depth() >= 1)
            && concat_args_ok(kept_args(args@))),
        r matches Ok(out) ==> concat_output_ok(kept_args(args@), out),
{
    let ghost ats = args@;
    let n = args.len();
    let mut kept: Vec<Value> = Vec::new();
    proof {
        assert(ats.subrange(0, 0) =~= Seq::<Value>::empty());
    }
    for j in 0..n
        invariant
            forall|m: int|
                0 <= m < kept@.len() ==> (#[trigger] kept@[m]).wf() && kept@[m].spec_ty().spec_depth()
                    <= usize::MAX,
            kept@.len() == kept_args(ats.subrange(0, j as int)).len(),
            forall|m: int|
                0 <= m < kept@.len() ==> (#[trigger] kept@[m]).spec_ty() == kept_args(
                    ats.subrange(0, j as int),
                )[m].spec_ty() && kept@[m].vals() == kept_args(ats.subrange(0, j as int))[m].vals(),
            forall|m: int| 0 <= m < j ==> (#[trigger] ats[m]).spec_ty().spec_depth() >= 1,
    {
        proof {
            assert(ats.subrange(0, j as int + 1).drop_last() =~= ats.subrange(0, j as int));
        }
        let t = args[j].ty();
        if !matches!(t, Ty::List(_)) {
            proof {
                assert(ats[j as int].spec_ty().spec_depth() == 0);
            }
            return Err(ArrayError::Plan("an argument is not an array".to_owned()));
        }
        let bt = base_ty_of(&t);
        if !matches!(bt, Ty::Null) {
            kept.push(value_clone(&args[j]));
        }
    }
    proof {
        assert(ats.subrange(0, n as int) =~= ats);
    }
    let ghost kats = kept_args(ats);
    proof {
        lemma_concat_specs_congruent(kept@, kats);
        assert forall|j: int|
            0 <= j < kept@.len() implies (#[trigger] kept@[j]).spec_len() == kept@[0].spec_len() by {
            lemma_vals_len(kept@[j]);
            lemma_vals_len(kept@[0]);
            lemma_vals_len(kats[j]);
            lemma_vals_len(kats[0]);
        }
    }
    let r = concat_internal(&kept);
    proof {
        match &r {
            Ok(out) => {
                let out = *out;
                assert(concat_output_ok(kept@, out));
                assert forall|i: int|
                    0 <= i < out.vals().len() implies out.vals()[i] == concat_row(
                    Seq::new(kats.len(), |j: int| aligned_vals(kats, j)[i]),
                ) by {
                    let s1 = Seq::new(kept@.len(), |j: int| aligned_vals(kept@, j)[i]);
                    let s2 = Seq::new(kats.len(), |j: int| aligned_vals(kats, j)[i]);
                    assert(s1 =~= s2);
                }
                lemma_vals_len(kept@[0]);
                lemma_vals_len(kats[0]);
                assert(concat_output_ok(kats, out));
            },
            Err(_) => {},
        }
    }
    r
}

/// The alignment specifications depend only on the arguments' types and
/// values, which clones share.
proof fn lemma_concat_specs_congruent(a: Seq<Value>, b: Seq<Value>)
    requires
        a.len() == b.len(),
        forall|i: int|
            0 <= i < a.len() ==> (#[trigger] a[i]).spec_ty() == b[i].spec_ty() && a[i].vals()
                == b[i].vals(),
    ensures
        max_depth(a) == max_depth(b),
        forall|j: int|
            0 <= j < a.len() ==> #[trigger] aligned_vals(a, j) == aligned_vals(b, j)
                && aligned_ty(a, j) == aligned_ty(b, j),
        concat_args_ok(a) == concat_args_ok(b),
{
    lemma_max_depth_congruent(a, b);
    if concat_args_ok(a) {
        assert forall|j: int| 0 <= j < b.len() implies #[trigger] aligned_ty(b, j) == aligned_ty(
            b,
            0,
        ) by {
            assert(aligned_ty(a, j) == aligned_ty(a, 0));
        }
        assert(concat_args_ok(b));
    }
    if concat_args_ok(b) {
        assert forall|j: int| 0 <= j < a.len() implies #[trigger] aligned_ty(a, j) == aligned_ty(
            a,
            0,
        ) by {
            assert(aligned_ty(b, j) == aligned_ty(b, 0));
        }
        assert(concat_args_ok(a));
    }
}

/// Nesting depth of a column's declared type.
fn ty_depth(v: &Value) -> (d: usize)
    requires
        v.spec_ty().spec_depth() <= usize::MAX,
    ensures
        d as nat == v.spec_ty().spec_depth(),
    decreases v,
{
    match v {
        Value::List(b) => {
            let inner = ty_depth(&b.values);
            inner + 1
        },
        _ => 0,
    }
}

} // verus!
