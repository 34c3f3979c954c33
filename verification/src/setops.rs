//! Per-row set operations: distinct, union, except, intersect.  Rows are
//! compared element-wise in the canonical order, so equal values — nulls
//! included — collapse together.

use vstd::prelude::*;

use crate::arena::{fits, lemma_vals_fit, new_empty_value, value_extend_nulls, value_push_elem};
use crate::error::ArrayError;
use crate::model::{elems_val, read_row, Elem, ElemVal, ListCol, Ty, Value};
use crate::model::lemma_vals_len;
use crate::order::{cmp_val, elem_cmp, elems_contains, le_val, lemma_cmp_val_antisym,
    lemma_cmp_val_eq, lemma_le_antisym, Ord3};

verus! {

/// The row is ordered by the canonical order.
pub open spec fn sorted_vals(s: Seq<ElemVal>) -> bool {
    forall|i: int, j: int| 0 <= i < j < s.len() ==> le_val(s[i], s[j])
}

/// No two positions of the row hold equal values.
pub open spec fn nodup_vals(s: Seq<ElemVal>) -> bool {
    forall|i: int, j: int| 0 <= i < j < s.len() ==> s[i] != s[j]
}

/// The two rows hold exactly the same values, order and multiplicity
/// aside.
pub open spec fn same_members(x: Seq<ElemVal>, y: Seq<ElemVal>) -> bool {
    forall|v: ElemVal| x.contains(v) <==> y.contains(v)
}

/// The order is reflexive.
pub proof fn lemma_le_refl(v: ElemVal)
    ensures
        le_val(v, v),
{
    lemma_cmp_val_eq(v, v);
}

/// A sorted, duplicate-free row is determined by its members: two such
/// rows with the same members are equal.
pub proof fn lemma_sorted_nodup_unique(x: Seq<ElemVal>, y: Seq<ElemVal>)
    requires
        sorted_vals(x),
        sorted_vals(y),
        nodup_vals(x),
        nodup_vals(y),
        same_members(x, y),
    ensures
        x == y,
    decreases x.len(),
{
    if x.len() == 0 {
        if y.len() > 0 {
            assert(y.contains(y[0]));
            assert(x.contains(y[0]));
        }
        assert(x =~= y);
    } else {
        assert(x.contains(x[0]));
        assert(y.contains(x[0]));
        let j = choose|j: int| 0 <= j < y.len() && y[j] == x[0];
        if j > 0 {
            assert(le_val(y[0], y[j]));
        } else {
            lemma_le_refl(y[0]);
        }
        assert(y.contains(y[0]));
        assert(x.contains(y[0]));
        let k = choose|k: int| 0 <= k < x.len() && x[k] == y[0];
        if k > 0 {
            assert(le_val(x[0], x[k]));
        } else {
            lemma_le_refl(x[0]);
        }
        lemma_le_antisym(x[0], y[0]);
        let xt = x.drop_first();
        let yt = y.drop_first();
        assert forall|v: ElemVal| xt.contains(v) <==> yt.contains(v) by {
            lemma_tail_members(x, v);
            lemma_tail_members(y, v);
        }
        lemma_sorted_nodup_unique(xt, yt);
        assert(x.len() == y.len());
        assert forall|i: int| 0 <= i < x.len() implies x[i] == y[i] by {
            if i > 0 {
                assert(x[i] == xt[i - 1]);
                assert(y[i] == yt[i - 1]);
            }
        }
        assert(x =~= y);
    }
}

/// In a duplicate-free row, the tail holds exactly the members other
/// than the head.
proof fn lemma_tail_members(x: Seq<ElemVal>, v: ElemVal)
    requires
        x.len() > 0,
        nodup_vals(x),
    ensures
        x.drop_first().contains(v) <==> (x.contains(v) && v != x[0]),
{
    let xt = x.drop_first();
    if xt.contains(v) {
        let i = choose|i: int| 0 <= i < xt.len() && xt[i] == v;
        assert(x[i + 1] == v);
        assert(x.contains(v));
        assert(v != x[0]);
    }
    if x.contains(v) && v != x[0] {
        let i = choose|i: int| 0 <= i < x.len() && x[i] == v;
        assert(i > 0);
        assert(xt[i - 1] == v);
        assert(xt.contains(v));
    }
}

/// Insert an element into a sorted, duplicate-free row, keeping it
/// sorted and duplicate-free; an element already present is dropped.
#[verifier::loop_isolation(false)]
pub fn insert_sorted_unique(acc: Vec<Elem>, e: Elem) -> (r: Vec<Elem>)
    requires
        sorted_vals(elems_val(acc@)),
        nodup_vals(elems_val(acc@)),
    ensures
        sorted_vals(elems_val(r@)),
        nodup_vals(elems_val(r@)),
        forall|v: ElemVal|
            elems_val(r@).contains(v) <==> (elems_val(acc@).contains(v) || v == e.val()),
{
    let ghost av = elems_val(acc@);
    let n = acc.len();
    let mut j: usize = 0;
    while j < n
        invariant
            j <= n,
            forall|k: int| 0 <= k < j ==> cmp_val(av[k], e.val()) is Lt,
        decreases n - j,
    {
        let c = elem_cmp(&acc[j], &e);
        match c {
            Ord3::Lt => {
                j = j + 1;
            },
            Ord3::Eq => {
                proof {
                    lemma_cmp_val_eq(av[j as int], e.val());
                    assert(av.contains(e.val()));
                }
                return acc;
            },
            Ord3::Gt => {
                break ;
            },
        }
    }
    let ghost ev = e.val();
    let mut out = acc;
    out.insert(j, e);
    proof {
        let ov = elems_val(out@);
        assert(ov.len() == av.len() + 1);
        assert(forall|k: int| 0 <= k < j ==> ov[k] == av[k]);
        assert(ov[j as int] == ev);
        assert(forall|k: int| j < k < ov.len() ==> ov[k] == av[k - 1]);
        // everything at or after the insertion point is strictly above `e`
        assert forall|k: int| j < k < ov.len() implies cmp_val(ev, ov[k]) is Lt by {
            if j < n {
                assert(cmp_val(av[j as int], ev) is Gt);
                lemma_cmp_val_antisym(av[j as int], ev);
                if j as int <= k - 1 && k - 1 > j as int {
                    assert(le_val(av[j as int], av[k - 1]));
                }
                lemma_cmp_val_eq(ev, av[j as int]);
                if k - 1 == j as int {
                    assert(cmp_val(ev, ov[k]) is Lt);
                } else {
                    assert(le_val(av[j as int], av[k - 1]));
                    lemma_cmp_val_antisym(ev, av[j as int]);
                    lemma_cmp_val_eq(av[j as int], av[k - 1]);
                    lemma_cmp_val_antisym(ev, av[k - 1]);
                    if cmp_val(av[j as int], av[k - 1]) is Lt {
                        crate::order::lemma_cmp_val_trans(ev, av[j as int], av[k - 1]);
                    }
                }
            }
        }
        assert forall|a: int, b: int| 0 <= a < b < ov.len() implies le_val(ov[a], ov[b]) by {
            if b < j {
                assert(le_val(av[a], av[b]));
            } else if a < j && b == j {
                assert(cmp_val(av[a], ev) is Lt);
                lemma_cmp_val_antisym(av[a], ev);
            } else if a < j && b > j {
                assert(cmp_val(av[a], ev) is Lt);
                assert(cmp_val(ev, ov[b]) is Lt);
                crate::order::lemma_cmp_val_trans(av[a], ev, ov[b]);
                lemma_cmp_val_antisym(av[a], ov[b]);
                assert(cmp_val(ov[a], ov[b]) is Lt);
            } else if a == j {
                assert(cmp_val(ev, ov[b]) is Lt);
                lemma_cmp_val_antisym(ev, ov[b]);
            } else {
                assert(le_val(av[a - 1], av[b - 1]));
            }
        }
        assert forall|a: int, b: int| 0 <= a < b < ov.len() implies ov[a] != ov[b] by {
            if b < j {
            } else if a < j && b == j {
                assert(cmp_val(av[a], ev) is Lt);
                lemma_cmp_val_eq(av[a], ev);
            } else if a < j && b > j {
            } else if a == j {
                assert(cmp_val(ev, ov[b]) is Lt);
                lemma_cmp_val_eq(ev, ov[b]);
            } else {
            }
        }
        assert forall|v: ElemVal| ov.contains(v) <==> (av.contains(v) || v == ev) by {
            if ov.contains(v) {
                let i = choose|i: int| 0 <= i < ov.len() && ov[i] == v;
                if i < j {
                    assert(av[i] == v);
                    assert(av.contains(v));
                } else if i == j {
                } else {
                    assert(av[i - 1] == v);
                    assert(av.contains(v));
                }
            }
            if av.contains(v) {
                let i = choose|i: int| 0 <= i < av.len() && av[i] == v;
                if i < j {
                    assert(ov[i] == v);
                } else {
                    assert(ov[i + 1] == v);
                }
                assert(ov.contains(v));
            }
            if v == ev {
                assert(ov[j as int] == v);
                assert(ov.contains(v));
            }
        }
    }
    out
}

/// The non-null rows of a column, in order; the set operations that
/// cannot produce anything for a null row drop it.
pub open spec fn present_rows(rows: Seq<ElemVal>) -> Seq<ElemVal>
    decreases rows.len(),
{
    if rows.len() == 0 {
        Seq::empty()
    } else if rows.last() is Null {
        present_rows(rows.drop_last())
    } else {
        present_rows(rows.drop_last()).push(rows.last())
    }
}

/// What `array_distinct` owes per row: the sorted, duplicate-free row
/// with the same members, for each present input row.
pub open spec fn distinct_output_ok(input_rows: Seq<ElemVal>, out: Value) -> bool {
    let pres = present_rows(input_rows);
    &&& out.vals().len() == pres.len()
    &&& forall|i: int|
        0 <= i < pres.len() ==> ((#[trigger] out.vals()[i]) matches ElemVal::List(r)
            && sorted_vals(r) && nodup_vals(r) && same_members(r, pres[i]->List_0))
}

/// Sort one present row and drop duplicate values.
#[verifier::loop_isolation(false)]
fn sort_dedup_row(es: &Vec<Elem>) -> (acc: Vec<Elem>)
    ensures
        sorted_vals(elems_val(acc@)),
        nodup_vals(elems_val(acc@)),
        same_members(elems_val(acc@), elems_val(es@)),
{
    let mut acc: Vec<Elem> = Vec::new();
    let n = es.len();
    proof {
        assert(elems_val(es@).subrange(0, 0) =~= Seq::<ElemVal>::empty());
    }
    for j in 0..n
        invariant
            sorted_vals(elems_val(acc@)),
            nodup_vals(elems_val(acc@)),
            forall|v: ElemVal|
                elems_val(acc@).contains(v) <==> elems_val(es@).subrange(0, j as int).contains(v),
    {
        let e = crate::model::elem_clone(&es[j]);
        proof {
            assert(e.val() == elems_val(es@)[j as int]);
        }
        let ghost before = elems_val(acc@);
        acc = insert_sorted_unique(acc, e);
        proof {
            let pre = elems_val(es@).subrange(0, j as int);
            let post = elems_val(es@).subrange(0, j as int + 1);
            assert(post =~= pre.push(elems_val(es@)[j as int]));
            assert forall|v: ElemVal| elems_val(acc@).contains(v) <==> post.contains(v) by {
                if post.contains(v) {
                    let i = choose|i: int| 0 <= i < post.len() && post[i] == v;
                    if i < pre.len() {
                        assert(pre.contains(v));
                    } else {
                        assert(v == elems_val(es@)[j as int]);
                    }
                }
                if pre.contains(v) {
                    let i = choose|i: int| 0 <= i < pre.len() && pre[i] == v;
                    assert(post[i] == v);
                    assert(post.contains(v));
                }
                if v == elems_val(es@)[j as int] {
                    assert(post[j as int] == v);
                    assert(post.contains(v));
                }
            }
        }
    }
    proof {
        assert(elems_val(es@).subrange(0, n as int) =~= elems_val(es@));
    }
    acc
}

/// Every member of a present row of a well-formed list column fits the
/// column's element type.
proof fn lemma_row_members_fit(b: ListCol, i: int, r: Seq<ElemVal>)
    requires
        b.wf_col(),
        0 <= i < b.rows_val().len(),
        b.rows_val()[i] matches ElemVal::List(s) && same_members(r, s),
    ensures
        fits(ElemVal::List(r), Ty::List(Box::new(b.values.spec_ty()))),
{
    let col = Value::List(Box::new(b));
    lemma_vals_fit(col);
    assert(fits(col.vals()[i], col.spec_ty()));
    let s = b.rows_val()[i]->List_0;
    assert forall|k: int| 0 <= k < r.len() implies fits(#[trigger] r[k], b.values.spec_ty()) by {
        assert(r.contains(r[k]));
        assert(s.contains(r[k]));
        let m = choose|m: int| 0 <= m < s.len() && s[m] == r[k];
        assert(fits(s[m], b.values.spec_ty()));
    }
}

/// Sort-and-dedup every present row of a list column; null rows are
/// dropped.  Rows come out in the canonical order of their values.
#[verifier::loop_isolation(false)]
pub fn general_array_distinct(list: &ListCol) -> (out: Value)
    requires
        list.wf_col(),
    ensures
        out.wf(),
        out.spec_ty() == Ty::List(Box::new(list.values.spec_ty())),
        distinct_output_ok(list.rows_val(), out),
{
    let ghost rows = list.rows_val();
    proof {
        lemma_vals_len(Value::List(Box::new(*list)));
    }
    let child_ty = list.values.ty();
    let out_ty = Ty::List(Box::new(child_ty));
    let mut out = new_empty_value(&out_ty);
    let rc = list.row_count();
    proof {
        assert(rows.subrange(0, 0) =~= Seq::<ElemVal>::empty());
    }
    for i in 0..rc
        invariant
            out.wf(),
            out.spec_ty() == Ty::List(Box::new(list.values.spec_ty())),
            distinct_output_ok(rows.subrange(0, i as int), out),
    {
        let ghost pre = present_rows(rows.subrange(0, i as int));
        proof {
            assert(rows.subrange(0, i as int + 1).drop_last() =~= rows.subrange(0, i as int));
        }
        match read_row(list, i) {
            None => {
                proof {
                    assert(present_rows(rows.subrange(0, i as int + 1)) == pre);
                }
            },
            Some(es) => {
                let acc = sort_dedup_row(&es);
                let ghost accv = elems_val(acc@);
                let row_elem = Elem::List(acc);
                proof {
                    assert(row_elem.val() matches ElemVal::List(s) && s =~= accv);
                    lemma_row_members_fit(*list, i as int, accv);
                    assert(present_rows(rows.subrange(0, i as int + 1)) == pre.push(
                        rows[i as int],
                    ));
                }
                out = value_push_elem(out, &row_elem);
            },
        }
    }
    proof {
        assert(rows.subrange(0, rc as int) =~= rows);
    }
    out
}

/// Membership in a pushed row.
proof fn lemma_contains_push(s: Seq<ElemVal>, x: ElemVal, v: ElemVal)
    ensures
        s.push(x).contains(v) <==> (s.contains(v) || v == x),
{
    if s.push(x).contains(v) {
        let i = choose|i: int| 0 <= i < s.push(x).len() && s.push(x)[i] == v;
        if i < s.len() {
            assert(s[i] == v);
            assert(s.contains(v));
        }
    }
    if s.contains(v) {
        let i = choose|i: int| 0 <= i < s.len() && s[i] == v;
        assert(s.push(x)[i] == v);
        assert(s.push(x).contains(v));
    }
    if v == x {
        assert(s.push(x)[s.len() as int] == v);
        assert(s.push(x).contains(v));
    }
}

/// Membership splits into the head and the tail.
proof fn lemma_contains_head_tail(xs: Seq<ElemVal>, v: ElemVal)
    requires
        xs.len() > 0,
    ensures
        xs.contains(v) <==> (v == xs[0] || xs.drop_first().contains(v)),
{
    if xs.contains(v) {
        let i = choose|i: int| 0 <= i < xs.len() && xs[i] == v;
        if i > 0 {
            assert(xs.drop_first()[i - 1] == v);
            assert(xs.drop_first().contains(v));
        }
    }
    if xs.drop_first().contains(v) {
        let i = choose|i: int| 0 <= i < xs.drop_first().len() && xs.drop_first()[i] == v;
        assert(xs[i + 1] == v);
        assert(xs.contains(v));
    }
}

/// Inserting the values of `xs` one by one, skipping repeats, yields a
/// row whose members are those of `acc` and `xs` together.
pub proof fn lemma_insert_unique_members(acc: Seq<ElemVal>, xs: Seq<ElemVal>)
    ensures
        forall|v: ElemVal|
            insert_unique(acc, xs).contains(v) <==> (acc.contains(v) || xs.contains(v)),
    decreases xs.len(),
{
    if xs.len() == 0 {
        assert forall|v: ElemVal|
            insert_unique(acc, xs).contains(v) <==> (acc.contains(v) || xs.contains(v)) by {
            if xs.contains(v) {
                let i = choose|i: int| 0 <= i < xs.len() && xs[i] == v;
            }
        }
    } else {
        let x0 = xs[0];
        let xt = xs.drop_first();
        if acc.contains(x0) {
            lemma_insert_unique_members(acc, xt);
            assert forall|v: ElemVal|
                insert_unique(acc, xs).contains(v) <==> (acc.contains(v) || xs.contains(v)) by {
                lemma_contains_head_tail(xs, v);
            }
        } else {
            lemma_insert_unique_members(acc.push(x0), xt);
            assert forall|v: ElemVal|
                insert_unique(acc, xs).contains(v) <==> (acc.contains(v) || xs.contains(v)) by {
                lemma_contains_head_tail(xs, v);
                lemma_contains_push(acc, x0, v);
            }
        }
    }
}

/// First-seen insertion of new values, left to right: the dedup step of
/// `array_union`.
pub open spec fn insert_unique(acc: Seq<ElemVal>, xs: Seq<ElemVal>) -> Seq<ElemVal>
    decreases xs.len(),
{
    if xs.len() == 0 {
        acc
    } else if acc.contains(xs[0]) {
        insert_unique(acc, xs.drop_first())
    } else {
        insert_unique(acc.push(xs[0]), xs.drop_first())
    }
}

/// The row `array_union` produces for two present rows: the first row's
/// values then the second's, each kept at its first appearance.
pub open spec fn union_row(a: Seq<ElemVal>, b: Seq<ElemVal>) -> Seq<ElemVal> {
    insert_unique(insert_unique(Seq::empty(), a), b)
}

/// The row `array_except` produces, left of `except_rec`: scan the first
/// row in order and keep each value not excluded yet; every kept value
/// excludes its repeats.
pub open spec fn except_rec(a: Seq<ElemVal>, excl: Seq<ElemVal>) -> Seq<ElemVal>
    decreases a.len(),
{
    if a.len() == 0 {
        Seq::empty()
    } else if excl.contains(a[0]) {
        except_rec(a.drop_first(), excl)
    } else {
        seq![a[0]] + except_rec(a.drop_first(), excl.push(a[0]))
    }
}

/// The row `array_except` produces for a present first row: the first
/// row's values not in the second row, first appearances only.  A null
/// second row excludes nothing.
pub open spec fn except_row(a: Seq<ElemVal>, b_row: ElemVal) -> Seq<ElemVal> {
    match b_row {
        ElemVal::List(b) => except_rec(a, b),
        _ => except_rec(a, Seq::empty()),
    }
}

/// Insert the elements of `src` into `u`, skipping values already there.
#[verifier::loop_isolation(false)]
fn push_unique(u: Vec<Elem>, src: &Vec<Elem>, goal: Ghost<Seq<ElemVal>>) -> (r: Vec<Elem>)
    requires
        insert_unique(elems_val(u@), elems_val(src@)) == goal@,
    ensures
        elems_val(r@) == goal@,
{
    let mut u = u;
    let n = src.len();
    proof {
        assert(elems_val(src@).skip(0) =~= elems_val(src@));
    }
    for j in 0..n
        invariant
            insert_unique(elems_val(u@), elems_val(src@).skip(j as int)) == goal@,
    {
        let ghost uv = elems_val(u@);
        let ghost rest = elems_val(src@).skip(j as int);
        proof {
            assert(rest[0] == elems_val(src@)[j as int]);
            assert(rest.drop_first() =~= elems_val(src@).skip(j as int + 1));
        }
        if !elems_contains(&u, &src[j]) {
            u.push(crate::model::elem_clone(&src[j]));
            proof {
                assert(elems_val(u@) =~= uv.push(elems_val(src@)[j as int]));
            }
        }
    }
    proof {
        assert(elems_val(src@).skip(n as int) =~= Seq::<ElemVal>::empty());
    }
    u
}

/// The argument shape `array_union` accepts.
pub open spec fn union_args_ok(args: Seq<Value>) -> bool {
    &&& args.len() == 2
    &&& (args[0] is Null || args[1] is Null || {
        &&& args[0] matches Value::List(l)
        &&& args[1] matches Value::List(r)
        &&& (l.values.spec_ty() == r.values.spec_ty() || l.values.spec_ty() is Null
            || r.values.spec_ty() is Null)
    })
}

/// What `array_union` owes when both sides take part: per paired row,
/// the union in first-seen order, null when either row is null.
pub open spec fn union_output_ok(a: Value, b: Value, out: Value) -> bool {
    &&& out.vals().len() == a.spec_len()
    &&& forall|i: int|
        0 <= i < out.vals().len() ==> out.vals()[i] == (if a.vals()[i] is Null || b.vals()[i]
            is Null {
            ElemVal::Null
        } else {
            ElemVal::List(union_row(a.vals()[i]->List_0, b.vals()[i]->List_0))
        })
}

/// Per paired row, the values of the first row then of the second, each
/// kept at its first appearance.  A null row on either side gives a null
/// row.  A side of the untyped-null type, or with an untyped-null
/// element type, leaves the other side as the result.
#[verifier::loop_isolation(false)]
pub fn array_union(args: &Vec<Value>) -> (r: Result<Value, ArrayError>)
    requires
        forall|i: int| 0 <= i < args@.len() ==> (#[trigger] args@[i]).wf(),
        union_args_ok(args@) ==> args@[0].spec_len() == args@[1].spec_len(),
    ensures
        r is Ok <==> union_args_ok(args@),
        r matches Ok(out) ==> out.wf() && (if args@[0] is Null {
            out.vals() == args@[1].vals() && out.spec_ty() == args@[1].spec_ty()
        } else if args@[1] is Null {
            out.vals() == args@[0].vals() && out.spec_ty() == args@[0].spec_ty()
        } else if args@[0]->List_0.values.spec_ty() is Null {
            out.vals() == args@[1].vals() && out.spec_ty() == args@[1].spec_ty()
        } else if args@[1]->List_0.values.spec_ty() is Null {
            out.vals() == args@[0].vals() && out.spec_ty() == args@[0].spec_ty()
        } else {
            out.spec_ty() == args@[0].spec_ty() && union_output_ok(args@[0], args@[1], out)
        }),
        r matches Err(e) ==> (if args@.len() != 2 {
            e is Plan
        } else if args@[0] is List && args@[1] is List {
            e is Plan
        } else {
            e is Internal
        }),
{
    if args.len() != 2 {
        return Err(ArrayError::Plan("array_union expects two arguments".to_owned()));
    }
    if matches!(&args[0], Value::Null(_)) {
        return Ok(crate::arena::value_clone(&args[1]));
    }
    if matches!(&args[1], Value::Null(_)) {
        return Ok(crate::arena::value_clone(&args[0]));
    }
    let (l, rr): (&ListCol, &ListCol) = match (&args[0], &args[1]) {
        (Value::List(l), Value::List(r)) => (l, r),
        _ => {
            return Err(ArrayError::Internal("array_union expects list columns".to_owned()));
        },
    };
    if matches!(&l.values, Value::Null(_)) {
        return Ok(crate::arena::value_clone(&args[1]));
    }
    if matches!(&rr.values, Value::Null(_)) {
        return Ok(crate::arena::value_clone(&args[0]));
    }
    let lt = l.values.ty();
    let rt = rr.values.ty();
    if !crate::model::ty_eq(&lt, &rt) {
        return Err(ArrayError::Plan("array_union received incompatible types".to_owned()));
    }
    let ghost a_vals = args@[0].vals();
    let ghost b_vals = args@[1].vals();
    proof {
        lemma_vals_len(args@[0]);
        lemma_vals_len(args@[1]);
    }
    let out_ty = Ty::List(Box::new(lt));
    let mut out = new_empty_value(&out_ty);
    let rc = l.row_count();
    for i in 0..rc
        invariant
            out.wf(),
            out.spec_ty() == Ty::List(Box::new(l.values.spec_ty())),
            out.vals().len() == i,
            forall|k: int|
                0 <= k < i ==> out.vals()[k] == (if a_vals[k] is Null || b_vals[k] is Null {
                    ElemVal::Null
                } else {
                    ElemVal::List(union_row(a_vals[k]->List_0, b_vals[k]->List_0))
                }),
    {
        proof {
            lemma_vals_len(out);
        }
        let ra = read_row(l, i);
        let rb = read_row(rr, i);
        match (ra, rb) {
            (Some(av), Some(bv)) => {
                let ghost goal = union_row(a_vals[i as int]->List_0, b_vals[i as int]->List_0);
                let ghost mid = insert_unique(Seq::empty(), elems_val(av@));
                let u: Vec<Elem> = Vec::new();
                proof {
                    assert(elems_val(u@) =~= Seq::<ElemVal>::empty());
                }
                let u = push_unique(u, &av, Ghost(mid));
                let u = push_unique(u, &bv, Ghost(goal));
                let row_elem = Elem::List(u);
                proof {
                    assert(row_elem.val() matches ElemVal::List(s) && s =~= goal);
                    lemma_insert_unique_members(Seq::empty(), elems_val(av@));
                    lemma_insert_unique_members(mid, elems_val(bv@));
                    lemma_vals_fit(Value::List(Box::new(*l)));
                    lemma_vals_fit(Value::List(Box::new(*rr)));
                    assert(fits(a_vals[i as int], Ty::List(Box::new(l.values.spec_ty()))));
                    assert(fits(b_vals[i as int], Ty::List(Box::new(rr.values.spec_ty()))));
                    assert forall|k: int| 0 <= k < goal.len() implies fits(
                        #[trigger] goal[k],
                        l.values.spec_ty(),
                    ) by {
                        assert(goal.contains(goal[k]));
                        if elems_val(av@).contains(goal[k]) {
                            let m = choose|m: int|
                                0 <= m < av@.len() && elems_val(av@)[m] == goal[k];
                            assert(fits(a_vals[i as int]->List_0[m], l.values.spec_ty()));
                        } else {
                            let m = choose|m: int|
                                0 <= m < bv@.len() && elems_val(bv@)[m] == goal[k];
                            assert(fits(b_vals[i as int]->List_0[m], rr.values.spec_ty()));
                        }
                    }
                }
                out = value_push_elem(out, &row_elem);
            },
            _ => {
                out = value_extend_nulls(out, 1);
            },
        }
    }
    Ok(out)
}

/// Membership in a one-element prefix concatenation.
proof fn lemma_contains_cons(x: ElemVal, rest: Seq<ElemVal>, v: ElemVal)
    ensures
        (seq![x] + rest).contains(v) <==> (v == x || rest.contains(v)),
{
    let s = seq![x] + rest;
    if s.contains(v) {
        let i = choose|i: int| 0 <= i < s.len() && s[i] == v;
        if i > 0 {
            assert(rest[i - 1] == v);
            assert(rest.contains(v));
        }
    }
    if rest.contains(v) {
        let i = choose|i: int| 0 <= i < rest.len() && rest[i] == v;
        assert(s[i + 1] == v);
        assert(s.contains(v));
    }
    if v == x {
        assert(s[0] == v);
        assert(s.contains(v));
    }
}

/// Everything `except_rec` keeps comes from its first argument.
proof fn lemma_except_members(a: Seq<ElemVal>, excl: Seq<ElemVal>)
    ensures
        forall|v: ElemVal| #[trigger] except_rec(a, excl).contains(v) ==> a.contains(v),
    decreases a.len(),
{
    if a.len() > 0 {
        if excl.contains(a[0]) {
            lemma_except_members(a.drop_first(), excl);
            assert forall|v: ElemVal| #[trigger]
                except_rec(a, excl).contains(v) implies a.contains(v) by {
                assert(except_rec(a, excl) == except_rec(a.drop_first(), excl));
                assert(except_rec(a.drop_first(), excl).contains(v));
                assert(a.drop_first().contains(v));
                lemma_contains_head_tail(a, v);
            }
        } else {
            lemma_except_members(a.drop_first(), excl.push(a[0]));
            assert forall|v: ElemVal| #[trigger]
                except_rec(a, excl).contains(v) implies a.contains(v) by {
                lemma_contains_cons(a[0], except_rec(a.drop_first(), excl.push(a[0])), v);
                if v != a[0] {
                    assert(except_rec(a.drop_first(), excl.push(a[0])).contains(v));
                    assert(a.drop_first().contains(v));
                }
                lemma_contains_head_tail(a, v);
            }
        }
    }
}

/// Compute one `array_except` row: the kept values of `av`, excluding
/// repeats and everything in `excl`.
#[verifier::loop_isolation(false)]
fn except_one_row(av: &Vec<Elem>, excl: Vec<Elem>) -> (out: Vec<Elem>)
    ensures
        elems_val(out@) == except_rec(elems_val(av@), elems_val(excl@)),
{
    let ghost a_elems = elems_val(av@);
    let ghost goal = except_rec(elems_val(av@), elems_val(excl@));
    let mut excl = excl;
    let mut out: Vec<Elem> = Vec::new();
    let n = av.len();
    proof {
        assert(a_elems.skip(0) =~= a_elems);
        assert(elems_val(out@) =~= Seq::<ElemVal>::empty());
    }
    for j in 0..n
        invariant
            goal == elems_val(out@) + except_rec(a_elems.skip(j as int), elems_val(excl@)),
    {
        let ghost rest = a_elems.skip(j as int);
        let ghost ov = elems_val(out@);
        let ghost xv = elems_val(excl@);
        proof {
            assert(rest[0] == a_elems[j as int]);
            assert(rest.drop_first() =~= a_elems.skip(j as int + 1));
        }
        if !elems_contains(&excl, &av[j]) {
            out.push(crate::model::elem_clone(&av[j]));
            excl.push(crate::model::elem_clone(&av[j]));
            proof {
                assert(elems_val(out@) =~= ov.push(a_elems[j as int]));
                assert(elems_val(excl@) =~= xv.push(a_elems[j as int]));
                assert(except_rec(rest, xv) == seq![a_elems[j as int]] + except_rec(
                    rest.drop_first(),
                    xv.push(a_elems[j as int]),
                ));
                assert(ov + (seq![a_elems[j as int]] + except_rec(
                    a_elems.skip(j as int + 1),
                    elems_val(excl@),
                )) =~= ov.push(a_elems[j as int]) + except_rec(
                    a_elems.skip(j as int + 1),
                    elems_val(excl@),
                ));
            }
        }
    }
    proof {
        assert(a_elems.skip(n as int) =~= Seq::<ElemVal>::empty());
        assert(elems_val(out@) + Seq::<ElemVal>::empty() =~= elems_val(out@));
    }
    out
}

/// The argument shape `array_except` accepts.
pub open spec fn except_args_ok(args: Seq<Value>) -> bool {
    &&& args.len() == 2
    &&& (args[0] is Null || args[1] is Null || {
        &&& args[0] matches Value::List(l)
        &&& args[1] matches Value::List(r)
        &&& l.values.spec_ty() == r.values.spec_ty()
    })
}

/// What `array_except` owes when both sides take part: per paired row,
/// the first row's values not in the second, null mask carried over from
/// the first side.
pub open spec fn except_output_ok(a: Value, b: Value, out: Value) -> bool {
    &&& out.vals().len() == a.spec_len()
    &&& forall|i: int|
        0 <= i < out.vals().len() ==> out.vals()[i] == (if a.vals()[i] is Null {
            ElemVal::Null
        } else {
            ElemVal::List(except_row(a.vals()[i]->List_0, b.vals()[i]))
        })
}

/// Per paired row, the first row's values that do not appear in the
/// second row, each kept at its first appearance.  A null first row
/// stays null; with an argument of the untyped-null type the first
/// argument is returned unchanged.
#[verifier::loop_isolation(false)]
pub fn array_except(args: &Vec<Value>) -> (r: Result<Value, ArrayError>)
    requires
        forall|i: int| 0 <= i < args@.len() ==> (#[trigger] args@[i]).wf(),
        except_args_ok(args@) ==> args@[0].spec_len() == args@[1].spec_len(),
    ensures
        r is Ok <==> except_args_ok(args@),
        r matches Ok(out) ==> out.wf() && (if args@[0] is Null || args@[1] is Null {
            out.vals() == args@[0].vals() && out.spec_ty() == args@[0].spec_ty()
        } else {
            out.spec_ty() == args@[0].spec_ty() && except_output_ok(args@[0], args@[1], out)
        }),
        r matches Err(e) ==> (if args@.len() != 2 {
            e is Plan
        } else if args@[0] is List && args@[1] is List {
            e is Plan
        } else {
            e is Internal
        }),
{
    if args.len() != 2 {
        return Err(ArrayError::Plan("array_except expects two arguments".to_owned()));
    }
    if matches!(&args[0], Value::Null(_)) || matches!(&args[1], Value::Null(_)) {
        return Ok(crate::arena::value_clone(&args[0]));
    }
    let (l, rr): (&ListCol, &ListCol) = match (&args[0], &args[1]) {
        (Value::List(l), Value::List(r)) => (l, r),
        _ => {
            return Err(ArrayError::Internal("array_except expects list columns".to_owned()));
        },
    };
    let lt = l.values.ty();
    let rt = rr.values.ty();
    if !crate::model::ty_eq(&lt, &rt) {
        return Err(ArrayError::Plan("array_except received incompatible types".to_owned()));
    }
    let ghost a_vals = args@[0].vals();
    let ghost b_vals = args@[1].vals();
    proof {
        lemma_vals_len(args@[0]);
        lemma_vals_len(args@[1]);
    }
    let out_ty = Ty::List(Box::new(lt));
    let mut out = new_empty_value(&out_ty);
    let rc = l.row_count();
    for i in 0..rc
        invariant
            out.wf(),
            out.spec_ty() == Ty::List(Box::new(l.values.spec_ty())),
            out.vals().len() == i,
            forall|k: int|
                0 <= k < i ==> out.vals()[k] == (if a_vals[k] is Null {
                    ElemVal::Null
                } else {
                    ElemVal::List(except_row(a_vals[k]->List_0, b_vals[k]))
                }),
    {
        proof {
            lemma_vals_len(out);
        }
        match read_row(l, i) {
            None => {
                out = value_extend_nulls(out, 1);
            },
            Some(av) => {
                let excl: Vec<Elem> = match read_row(rr, i) {
                    Some(bv) => bv,
                    None => Vec::new(),
                };
                let ghost xv = elems_val(excl@);
                proof {
                    assert(match b_vals[i as int] {
                        ElemVal::List(s) => xv =~= s,
                        _ => xv =~= Seq::<ElemVal>::empty(),
                    });
                }
                let u = except_one_row(&av, excl);
                let ghost goal = except_row(a_vals[i as int]->List_0, b_vals[i as int]);
                let row_elem = Elem::List(u);
                proof {
                    assert(row_elem.val() matches ElemVal::List(s) && s =~= goal);
                    lemma_except_members(elems_val(av@), xv);
                    lemma_vals_fit(Value::List(Box::new(*l)));
                    assert(fits(a_vals[i as int], Ty::List(Box::new(l.values.spec_ty()))));
                    assert forall|k: int| 0 <= k < goal.len() implies fits(
                        #[trigger] goal[k],
                        l.values.spec_ty(),
                    ) by {
                        assert(goal.contains(goal[k]));
                        assert(elems_val(av@).contains(goal[k]));
                        let m = choose|m: int| 0 <= m < av@.len() && elems_val(av@)[m] == goal[k];
                        assert(fits(a_vals[i as int]->List_0[m], l.values.spec_ty()));
                    }
                }
                out = value_push_elem(out, &row_elem);
            },
        }
    }
    Ok(out)
}

/// The row pairs both of whose rows are present, in order.
pub open spec fn valid_pairs(a: Seq<ElemVal>, b: Seq<ElemVal>) -> Seq<(ElemVal, ElemVal)>
    decreases a.len(),
{
    if a.len() == 0 || b.len() == 0 {
        Seq::empty()
    } else if a.last() is Null || b.last() is Null {
        valid_pairs(a.drop_last(), b.drop_last())
    } else {
        valid_pairs(a.drop_last(), b.drop_last()).push((a.last(), b.last()))
    }
}

/// What `array_intersect` owes: for each pair of present rows, the
/// common values, sorted in the canonical order, without duplicates.
/// Pairs with a null row are dropped.
pub open spec fn intersect_output_ok(a: Value, b: Value, out: Value) -> bool {
    let ps = valid_pairs(a.vals(), b.vals());
    &&& out.vals().len() == ps.len()
    &&& forall|i: int|
        0 <= i < ps.len() ==> ((#[trigger] out.vals()[i]) matches ElemVal::List(r)
            && sorted_vals(r) && nodup_vals(r) && (forall|v: ElemVal|
            r.contains(v) <==> (ps[i].0->List_0.contains(v) && ps[i].1->List_0.contains(v))))
}

/// Keep, in order, the elements of the sorted duplicate-free row `sd`
/// that also appear in `av`.
#[verifier::loop_isolation(false)]
fn filter_members(sd: &Vec<Elem>, av: &Vec<Elem>) -> (out: Vec<Elem>)
    requires
        sorted_vals(elems_val(sd@)),
        nodup_vals(elems_val(sd@)),
    ensures
        sorted_vals(elems_val(out@)),
        nodup_vals(elems_val(out@)),
        forall|v: ElemVal|
            elems_val(out@).contains(v) <==> (elems_val(sd@).contains(v) && elems_val(
                av@,
            ).contains(v)),
{
    let ghost sdv = elems_val(sd@);
    let ghost avv = elems_val(av@);
    let mut out: Vec<Elem> = Vec::new();
    let n = sd.len();
    proof {
        assert(elems_val(out@) =~= Seq::<ElemVal>::empty());
        assert(sdv.subrange(0, 0) =~= Seq::<ElemVal>::empty());
    }
    for j in 0..n
        invariant
            sorted_vals(elems_val(out@)),
            nodup_vals(elems_val(out@)),
            forall|v: ElemVal|
                elems_val(out@).contains(v) <==> (sdv.subrange(0, j as int).contains(v)
                    && avv.contains(v)),
            forall|k: int|
                0 <= k < out@.len() ==> sdv.subrange(0, j as int).contains(
                    #[trigger] elems_val(out@)[k],
                ),
    {
        let ghost ov = elems_val(out@);
        let ghost pre = sdv.subrange(0, j as int);
        let ghost post = sdv.subrange(0, j as int + 1);
        proof {
            assert(post =~= pre.push(sdv[j as int]));
        }
        if elems_contains(av, &sd[j]) {
            out.push(crate::model::elem_clone(&sd[j]));
            proof {
                assert(elems_val(out@) =~= ov.push(sdv[j as int]));
                assert forall|a: int, b: int|
                    0 <= a < b < elems_val(out@).len() implies le_val(
                    elems_val(out@)[a],
                    elems_val(out@)[b],
                ) && elems_val(out@)[a] != elems_val(out@)[b] by {
                    if b == ov.len() {
                        assert(pre.contains(ov[a]));
                        let m = choose|m: int| 0 <= m < pre.len() && pre[m] == ov[a];
                        assert(sdv[m] == ov[a]);
                        assert(le_val(sdv[m], sdv[j as int]));
                        assert(sdv[m] != sdv[j as int]);
                    }
                }
                assert forall|v: ElemVal|
                    elems_val(out@).contains(v) <==> (post.contains(v) && avv.contains(v)) by {
                    lemma_contains_push(ov, sdv[j as int], v);
                    lemma_contains_push(pre, sdv[j as int], v);
                }
                assert forall|k: int| 0 <= k < out@.len() implies post.contains(
                    #[trigger] elems_val(out@)[k],
                ) by {
                    lemma_contains_push(pre, sdv[j as int], elems_val(out@)[k]);
                }
            }
        } else {
            proof {
                assert forall|v: ElemVal|
                    elems_val(out@).contains(v) <==> (post.contains(v) && avv.contains(v)) by {
                    lemma_contains_push(pre, sdv[j as int], v);
                }
                assert forall|k: int| 0 <= k < out@.len() implies post.contains(
                    #[trigger] elems_val(out@)[k],
                ) by {
                    lemma_contains_push(pre, sdv[j as int], elems_val(out@)[k]);
                }
            }
        }
    }
    proof {
        assert(sdv.subrange(0, n as int) =~= sdv);
    }
    out
}

/// The argument shape `array_intersect` accepts.
pub open spec fn intersect_args_ok(args: Seq<Value>) -> bool {
    &&& args.len() == 2
    &&& (args[0] is Null || args[1] is Null || {
        &&& args[0] matches Value::List(l)
        &&& args[1] matches Value::List(r)
        &&& l.values.spec_ty() == r.values.spec_ty()
    })
}

/// Per pair of present rows, the values common to both rows, sorted in
/// the canonical order without duplicates; pairs with a null row are
/// dropped.  With an argument of the untyped-null type the other
/// argument is returned unchanged.
#[verifier::loop_isolation(false)]
pub fn array_intersect(args: &Vec<Value>) -> (r: Result<Value, ArrayError>)
    requires
        forall|i: int| 0 <= i < args@.len() ==> (#[trigger] args@[i]).wf(),
        intersect_args_ok(args@) ==> args@[0].spec_len() == args@[1].spec_len(),
    ensures
        r is Ok <==> intersect_args_ok(args@),
        r matches Ok(out) ==> out.wf() && (if args@[0] is Null {
            out.vals() == args@[1].vals() && out.spec_ty() == args@[1].spec_ty()
        } else if args@[1] is Null {
            out.vals() == args@[0].vals() && out.spec_ty() == args@[0].spec_ty()
        } else {
            out.spec_ty() == args@[0].spec_ty() && intersect_output_ok(args@[0], args@[1], out)
        }),
        r matches Err(e) ==> (if args@.len() != 2 {
            e is Plan
        } else if args@[0] is List && args@[1] is List {
            e is Plan
        } else {
            e is Internal
        }),
{
    if args.len() != 2 {
        return Err(ArrayError::Plan("array_intersect expects two arguments".to_owned()));
    }
    if matches!(&args[0], Value::Null(_)) {
        return Ok(crate::arena::value_clone(&args[1]));
    }
    if matches!(&args[1], Value::Null(_)) {
        return Ok(crate::arena::value_clone(&args[0]));
    }
    let (l, rr): (&ListCol, &ListCol) = match (&args[0], &args[1]) {
        (Value::List(l), Value::List(r)) => (l, r),
        _ => {
            return Err(ArrayError::Internal("array_intersect expects list columns".to_owned()));
        },
    };
    let lt = l.values.ty();
    let rt = rr.values.ty();
    if !crate::model::ty_eq(&lt, &rt) {
        return Err(ArrayError::Plan("array_intersect received incompatible types".to_owned()));
    }
    let ghost a_vals = args@[0].vals();
    let ghost b_vals = args@[1].vals();
    proof {
        lemma_vals_len(args@[0]);
        lemma_vals_len(args@[1]);
    }
    let out_ty = Ty::List(Box::new(lt));
    let mut out = new_empty_value(&out_ty);
    let rc = l.row_count();
    proof {
        assert(a_vals.subrange(0, 0) =~= Seq::<ElemVal>::empty());
        assert(valid_pairs(a_vals.subrange(0, 0), b_vals.subrange(0, 0)) =~= Seq::<(
            ElemVal,
            ElemVal,
        )>::empty());
    }
    for i in 0..rc
        invariant
            out.wf(),
            out.spec_ty() == Ty::List(Box::new(l.values.spec_ty())),
            out.vals().len() == valid_pairs(
                a_vals.subrange(0, i as int),
                b_vals.subrange(0, i as int),
            ).len(),
            forall|k: int|
                0 <= k < out.vals().len() ==> ((#[trigger] out.vals()[k]) matches ElemVal::List(r)
                    && sorted_vals(r) && nodup_vals(r) && (forall|v: ElemVal|
                    r.contains(v) <==> (valid_pairs(
                        a_vals.subrange(0, i as int),
                        b_vals.subrange(0, i as int),
                    )[k].0->List_0.contains(v) && valid_pairs(
                        a_vals.subrange(0, i as int),
                        b_vals.subrange(0, i as int),
                    )[k].1->List_0.contains(v)))),
    {
        proof {
            lemma_vals_len(out);
            assert(a_vals.subrange(0, i as int + 1).drop_last() =~= a_vals.subrange(0, i as int));
            assert(b_vals.subrange(0, i as int + 1).drop_last() =~= b_vals.subrange(0, i as int));
        }
        let ra = read_row(l, i);
        let rb = read_row(rr, i);
        match (ra, rb) {
            (Some(av), Some(bv)) => {
                let sd = sort_dedup_row(&bv);
                let u = filter_members(&sd, &av);
                let ghost uv = elems_val(u@);
                let row_elem = Elem::List(u);
                proof {
                    assert(row_elem.val() matches ElemVal::List(s) && s =~= uv);
                    lemma_vals_fit(Value::List(Box::new(*rr)));
                    assert(fits(b_vals[i as int], Ty::List(Box::new(rr.values.spec_ty()))));
                    assert forall|k: int| 0 <= k < uv.len() implies fits(
                        #[trigger] uv[k],
                        l.values.spec_ty(),
                    ) by {
                        assert(uv.contains(uv[k]));
                        assert(b_vals[i as int]->List_0.contains(uv[k]));
                        let m = choose|m: int|
                            0 <= m < b_vals[i as int]->List_0.len() && b_vals[i as int]->List_0[m]
                                == uv[k];
                        assert(fits(b_vals[i as int]->List_0[m], rr.values.spec_ty()));
                    }
                }
                out = value_push_elem(out, &row_elem);
            },
            _ => {
            },
        }
    }
    proof {
        assert(a_vals.subrange(0, rc as int) =~= a_vals);
        assert(b_vals.subrange(0, rc as int) =~= b_vals);
    }
    Ok(out)
}

/// The argument shape `array_distinct` accepts: one column, of the
/// untyped-null type (returned unchanged) or a list type.
pub open spec fn distinct_args_ok(args: Seq<Value>) -> bool {
    args.len() == 1 && (args[0] is Null || args[0] is List)
}

/// Per row, the distinct values of the row, sorted in the canonical
/// order; null rows are dropped.  A column of the untyped-null type
/// passes through unchanged.
pub fn array_distinct(args: &Vec<Value>) -> (r: Result<Value, ArrayError>)
    requires
        forall|i: int| 0 <= i < args@.len() ==> (#[trigger] args@[i]).wf(),
    ensures
        r is Ok <==> distinct_args_ok(args@),
        r matches Ok(out) ==> out.wf() && (if args@[0] is Null {
            out.vals() == args@[0].vals() && out.spec_ty() == args@[0].spec_ty()
        } else {
            args@[0] matches Value::List(b) && out.spec_ty() == args@[0].spec_ty()
                && distinct_output_ok(b.rows_val(), out)
        }),
        r matches Err(e) ==> (if args@.len() != 1 {
            e is Plan
        } else {
            e is Internal
        }),
{
    if args.len() != 1 {
        return Err(ArrayError::Plan("array_distinct expects one argument".to_owned()));
    }
    match &args[0] {
        Value::Null(_) => Ok(crate::arena::value_clone(&args[0])),
        Value::List(b) => {
            let out = general_array_distinct(b);
            proof {
                assert(args@[0].spec_ty() == Ty::List(Box::new(b.values.spec_ty())));
            }
            Ok(out)
        },
        _ => Err(ArrayError::Internal("array_distinct expects a list column".to_owned())),
    }
}

} // verus!
