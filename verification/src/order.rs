//! Canonical total order on element values.  Null sorts first; values of
//! one kind compare by their natural order (booleans false before true,
//! integers numerically, text lexicographically by scalar value, lists
//! lexicographically element by element).  Equal values compare equal, so
//! the order serves both sorting and null-safe equality.

use vstd::prelude::*;
use vstd::string::StrSliceExecFns;

use crate::model::{lemma_elem_member_decreases, Elem, ElemVal};

verus! {

/// Outcome of comparing two element values.
pub enum Ord3 {
    Lt,
    Eq,
    Gt,
}

/// The opposite outcome.
pub open spec fn flip(o: Ord3) -> Ord3 {
    match o {
        Ord3::Lt => Ord3::Gt,
        Ord3::Eq => Ord3::Eq,
        Ord3::Gt => Ord3::Lt,
    }
}

/// Rank of an element kind in the cross-kind order; null ranks first.
/// Two values of one kind share a rank; values of different kinds order
/// by rank.
pub open spec fn rank(v: ElemVal) -> int {
    match v {
        ElemVal::Null => 0,
        ElemVal::Bool(_) => 1,
        ElemVal::Int(_) => 2,
        ElemVal::Str(_) => 3,
        ElemVal::List(_) => 4,
    }
}

/// Lexicographic order on text, by unicode scalar value.
pub open spec fn cmp_chars(x: Seq<char>, y: Seq<char>) -> Ord3
    decreases x.len(),
{
    if x.len() == 0 && y.len() == 0 {
        Ord3::Eq
    } else if x.len() == 0 {
        Ord3::Lt
    } else if y.len() == 0 {
        Ord3::Gt
    } else if x[0] < y[0] {
        Ord3::Lt
    } else if y[0] < x[0] {
        Ord3::Gt
    } else {
        cmp_chars(x.drop_first(), y.drop_first())
    }
}

/// The canonical order on element values.
pub open spec fn cmp_val(a: ElemVal, b: ElemVal) -> Ord3
    decreases a, b,
{
    match (a, b) {
        (ElemVal::Null, ElemVal::Null) => Ord3::Eq,
        (ElemVal::Bool(x), ElemVal::Bool(y)) => if x == y {
            Ord3::Eq
        } else if !x {
            Ord3::Lt
        } else {
            Ord3::Gt
        },
        (ElemVal::Int(x), ElemVal::Int(y)) => if x < y {
            Ord3::Lt
        } else if x == y {
            Ord3::Eq
        } else {
            Ord3::Gt
        },
        (ElemVal::Str(x), ElemVal::Str(y)) => cmp_chars(x, y),
        (ElemVal::List(x), ElemVal::List(y)) => {
            proof {
                broadcast use vstd::seq::axiom_seq_index_decreases;

                assert(decreases_to!(a => x));
            }
            cmp_seq(x, y)
        },
        _ => if rank(a) < rank(b) {
            Ord3::Lt
        } else {
            Ord3::Gt
        },
    }
}

/// Lexicographic order on rows of element values.
pub open spec fn cmp_seq(x: Seq<ElemVal>, y: Seq<ElemVal>) -> Ord3
    decreases x, y,
{
    if x.len() == 0 && y.len() == 0 {
        Ord3::Eq
    } else if x.len() == 0 {
        Ord3::Lt
    } else if y.len() == 0 {
        Ord3::Gt
    } else {
        proof {
            broadcast use vstd::seq::axiom_seq_index_decreases, vstd::seq::axiom_seq_subrange_decreases;

            assert(decreases_to!(x => x[0]));
            assert(x.drop_first().len() < x.len());
            assert(decreases_to!(x => x.drop_first()));
        }
        match cmp_val(x[0], y[0]) {
            Ord3::Eq => cmp_seq(x.drop_first(), y.drop_first()),
            c => c,
        }
    }
}

/// Non-strict order: `a` sorts no later than `b`.
pub open spec fn le_val(a: ElemVal, b: ElemVal) -> bool {
    !(cmp_val(a, b) is Gt)
}

/// Text compares equal exactly when it is equal.
pub proof fn lemma_cmp_chars_eq(x: Seq<char>, y: Seq<char>)
    ensures
        (cmp_chars(x, y) is Eq) <==> x == y,
    decreases x.len(),
{
    if x.len() == 0 && y.len() == 0 {
        assert(x =~= y);
        assert((cmp_chars(x, y) is Eq) <==> x == y);
    } else if x.len() == 0 || y.len() == 0 {
        assert(x.len() != y.len());
        assert((cmp_chars(x, y) is Eq) <==> x == y);
    } else if !(x[0] < y[0]) && !(y[0] < x[0]) {
        lemma_cmp_chars_eq(x.drop_first(), y.drop_first());
        assert(x =~= seq![x[0]] + x.drop_first());
        assert(y =~= seq![y[0]] + y.drop_first());
        assert(x[0] == y[0]);
    } else {
        assert(x[0] != y[0]);
    }
}

/// Comparing text one way is the flip of comparing it the other way.
pub proof fn lemma_cmp_chars_antisym(x: Seq<char>, y: Seq<char>)
    ensures
        cmp_chars(x, y) == flip(cmp_chars(y, x)),
    decreases x.len(),
{
    if x.len() > 0 && y.len() > 0 && !(x[0] < y[0]) && !(y[0] < x[0]) {
        lemma_cmp_chars_antisym(x.drop_first(), y.drop_first());
    }
}

/// Strict text order is transitive.
pub proof fn lemma_cmp_chars_trans(x: Seq<char>, y: Seq<char>, z: Seq<char>)
    requires
        cmp_chars(x, y) is Lt,
        cmp_chars(y, z) is Lt,
    ensures
        cmp_chars(x, z) is Lt,
    decreases x.len(), y.len(), z.len(),
{
    if x.len() == 0 {
        assert(z.len() > 0);
    } else {
        assert(y.len() > 0 && z.len() > 0);
        if !(x[0] < y[0]) && !(y[0] < x[0]) && !(y[0] < z[0]) && !(z[0] < y[0]) {
            lemma_cmp_chars_trans(x.drop_first(), y.drop_first(), z.drop_first());
        }
    }
}

/// Element values compare equal exactly when they are equal.
pub proof fn lemma_cmp_val_eq(a: ElemVal, b: ElemVal)
    ensures
        (cmp_val(a, b) is Eq) <==> a == b,
    decreases a, b,
{
    broadcast use vstd::seq::axiom_seq_index_decreases, vstd::seq::axiom_seq_subrange_decreases;

    match (a, b) {
        (ElemVal::Str(x), ElemVal::Str(y)) => {
            lemma_cmp_chars_eq(x, y);
        },
        (ElemVal::List(x), ElemVal::List(y)) => {
            assert(decreases_to!(a => x));
            lemma_cmp_seq_eq(x, y);
        },
        _ => {},
    }
}

/// Rows compare equal exactly when they are equal.
pub proof fn lemma_cmp_seq_eq(x: Seq<ElemVal>, y: Seq<ElemVal>)
    ensures
        (cmp_seq(x, y) is Eq) <==> x == y,
    decreases x, y,
{
    broadcast use vstd::seq::axiom_seq_index_decreases, vstd::seq::axiom_seq_subrange_decreases;

    if x.len() == 0 && y.len() == 0 {
        assert(x =~= y);
    } else if x.len() == 0 || y.len() == 0 {
        assert(x.len() != y.len());
    } else {
        assert(decreases_to!(x => x[0]));
        assert(x.drop_first().len() < x.len());
        assert(decreases_to!(x => x.drop_first()));
        lemma_cmp_val_eq(x[0], y[0]);
        lemma_cmp_seq_eq(x.drop_first(), y.drop_first());
        if cmp_seq(x, y) is Eq {
            assert(x =~= seq![x[0]] + x.drop_first());
            assert(y =~= seq![y[0]] + y.drop_first());
        } else {
            if x == y {
                assert(x[0] == y[0]);
                assert(x.drop_first() =~= y.drop_first());
            }
        }
    }
}

/// Comparing one way is the flip of comparing the other way.
pub proof fn lemma_cmp_val_antisym(a: ElemVal, b: ElemVal)
    ensures
        cmp_val(a, b) == flip(cmp_val(b, a)),
    decreases a, b,
{
    broadcast use vstd::seq::axiom_seq_index_decreases, vstd::seq::axiom_seq_subrange_decreases;

    match (a, b) {
        (ElemVal::Str(x), ElemVal::Str(y)) => {
            lemma_cmp_chars_antisym(x, y);
        },
        (ElemVal::List(x), ElemVal::List(y)) => {
            assert(decreases_to!(a => x));
            lemma_cmp_seq_antisym(x, y);
        },
        _ => {},
    }
}

/// Comparing rows one way is the flip of comparing them the other way.
pub proof fn lemma_cmp_seq_antisym(x: Seq<ElemVal>, y: Seq<ElemVal>)
    ensures
        cmp_seq(x, y) == flip(cmp_seq(y, x)),
    decreases x, y,
{
    broadcast use vstd::seq::axiom_seq_index_decreases, vstd::seq::axiom_seq_subrange_decreases;

    if x.len() > 0 && y.len() > 0 {
        assert(decreases_to!(x => x[0]));
        assert(x.drop_first().len() < x.len());
        assert(decreases_to!(x => x.drop_first()));
        lemma_cmp_val_antisym(x[0], y[0]);
        if cmp_val(x[0], y[0]) is Eq {
            lemma_cmp_seq_antisym(x.drop_first(), y.drop_first());
        }
    }
}

/// The strict order on element values is transitive.
pub proof fn lemma_cmp_val_trans(a: ElemVal, b: ElemVal, c: ElemVal)
    requires
        cmp_val(a, b) is Lt,
        cmp_val(b, c) is Lt,
    ensures
        cmp_val(a, c) is Lt,
    decreases a, b, c,
{
    broadcast use vstd::seq::axiom_seq_index_decreases, vstd::seq::axiom_seq_subrange_decreases;

    match (a, b, c) {
        (ElemVal::Str(x), ElemVal::Str(y), ElemVal::Str(z)) => {
            lemma_cmp_chars_trans(x, y, z);
        },
        (ElemVal::List(x), ElemVal::List(y), ElemVal::List(z)) => {
            assert(decreases_to!(a => x));
            lemma_cmp_seq_trans(x, y, z);
        },
        _ => {},
    }
}

/// The strict order on rows is transitive.
pub proof fn lemma_cmp_seq_trans(x: Seq<ElemVal>, y: Seq<ElemVal>, z: Seq<ElemVal>)
    requires
        cmp_seq(x, y) is Lt,
        cmp_seq(y, z) is Lt,
    ensures
        cmp_seq(x, z) is Lt,
    decreases x, y, z,
{
    broadcast use vstd::seq::axiom_seq_index_decreases, vstd::seq::axiom_seq_subrange_decreases;

    if x.len() == 0 {
        assert(z.len() > 0);
    } else {
        assert(y.len() > 0 && z.len() > 0);
        assert(decreases_to!(x => x[0]));
        assert(x.drop_first().len() < x.len());
        assert(decreases_to!(x => x.drop_first()));
        lemma_cmp_val_eq(x[0], y[0]);
        lemma_cmp_val_eq(y[0], z[0]);
        lemma_cmp_val_eq(x[0], z[0]);
        match (cmp_val(x[0], y[0]), cmp_val(y[0], z[0])) {
            (Ord3::Eq, Ord3::Eq) => {
                lemma_cmp_seq_trans(x.drop_first(), y.drop_first(), z.drop_first());
            },
            (Ord3::Eq, Ord3::Lt) => {},
            (Ord3::Lt, Ord3::Eq) => {},
            (Ord3::Lt, Ord3::Lt) => {
                lemma_cmp_val_trans(x[0], y[0], z[0]);
                if cmp_val(x[0], z[0]) is Eq {
                    assert(x[0] == z[0]);
                    lemma_cmp_val_antisym(x[0], y[0]);
                }
            },
            _ => {},
        }
    }
}

/// The non-strict order is total.
pub proof fn lemma_le_total(a: ElemVal, b: ElemVal)
    ensures
        le_val(a, b) || le_val(b, a),
{
    lemma_cmp_val_antisym(a, b);
}

/// The non-strict order is transitive.
pub proof fn lemma_le_trans(a: ElemVal, b: ElemVal, c: ElemVal)
    requires
        le_val(a, b),
        le_val(b, c),
    ensures
        le_val(a, c),
{
    lemma_cmp_val_eq(a, b);
    lemma_cmp_val_eq(b, c);
    lemma_cmp_val_eq(a, c);
    if cmp_val(a, b) is Lt && cmp_val(b, c) is Lt {
        lemma_cmp_val_trans(a, b, c);
    }
}

/// Mutually ordered values are equal.
pub proof fn lemma_le_antisym(a: ElemVal, b: ElemVal)
    requires
        le_val(a, b),
        le_val(b, a),
    ensures
        a == b,
{
    lemma_cmp_val_antisym(a, b);
    lemma_cmp_val_eq(a, b);
}

/// Rank of an owned element's kind.
fn elem_rank(e: &Elem) -> (r: u8)
    ensures
        r as int == rank(e.val()),
{
    match e {
        Elem::Null => 0,
        Elem::Bool(_) => 1,
        Elem::Int(_) => 2,
        Elem::Str(_) => 3,
        Elem::List(_) => 4,
    }
}

/// Compare two text values in the canonical order.
#[verifier::loop_isolation(false)]
pub fn str_cmp(x: &str, y: &str) -> (r: Ord3)
    ensures
        r == cmp_chars(x@, y@),
{
    let xl = x.unicode_len();
    let yl = y.unicode_len();
    let mut i: usize = 0;
    proof {
        assert(x@.skip(0) =~= x@);
        assert(y@.skip(0) =~= y@);
    }
    loop
        invariant
            i <= xl,
            i <= yl,
            cmp_chars(x@, y@) == cmp_chars(x@.skip(i as int), y@.skip(i as int)),
        decreases xl - i,
    {
        if i == xl || i == yl {
            if xl == yl {
                return Ord3::Eq;
            } else if xl < yl {
                return Ord3::Lt;
            } else {
                return Ord3::Gt;
            }
        }
        let cx = x.get_char(i);
        let cy = y.get_char(i);
        proof {
            assert(x@.skip(i as int)[0] == x@[i as int]);
            assert(y@.skip(i as int)[0] == y@[i as int]);
        }
        if cx < cy {
            return Ord3::Lt;
        }
        if cy < cx {
            return Ord3::Gt;
        }
        proof {
            assert(x@.skip(i as int).drop_first() =~= x@.skip(i as int + 1));
            assert(y@.skip(i as int).drop_first() =~= y@.skip(i as int + 1));
        }
        i = i + 1;
    }
}

/// Compare two owned elements in the canonical order.
#[verifier::loop_isolation(false)]
pub fn elem_cmp(a: &Elem, b: &Elem) -> (r: Ord3)
    ensures
        r == cmp_val(a.val(), b.val()),
    decreases a,
{
    match (a, b) {
        (Elem::Null, Elem::Null) => Ord3::Eq,
        (Elem::Bool(x), Elem::Bool(y)) => {
            if *x == *y {
                Ord3::Eq
            } else if !*x {
                Ord3::Lt
            } else {
                Ord3::Gt
            }
        },
        (Elem::Int(x), Elem::Int(y)) => {
            if *x < *y {
                Ord3::Lt
            } else if *x == *y {
                Ord3::Eq
            } else {
                Ord3::Gt
            }
        },
        (Elem::Str(x), Elem::Str(y)) => str_cmp(x.as_str(), y.as_str()),
        (Elem::List(x), Elem::List(y)) => {
            let ghost xs = a.val()->List_0;
            let ghost ys = b.val()->List_0;
            let xl = x.len();
            let yl = y.len();
            proof {
                assert(xs.len() == xl && ys.len() == yl);
            }
            let mut i: usize = 0;
            proof {
                assert(xs.skip(0) =~= xs);
                assert(ys.skip(0) =~= ys);
            }
            loop
                invariant
                    i <= xl,
                    i <= yl,
                    cmp_seq(xs, ys) == cmp_seq(xs.skip(i as int), ys.skip(i as int)),
                decreases xl - i,
            {
                if i == xl || i == yl {
                    if xl == yl {
                        return Ord3::Eq;
                    } else if xl < yl {
                        return Ord3::Lt;
                    } else {
                        return Ord3::Gt;
                    }
                }
                proof {
                    assert(xs.skip(i as int)[0] == xs[i as int]);
                    assert(ys.skip(i as int)[0] == ys[i as int]);
                    assert(xs[i as int] == x@[i as int].val());
                    assert(ys[i as int] == y@[i as int].val());
                    lemma_elem_member_decreases(*a, i as int);
                }
                let c = elem_cmp(&x[i], &y[i]);
                match c {
                    Ord3::Eq => {
                        proof {
                            assert(xs.skip(i as int).drop_first() =~= xs.skip(i as int + 1));
                            assert(ys.skip(i as int).drop_first() =~= ys.skip(i as int + 1));
                        }
                        i = i + 1;
                    },
                    Ord3::Lt => {
                        return Ord3::Lt;
                    },
                    Ord3::Gt => {
                        return Ord3::Gt;
                    },
                }
            }
        },
        _ => {
            let ra = elem_rank(a);
            let rb = elem_rank(b);
            if ra < rb {
                Ord3::Lt
            } else {
                Ord3::Gt
            }
        },
    }
}

/// Null-safe equality of two owned elements: two nulls are equal.
pub fn elem_eq(a: &Elem, b: &Elem) -> (r: bool)
    ensures
        r == (a.val() == b.val()),
{
    let c = elem_cmp(a, b);
    proof {
        lemma_cmp_val_eq(a.val(), b.val());
    }
    matches!(c, Ord3::Eq)
}

/// Whether some element of `v` equals `e`, null-safely.
#[verifier::loop_isolation(false)]
pub fn elems_contains(v: &Vec<Elem>, e: &Elem) -> (r: bool)
    ensures
        r == crate::model::elems_val(v@).contains(e.val()),
{
    let n = v.len();
    let mut i: usize = 0;
    while i < n
        invariant
            i <= n,
            forall|k: int| 0 <= k < i ==> v@[k].val() != e.val(),
        decreases n - i,
    {
        if elem_eq(&v[i], e) {
            proof {
                assert(crate::model::elems_val(v@)[i as int] == e.val());
            }
            return true;
        }
        i = i + 1;
    }
    proof {
        assert forall|k: int| 0 <= k < crate::model::elems_val(v@).len() implies crate::model::elems_val(
            v@,
        )[k] != e.val() by {
            assert(crate::model::elems_val(v@)[k] == v@[k].val());
        }
    }
    false
}

} // verus!

