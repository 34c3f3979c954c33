//! The columnar data model: element types, columns, list columns with
//! offset spans and validity masks, and the mathematical value of a column
//! as a sequence of abstract element values.

use vstd::prelude::*;

verus! {

broadcast use vstd::std_specs::vec::axiom_vec_index_decreases;

/// Declared element type of a column; list types nest.
pub enum Ty {
    /// The untyped-null type: a column of nothing but nulls.
    Null,
    Int64,
    Bool,
    Utf8,
    List(Box<Ty>),
}

impl Ty {
    /// Nesting depth: 0 for a non-list type, one more per list level.
    pub open spec fn spec_depth(self) -> nat
        decreases self,
    {
        match self {
            Ty::List(t) => 1 + t.spec_depth(),
            _ => 0,
        }
    }
}

/// Structural equality of two declared types.
pub fn ty_eq(a: &Ty, b: &Ty) -> (r: bool)
    ensures
        r == (a == b),
    decreases a,
{
    match (a, b) {
        (Ty::Null, Ty::Null) => true,
        (Ty::Int64, Ty::Int64) => true,
        (Ty::Bool, Ty::Bool) => true,
        (Ty::Utf8, Ty::Utf8) => true,
        (Ty::List(x), Ty::List(y)) => ty_eq(x, y),
        _ => false,
    }
}

/// Deep copy of a declared type.
pub fn ty_clone(a: &Ty) -> (r: Ty)
    ensures
        r == *a,
    decreases a,
{
    match a {
        Ty::Null => Ty::Null,
        Ty::Int64 => Ty::Int64,
        Ty::Bool => Ty::Bool,
        Ty::Utf8 => Ty::Utf8,
        Ty::List(x) => Ty::List(Box::new(ty_clone(x))),
    }
}

/// The abstract value of one element of a column.  A null slot is
/// `ElemVal::Null` whatever the column's declared type; a row of a list
/// column that is present but empty is `ElemVal::List(empty)`, not null.
pub ghost enum ElemVal {
    Null,
    Int(int),
    Bool(bool),
    Str(Seq<char>),
    List(Seq<ElemVal>),
}

/// A column: an immutable array of elements of one kind.
#[derive(Debug)]
pub enum Value {
    Int64(Vec<Option<i64>>),
    Bool(Vec<Option<bool>>),
    Utf8(Vec<Option<String>>),
    /// A column of the untyped-null type: one unit per null slot.
    Null(Vec<()>),
    List(Box<ListCol>),
}

/// A list column: each row `i` holds the child elements
/// `values[offsets[i] .. offsets[i + 1])`.  A row is null iff the mask says
/// so, independent of its span length.
#[derive(Debug)]
pub struct ListCol {
    pub values: Value,
    pub offsets: Vec<usize>,
    /// Per-row validity: `true` means the row is present.  `None` means
    /// every row is present.
    pub nulls: Option<Vec<bool>>,
}

impl ListCol {
    pub open spec fn spec_row_count(self) -> nat {
        (self.offsets@.len() - 1) as nat
    }

    /// Whether row `i` is present (not null).
    pub open spec fn spec_valid_at(self, i: int) -> bool {
        match self.nulls {
            Some(v) => v@[i],
            None => true,
        }
    }

    /// The offset bookkeeping invariants: one more offset than rows,
    /// starting at zero, non-decreasing, ending at the child length, and a
    /// mask (when present) with one flag per row.
    pub open spec fn offsets_wf(self) -> bool {
        &&& self.offsets@.len() >= 1
        &&& self.offsets@[0] == 0
        &&& forall|i: int, j: int|
            0 <= i <= j < self.offsets@.len() ==> self.offsets@[i] <= self.offsets@[j]
        &&& self.offsets@[self.offsets@.len() - 1] == self.values.spec_len()
        &&& match self.nulls {
            Some(v) => v@.len() == self.offsets@.len() - 1,
            None => true,
        }
    }

    /// The whole column is well-formed when seen as a `Value`.
    pub open spec fn wf_col(self) -> bool {
        self.offsets_wf() && self.values.wf()
    }

    /// The rows this list column presents, as abstract values.
    pub open spec fn rows_val(self) -> Seq<ElemVal> {
        Value::List(Box::new(self)).vals()
    }

    pub fn row_count(&self) -> (r: usize)
        requires
            self.offsets@.len() >= 1,
        ensures
            r == self.spec_row_count(),
    {
        self.offsets.len() - 1
    }

    pub fn valid_at(&self, i: usize) -> (r: bool)
        requires
            match self.nulls {
                Some(v) => i < v@.len(),
                None => true,
            },
        ensures
            r == self.spec_valid_at(i as int),
    {
        match &self.nulls {
            Some(v) => v[i],
            None => true,
        }
    }
}

impl Value {
    /// Number of elements in the column.
    pub open spec fn spec_len(self) -> nat {
        match self {
            Value::Int64(d) => d@.len(),
            Value::Bool(d) => d@.len(),
            Value::Utf8(d) => d@.len(),
            Value::Null(d) => d@.len(),
            Value::List(b) => b.spec_row_count(),
        }
    }

    /// Declared element type of the column.
    pub open spec fn spec_ty(self) -> Ty
        decreases self,
    {
        match self {
            Value::Int64(_) => Ty::Int64,
            Value::Bool(_) => Ty::Bool,
            Value::Utf8(_) => Ty::Utf8,
            Value::Null(_) => Ty::Null,
            Value::List(b) => Ty::List(Box::new(b.values.spec_ty())),
        }
    }

    /// Structural invariants, at every nesting level.
    pub open spec fn wf(self) -> bool
        decreases self,
    {
        match self {
            Value::List(b) => b.offsets_wf() && b.values.wf(),
            _ => true,
        }
    }

    /// The column's mathematical value: one abstract element per slot.
    pub open spec fn vals(self) -> Seq<ElemVal>
        decreases self,
    {
        match self {
            Value::Int64(d) => Seq::new(
                d@.len(),
                |i: int|
                    match d@[i] {
                        Some(x) => ElemVal::Int(x as int),
                        None => ElemVal::Null,
                    },
            ),
            Value::Bool(d) => Seq::new(
                d@.len(),
                |i: int|
                    match d@[i] {
                        Some(x) => ElemVal::Bool(x),
                        None => ElemVal::Null,
                    },
            ),
            Value::Utf8(d) => Seq::new(
                d@.len(),
                |i: int|
                    match d@[i] {
                        Some(x) => ElemVal::Str(x@),
                        None => ElemVal::Null,
                    },
            ),
            Value::Null(d) => Seq::new(d@.len(), |i: int| ElemVal::Null),
            Value::List(b) => {
                let inner = b.values.vals();
                Seq::new(
                    b.spec_row_count(),
                    |i: int|
                        if !b.spec_valid_at(i) {
                            ElemVal::Null
                        } else {
                            ElemVal::List(
                                inner.subrange(b.offsets@[i] as int, b.offsets@[i + 1] as int),
                            )
                        },
                )
            },
        }
    }

    pub fn len(&self) -> (r: usize)
        requires
            self is List ==> self->List_0.offsets@.len() >= 1,
        ensures
            r == self.spec_len(),
    {
        match self {
            Value::Int64(d) => d.len(),
            Value::Bool(d) => d.len(),
            Value::Utf8(d) => d.len(),
            Value::Null(d) => d.len(),
            Value::List(b) => b.row_count(),
        }
    }

    /// Declared element type, computed.
    pub fn ty(&self) -> (r: Ty)
        ensures
            r == self.spec_ty(),
        decreases self,
    {
        match self {
            Value::Int64(_) => Ty::Int64,
            Value::Bool(_) => Ty::Bool,
            Value::Utf8(_) => Ty::Utf8,
            Value::Null(_) => Ty::Null,
            Value::List(b) => Ty::List(Box::new(b.values.ty())),
        }
    }
}

/// One element of a column, extracted as an owned value.  Nested list
/// elements are materialized as vectors of their own elements.
pub enum Elem {
    Null,
    Int(i64),
    Bool(bool),
    Str(String),
    List(Vec<Elem>),
}

impl Elem {
    /// The abstract value this element stands for.
    pub open spec fn val(self) -> ElemVal
        decreases self,
    {
        match self {
            Elem::Null => ElemVal::Null,
            Elem::Int(x) => ElemVal::Int(x as int),
            Elem::Bool(x) => ElemVal::Bool(x),
            Elem::Str(s) => ElemVal::Str(s@),
            Elem::List(v) => {
                proof {
                    broadcast use vstd::std_specs::vec::axiom_vec_index_decreases;

                    assert forall|i: int| 0 <= i < v@.len() implies (decreases_to!(
                        self => v@[i],
                    )) by {
                        assert(decreases_to!(self => v));
                        assert(decreases_to!(v => v@[i]));
                    }
                }
                ElemVal::List(
                    Seq::new(
                        v@.len(),
                        |i: int|
                            if 0 <= i < v@.len() {
                                v@[i].val()
                            } else {
                                ElemVal::Null
                            },
                    ),
                )
            },
        }
    }
}

/// A list element's direct members stand below it in the structural order;
/// recursion over extracted members terminates.
pub proof fn lemma_elem_member_decreases(e: Elem, i: int)
    requires
        e matches Elem::List(v) && 0 <= i < v@.len(),
    ensures
        decreases_to!(e => e->List_0@[i]),
{
    broadcast use vstd::std_specs::vec::axiom_vec_index_decreases;

    let v = e->List_0;
    assert(decreases_to!(e => v));
    assert(decreases_to!(v => v@[i]));
}

/// The abstract values of a sequence of owned elements, in order.
pub open spec fn elems_val(s: Seq<Elem>) -> Seq<ElemVal> {
    Seq::new(s.len(), |i: int| s[i].val())
}

/// Deep copy of an owned element.
#[verifier::loop_isolation(false)]
pub fn elem_clone(e: &Elem) -> (r: Elem)
    ensures
        r.val() == e.val(),
    decreases e,
{
    match e {
        Elem::Null => Elem::Null,
        Elem::Int(x) => Elem::Int(*x),
        Elem::Bool(x) => Elem::Bool(*x),
        Elem::Str(s) => Elem::Str(s.clone()),
        Elem::List(v) => {
            let mut out: Vec<Elem> = Vec::new();
            let n = v.len();
            for j in 0..n
                invariant
                    out@.len() == j,
                    forall|k: int| 0 <= k < j ==> out@[k].val() == v@[k].val(),
            {
                proof {
                    lemma_elem_member_decreases(*e, j as int);
                }
                out.push(elem_clone(&v[j]));
            }
            let r = Elem::List(out);
            proof {
                assert(r.val() matches ElemVal::List(s) && s =~= e.val()->List_0);
            }
            r
        },
    }
}

/// Extract element `i` of a column as an owned value.
#[verifier::loop_isolation(false)]
pub fn value_get(v: &Value, i: usize) -> (r: Elem)
    requires
        v.wf(),
        i < v.spec_len(),
    ensures
        r.val() == v.vals()[i as int],
    decreases v,
{
    match v {
        Value::Int64(d) => match d[i] {
            Some(x) => Elem::Int(x),
            None => Elem::Null,
        },
        Value::Bool(d) => match d[i] {
            Some(x) => Elem::Bool(x),
            None => Elem::Null,
        },
        Value::Utf8(d) => match &d[i] {
            Some(x) => Elem::Str(x.clone()),
            None => Elem::Null,
        },
        Value::Null(_) => Elem::Null,
        Value::List(b) => {
            if !b.valid_at(i) {
                Elem::Null
            } else {
                let no = b.offsets.len();
                let start = b.offsets[i];
                let end = b.offsets[i + 1];
                let mut out: Vec<Elem> = Vec::new();
                let ghost child = b.values.vals();
                proof {
                    lemma_vals_len(b.values);
                }
                for j in start..end
                    invariant
                        out@.len() == j - start,
                        forall|k: int| 0 <= k < out@.len() ==> out@[k].val() == child[start + k],
                {
                    out.push(value_get(&b.values, j));
                }
                let r = Elem::List(out);
                proof {
                    assert(r.val() matches ElemVal::List(s) && s =~= child.subrange(
                        b.offsets@[i as int] as int,
                        b.offsets@[i as int + 1] as int,
                    ));
                }
                r
            }
        },
    }
}

/// Extract row `i` of a list column: `None` for a null row, else the row's
/// elements in order.
#[verifier::loop_isolation(false)]
pub fn read_row(b: &ListCol, i: usize) -> (r: Option<Vec<Elem>>)
    requires
        Value::List(Box::new(*b)).wf(),
        i < b.spec_row_count(),
    ensures
        match r {
            Some(es) => Value::List(Box::new(*b)).vals()[i as int] == ElemVal::List(
                elems_val(es@),
            ) && b.spec_valid_at(i as int),
            None => !b.spec_valid_at(i as int) && Value::List(Box::new(*b)).vals()[
                i as int
            ] is Null,
        },
{
    if !b.valid_at(i) {
        None
    } else {
        let no = b.offsets.len();
        let start = b.offsets[i];
        let end = b.offsets[i + 1];
        let mut out: Vec<Elem> = Vec::new();
        let ghost child = b.values.vals();
        proof {
            lemma_vals_len(b.values);
        }
        for j in start..end
            invariant
                out@.len() == j - start,
                forall|k: int| 0 <= k < out@.len() ==> out@[k].val() == child[start + k],
        {
            out.push(value_get(&b.values, j));
        }
        proof {
            assert(elems_val(out@) =~= child.subrange(
                b.offsets@[i as int] as int,
                b.offsets@[i as int + 1] as int,
            ));
        }
        Some(out)
    }
}

/// The length of a column's mathematical value is its length.
pub broadcast proof fn lemma_vals_len(v: Value)
    ensures
        #[trigger] v.vals().len() == v.spec_len(),
{
    match v {
        Value::Int64(_) => {},
        Value::Bool(_) => {},
        Value::Utf8(_) => {},
        Value::Null(_) => {},
        Value::List(_) => {},
    }
}

} // verus!
