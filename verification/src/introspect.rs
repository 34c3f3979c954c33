//! Structural introspection: per-dimension lengths, the dimension
//! vector, nesting depth, cardinality, emptiness, and flattening.

use vstd::prelude::*;

use crate::arena::{fits, lemma_vals_fit, new_empty_value, value_clone, value_extend_nulls,
    value_push_elem};
use crate::construct::{base_ty, row_content};
use crate::error::ArrayError;
use crate::model::{elems_val, lemma_vals_len, read_row, Elem, ElemVal, ListCol, Ty, Value};

verus! {

/// Every level of the column holds at most `i64::MAX` elements, so
/// every span length fits a signed 64-bit count.
pub open spec fn lens_bounded(v: Value) -> bool
    decreases v,
{
    &&& v.spec_len() <= i64::MAX
    &&& match v {
        Value::List(b) => lens_bounded(b.values),
        _ => true,
    }
}

/// The element count of `v` at dimension `d` (1 is the outermost):
/// descend through first elements; anything but a list, or a level too
/// short to descend, gives null.
pub open spec fn length_dim(v: ElemVal, d: int) -> ElemVal
    decreases d,
{
    match v {
        ElemVal::List(s) => {
            if d == 1 {
                ElemVal::Int(s.len() as int)
            } else if d < 1 || s.len() == 0 {
                ElemVal::Null
            } else {
                length_dim(s[0], d - 1)
            }
        },
        _ => ElemVal::Null,
    }
}

/// The length `array_length` reports for one row and one dimension
/// entry: null for a null or non-integer dimension or one below 1.
pub open spec fn length_at(row: ElemVal, dim_e: ElemVal) -> ElemVal {
    match dim_e {
        ElemVal::Int(d) => {
            if d < 1 {
                ElemVal::Null
            } else {
                length_dim(row, d)
            }
        },
        _ => ElemVal::Null,
    }
}

/// Walk to the requested dimension over the window `[lo, hi)` of `v`.
#[verifier::loop_isolation(false)]
fn length_dim_exec(v: &Value, lo: usize, hi: usize, d: i64) -> (r: Option<i64>)
    requires
        v.wf(),
        lens_bounded(*v),
        lo <= hi,
        hi <= v.spec_len(),
        d >= 1,
    ensures
        match r {
            Some(x) => length_dim(ElemVal::List(v.vals().subrange(lo as int, hi as int)), d as int)
                == ElemVal::Int(x as int),
            None => length_dim(
                ElemVal::List(v.vals().subrange(lo as int, hi as int)),
                d as int,
            ) is Null,
        },
    decreases v,
{
    let ghost cur = ElemVal::List(v.vals().subrange(lo as int, hi as int));
    proof {
        lemma_vals_len(*v);
    }
    if d == 1 {
        return Some((hi - lo) as i64);
    }
    if hi == lo {
        return None;
    }
    match v {
        Value::List(b) => {
            proof {
                assert(cur->List_0[0] == v.vals()[lo as int]);
            }
            if !b.valid_at(lo) {
                proof {
                    assert(v.vals()[lo as int] is Null);
                }
                None
            } else {
                let lo2 = b.offsets[lo];
                let hi2 = b.offsets[lo + 1];
                proof {
                    assert(v.vals()[lo as int] == ElemVal::List(
                        b.values.vals().subrange(lo2 as int, hi2 as int),
                    ));
                    lemma_vals_len(b.values);
                }
                let r = length_dim_exec(&b.values, lo2, hi2, d - 1);
                proof {
                    assert(cur->List_0.len() == hi - lo);
                    assert(cur->List_0[0] == v.vals()[lo as int]);
                    assert(length_dim(cur, d as int) == length_dim(
                        v.vals()[lo as int],
                        d as int - 1,
                    ));
                }
                r
            }
        },
        Value::Int64(_) => {
            proof {
                assert(!(v.vals()[lo as int] is List));
            }
            None
        },
        Value::Bool(_) => {
            proof {
                assert(!(v.vals()[lo as int] is List));
            }
            None
        },
        Value::Utf8(_) => {
            proof {
                assert(!(v.vals()[lo as int] is List));
            }
            None
        },
        Value::Null(_) => {
            proof {
                assert(!(v.vals()[lo as int] is List));
            }
            None
        },
    }
}

/// A per-dimension length is an integer count or null.
pub proof fn lemma_length_dim_shape(v: ElemVal, d: int)
    ensures
        length_dim(v, d) is Int || length_dim(v, d) is Null,
    decreases d,
{
    match v {
        ElemVal::List(s) => {
            if d != 1 && !(d < 1 || s.len() == 0) {
                lemma_length_dim_shape(s[0], d - 1);
            }
        },
        _ => {},
    }
}

/// The argument shape `array_length` accepts: a list column, and
/// optionally an integer dimension column.
pub open spec fn length_args_ok(args: Seq<Value>) -> bool {
    &&& (args.len() == 1 || args.len() == 2)
    &&& args[0] is List
    &&& (args.len() == 2 ==> args[1] is Int64)
}

/// The dimension entries `array_length` works with: the second column's
/// values, or dimension 1 for every row.
pub open spec fn dim_entries(args: Seq<Value>) -> Seq<ElemVal> {
    if args.len() == 2 {
        args[1].vals()
    } else {
        Seq::new(args[0].spec_len(), |i: int| ElemVal::Int(1))
    }
}

/// Per row, the element count at the requested dimension (1 is the
/// outermost); a null row, a null or out-of-range dimension, or a
/// dimension past the actual nesting gives null.
#[verifier::loop_isolation(false)]
pub fn array_length(args: &Vec<Value>) -> (r: Result<Value, ArrayError>)
    requires
        forall|i: int| 0 <= i < args@.len() ==> (#[trigger] args@[i]).wf(),
        args@.len() >= 1 ==> lens_bounded(args@[0]),
        length_args_ok(args@) && args@.len() == 2 ==> args@[1].spec_len() == args@[0].spec_len(),
    ensures
        r is Ok <==> length_args_ok(args@),
        r matches Ok(out) ==> {
            &&& out is Int64
            &&& out.vals().len() == args@[0].spec_len()
            &&& forall|i: int|
                0 <= i < out.vals().len() ==> out.vals()[i] == length_at(
                    args@[0].vals()[i],
                    dim_entries(args@)[i],
                )
        },
        r matches Err(e) ==> e is Internal,
{
    if !(args.len() == 1 || args.len() == 2) {
        return Err(ArrayError::Internal("array_length expects one or two arguments".to_owned()));
    }
    let b: &ListCol = match &args[0] {
        Value::List(b) => b,
        _ => {
            return Err(ArrayError::Internal("array_length expects a list column".to_owned()));
        },
    };
    if args.len() == 2 && !matches!(&args[1], Value::Int64(_)) {
        return Err(ArrayError::Internal("array_length expects an integer dimension".to_owned()));
    }
    let ghost list_vals = args@[0].vals();
    let ghost dims = dim_entries(args@);
    proof {
        lemma_vals_len(args@[0]);
        if args@.len() == 2 {
            lemma_vals_len(args@[1]);
        }
    }
    let rc = b.row_count();
    let mut data: Vec<Option<i64>> = Vec::new();
    for i in 0..rc
        invariant
            data@.len() == i,
            forall|k: int|
                0 <= k < i ==> (match length_at(list_vals[k], dims[k]) {
                    ElemVal::Int(x) => (#[trigger] data@[k]) matches Some(y) && y as int == x,
                    _ => data@[k] is None,
                }),
    {
        let dim_opt: Option<i64> = if args.len() == 2 {
            match &args[1] {
                Value::Int64(dd) => dd[i],
                _ => None,
            }
        } else {
            Some(1)
        };
        proof {
            match dim_opt {
                Some(x) => {
                    assert(dims[i as int] == ElemVal::Int(x as int));
                },
                None => {
                    assert(dims[i as int] is Null);
                },
            }
        }
        let dv: i64 = match dim_opt {
            Some(x) => x,
            None => 0,
        };
        if matches!(dim_opt, None::<i64>) || dv < 1 {
            data.push(None);
        } else if !b.valid_at(i) {
            data.push(None);
            proof {
                assert(list_vals[i as int] is Null);
            }
        } else {
            let lo = b.offsets[i];
            let hi = b.offsets[i + 1];
            proof {
                assert(list_vals[i as int] == ElemVal::List(
                    b.values.vals().subrange(lo as int, hi as int),
                ));
                lemma_vals_len(b.values);
            }
            let got = length_dim_exec(&b.values, lo, hi, dv);
            data.push(got);
        }
    }
    let out = Value::Int64(data);
    proof {
        assert forall|i: int| 0 <= i < out.vals().len() implies out.vals()[i] == length_at(
            list_vals[i],
            dims[i],
        ) by {
            match dims[i] {
                ElemVal::Int(d) => {
                    lemma_length_dim_shape(list_vals[i], d);
                },
                _ => {},
            }
            match length_at(list_vals[i], dims[i]) {
                ElemVal::Int(x) => {
                    assert(data@[i] matches Some(y) && y as int == x);
                    assert(out.vals()[i] == ElemVal::Int(x));
                },
                _ => {
                    assert(data@[i] is None);
                    assert(out.vals()[i] is Null);
                    assert(length_at(list_vals[i], dims[i]) is Null);
                },
            }
        }
    }
    Ok(out)
}

/// The dimension vector of a row: its length, then the dimensions of
/// its first element while that element is a list.
pub open spec fn dims_rec(v: ElemVal) -> Seq<ElemVal>
    decreases v,
{
    match v {
        ElemVal::List(s) => {
            proof {
                broadcast use vstd::seq::axiom_seq_index_decreases;

                if s.len() > 0 {
                    assert(decreases_to!(v => s));
                    assert(decreases_to!(s => s[0]));
                }
            }
            seq![ElemVal::Int(s.len() as int)] + (if s.len() > 0 && s[0] is List {
                dims_rec(s[0])
            } else {
                Seq::empty()
            })
        },
        _ => Seq::empty(),
    }
}

/// The row `array_dims` produces: null for a null or empty row, else
/// the dimension vector.
pub open spec fn dims_row(v: ElemVal) -> ElemVal {
    match v {
        ElemVal::List(s) => {
            if s.len() == 0 {
                ElemVal::Null
            } else {
                ElemVal::List(dims_rec(v))
            }
        },
        _ => ElemVal::Null,
    }
}

/// A vector of signed counts, as abstract integer elements.
pub open spec fn ints_of(s: Seq<i64>) -> Seq<ElemVal> {
    Seq::new(s.len(), |k: int| ElemVal::Int(s[k] as int))
}

/// Collect the dimension vector of the window `[lo, hi)` of `v`.
#[verifier::loop_isolation(false)]
fn dims_exec(v: &Value, lo: usize, hi: usize) -> (r: Vec<i64>)
    requires
        v.wf(),
        lens_bounded(*v),
        lo <= hi,
        hi <= v.spec_len(),
    ensures
        ints_of(r@) == dims_rec(ElemVal::List(v.vals().subrange(lo as int, hi as int))),
    decreases v,
{
    let ghost cur = ElemVal::List(v.vals().subrange(lo as int, hi as int));
    proof {
        lemma_vals_len(*v);
    }
    let mut out: Vec<i64> = Vec::new();
    out.push((hi - lo) as i64);
    let mut descend = false;
    if hi > lo {
        match v {
            Value::List(b) => {
                if b.valid_at(lo) {
                    descend = true;
                    let lo2 = b.offsets[lo];
                    let hi2 = b.offsets[lo + 1];
                    proof {
                        assert(cur->List_0[0] == v.vals()[lo as int]);
                        assert(v.vals()[lo as int] == ElemVal::List(
                            b.values.vals().subrange(lo2 as int, hi2 as int),
                        ));
                        lemma_vals_len(b.values);
                    }
                    let mut rest = dims_exec(&b.values, lo2, hi2);
                    let ghost restv = rest@;
                    out.append(&mut rest);
                    proof {
                        assert(out@ =~= seq![(hi - lo) as i64] + restv);
                        assert(ints_of(out@) =~= seq![ElemVal::Int((hi - lo) as int)] + ints_of(
                            restv,
                        ));
                    }
                } else {
                    proof {
                        assert(cur->List_0[0] == v.vals()[lo as int]);
                        assert(v.vals()[lo as int] is Null);
                    }
                }
            },
            Value::Int64(_) => {
                proof {
                    assert(cur->List_0[0] == v.vals()[lo as int]);
                    assert(!(v.vals()[lo as int] is List));
                }
            },
            Value::Bool(_) => {
                proof {
                    assert(cur->List_0[0] == v.vals()[lo as int]);
                    assert(!(v.vals()[lo as int] is List));
                }
            },
            Value::Utf8(_) => {
                proof {
                    assert(cur->List_0[0] == v.vals()[lo as int]);
                    assert(!(v.vals()[lo as int] is List));
                }
            },
            Value::Null(_) => {
                proof {
                    assert(cur->List_0[0] == v.vals()[lo as int]);
                    assert(!(v.vals()[lo as int] is List));
                }
            },
        }
    }
    proof {
        if !descend {
            assert(ints_of(out@) =~= seq![ElemVal::Int((hi - lo) as int)]);
            assert(dims_rec(cur) =~= seq![ElemVal::Int((hi - lo) as int)]);
        } else {
            assert(ints_of(out@) =~= dims_rec(cur));
        }
    }
    out
}

/// Per row, the lengths at each nesting level, descending through first
/// elements; a null or empty row gives a null row.
#[verifier::loop_isolation(false)]
pub fn array_dims(args: &Vec<Value>) -> (r: Result<Value, ArrayError>)
    requires
        forall|i: int| 0 <= i < args@.len() ==> (#[trigger] args@[i]).wf(),
        args@.len() >= 1 ==> lens_bounded(args@[0]),
        args@.len() >= 1,
    ensures
        r is Ok <==> args@[0] is List,
        r matches Ok(out) ==> {
            &&& out.wf()
            &&& out.spec_ty() == Ty::List(Box::new(Ty::Int64))
            &&& out.vals().len() == args@[0].spec_len()
            &&& forall|i: int|
                0 <= i < out.vals().len() ==> out.vals()[i] == dims_row(args@[0].vals()[i])
        },
        r matches Err(e) ==> e is Internal,
{
    let b: &ListCol = match &args[0] {
        Value::List(b) => b,
        _ => {
            return Err(ArrayError::Internal("array_dims expects a list column".to_owned()));
        },
    };
    let ghost list_vals = args@[0].vals();
    proof {
        lemma_vals_len(args@[0]);
    }
    let out_ty = Ty::List(Box::new(Ty::Int64));
    let mut out = new_empty_value(&out_ty);
    let rc = b.row_count();
    for i in 0..rc
        invariant
            out.wf(),
            out.spec_ty() == Ty::List(Box::new(Ty::Int64)),
            out.vals().len() == i,
            forall|k: int| 0 <= k < i ==> out.vals()[k] == dims_row(list_vals[k]),
    {
        proof {
            lemma_vals_len(out);
        }
        let lo = b.offsets[i];
        let hi = b.offsets[i + 1];
        if !b.valid_at(i) || hi == lo {
            out = value_extend_nulls(out, 1);
            proof {
                if b.spec_valid_at(i as int) {
                    assert(list_vals[i as int] == ElemVal::List(
                        b.values.vals().subrange(lo as int, hi as int),
                    ));
                    lemma_vals_len(b.values);
                } else {
                    assert(list_vals[i as int] is Null);
                }
            }
        } else {
            proof {
                assert(list_vals[i as int] == ElemVal::List(
                    b.values.vals().subrange(lo as int, hi as int),
                ));
                lemma_vals_len(b.values);
            }
            let ds = dims_exec(&b.values, lo, hi);
            let mut row: Vec<Elem> = Vec::new();
            let m = ds.len();
            for k in 0..m
                invariant
                    row@.len() == k,
                    forall|q: int| 0 <= q < k ==> row@[q] == Elem::Int(ds@[q]),
            {
                row.push(Elem::Int(ds[k]));
            }
            let row_elem = Elem::List(row);
            proof {
                assert forall|q: int| 0 <= q < row@.len() implies (#[trigger] elems_val(row@)[q])
                    == ints_of(ds@)[q] by {
                    assert(row@[q] == Elem::Int(ds@[q]));
                }
                assert(elems_val(row@) =~= ints_of(ds@));
                assert(row_elem.val() matches ElemVal::List(s) && s =~= ints_of(ds@));
                let s = row_elem.val()->List_0;
                assert forall|q: int| 0 <= q < s.len() implies fits(#[trigger] s[q], Ty::Int64) by {
                    assert(s[q] == ints_of(ds@)[q]);
                }
                assert(fits(row_elem.val(), Ty::List(Box::new(Ty::Int64))));
            }
            out = value_push_elem(out, &row_elem);
        }
    }
    Ok(out)
}

/// Per row, the declared nesting depth of the column for every present
/// row and null for null rows; a non-list column reports depth zero for
/// every row.
#[verifier::loop_isolation(false)]
pub fn array_ndims(args: &Vec<Value>) -> (r: Result<Value, ArrayError>)
    requires
        forall|i: int| 0 <= i < args@.len() ==> (#[trigger] args@[i]).wf(),
        args@.len() >= 1,
        args@[0].spec_ty().spec_depth() <= i64::MAX,
    ensures
        r is Ok,
        r matches Ok(out) ==> {
            &&& out is Int64
            &&& out.vals().len() == args@[0].spec_len()
            &&& forall|i: int|
                0 <= i < out.vals().len() ==> out.vals()[i] == (if args@[0] is List {
                    if args@[0].vals()[i] is Null {
                        ElemVal::Null
                    } else {
                        ElemVal::Int(args@[0].spec_ty().spec_depth() as int)
                    }
                } else {
                    ElemVal::Int(0)
                })
        },
{
    let ghost list_vals = args@[0].vals();
    proof {
        lemma_vals_len(args@[0]);
    }
    let n = args[0].len();
    let mut data: Vec<Option<i64>> = Vec::new();
    match &args[0] {
        Value::List(b) => {
            let d = list_depth(&args[0]);
            for i in 0..n
                invariant
                    data@.len() == i,
                    forall|k: int|
                        0 <= k < i ==> #[trigger] data@[k] == (if list_vals[k] is Null {
                            None::<i64>
                        } else {
                            Some(d)
                        }),
                    d as int == args@[0].spec_ty().spec_depth(),
            {
                if b.valid_at(i) {
                    data.push(Some(d));
                    proof {
                        assert(!(list_vals[i as int] is Null));
                    }
                } else {
                    data.push(None);
                    proof {
                        assert(list_vals[i as int] is Null);
                    }
                }
            }
        },
        _ => {
            for i in 0..n
                invariant
                    data@.len() == i,
                    forall|k: int| 0 <= k < i ==> #[trigger] data@[k] == Some(0i64),
            {
                data.push(Some(0));
            }
        },
    }
    Ok(Value::Int64(data))
}

/// Nesting depth of the column's declared type, as a signed count.
fn list_depth(v: &Value) -> (d: i64)
    requires
        v.spec_ty().spec_depth() <= i64::MAX,
    ensures
        d as int == v.spec_ty().spec_depth(),
    decreases v,
{
    match v {
        Value::List(b) => {
            let inner = list_depth(&b.values);
            inner + 1
        },
        _ => 0,
    }
}

/// Whether a present row holds data: false when every element is null
/// or the row is empty.
pub open spec fn row_all_null(s: Seq<ElemVal>) -> bool {
    forall|k: int| 0 <= k < s.len() ==> s[k] is Null
}

/// Per row, whether the row holds no data value: true for empty rows
/// and rows of nothing but nulls, null for null rows.  A column of the
/// untyped-null type gives a column of nulls.
#[verifier::loop_isolation(false)]
pub fn array_empty(args: &Vec<Value>) -> (r: Result<Value, ArrayError>)
    requires
        forall|i: int| 0 <= i < args@.len() ==> (#[trigger] args@[i]).wf(),
        args@.len() >= 1,
    ensures
        r is Ok <==> (args@[0] is List || args@[0] is Null),
        r matches Ok(out) ==> {
            &&& out is Bool
            &&& out.vals().len() == args@[0].spec_len()
            &&& forall|i: int|
                0 <= i < out.vals().len() ==> out.vals()[i] == (match args@[0].vals()[i] {
                    ElemVal::List(s) => ElemVal::Bool(row_all_null(s)),
                    _ => ElemVal::Null,
                })
        },
        r matches Err(e) ==> e is Internal,
{
    let ghost list_vals = args@[0].vals();
    proof {
        lemma_vals_len(args@[0]);
    }
    if matches!(&args[0], Value::Null(_)) {
        let n = args[0].len();
        let mut data: Vec<Option<bool>> = Vec::new();
        for i in 0..n
            invariant
                data@.len() == i,
                forall|k: int| 0 <= k < i ==> (#[trigger] data@[k]) is None,
        {
            data.push(None);
        }
        proof {
            assert forall|i: int|
                0 <= i < Value::Bool(data).vals().len() implies Value::Bool(data).vals()[i] == (
            match list_vals[i] {
                ElemVal::List(s) => ElemVal::Bool(row_all_null(s)),
                _ => ElemVal::Null,
            }) by {
                assert(list_vals[i] is Null);
            }
        }
        return Ok(Value::Bool(data));
    }
    let b: &ListCol = match &args[0] {
        Value::List(b) => b,
        _ => {
            return Err(ArrayError::Internal("array_empty expects a list column".to_owned()));
        },
    };
    let rc = b.row_count();
    let mut data: Vec<Option<bool>> = Vec::new();
    for i in 0..rc
        invariant
            data@.len() == i,
            forall|k: int|
                0 <= k < i ==> #[trigger] data@[k] == (match list_vals[k] {
                    ElemVal::List(s) => Some(row_all_null(s)),
                    _ => None::<bool>,
                }),
    {
        match read_row(b, i) {
            None => {
                data.push(None);
            },
            Some(es) => {
                let ghost s = list_vals[i as int]->List_0;
                proof {
                    assert(elems_val(es@) =~= s);
                }
                let m = es.len();
                let mut all_null = true;
                for k in 0..m
                    invariant
                        all_null <==> (forall|q: int| 0 <= q < k ==> s[q] is Null),
                {
                    let en = matches!(&es[k], Elem::Null);
                    proof {
                        assert(en == (s[k as int] is Null)) by {
                            match es@[k as int] {
                                Elem::Null => {},
                                Elem::Int(_) => {},
                                Elem::Bool(_) => {},
                                Elem::Str(_) => {},
                                Elem::List(_) => {},
                            }
                        }
                    }
                    if !en {
                        all_null = false;
                    }
                }
                data.push(Some(all_null));
            },
        }
    }
    Ok(Value::Bool(data))
}

/// The integer a dimension entry denotes.
pub open spec fn int_of(e: ElemVal) -> int {
    match e {
        ElemVal::Int(x) => x,
        _ => 0,
    }
}

/// The product of a row of integer counts.
pub open spec fn prod_ints(s: Seq<ElemVal>) -> int
    decreases s.len(),
{
    if s.len() == 0 {
        1
    } else {
        int_of(s[0]) * prod_ints(s.drop_first())
    }
}

/// Every dimension entry is a non-negative integer count.
proof fn lemma_dims_entries_shape(v: ElemVal)
    ensures
        forall|k: int|
            0 <= k < dims_rec(v).len() ==> ((#[trigger] dims_rec(v)[k]) matches ElemVal::Int(x)
                && x >= 0),
    decreases v,
{
    broadcast use vstd::seq::axiom_seq_index_decreases;

    match v {
        ElemVal::List(s) => {
            if s.len() > 0 && s[0] is List {
                assert(decreases_to!(v => s));
                assert(decreases_to!(s => s[0]));
                lemma_dims_entries_shape(s[0]);
                assert forall|k: int|
                    0 <= k < dims_rec(v).len() implies ((#[trigger] dims_rec(v)[k]) matches
                    ElemVal::Int(x) && x >= 0) by {
                    if k > 0 {
                        assert(dims_rec(v)[k] == dims_rec(s[0])[k - 1]);
                    }
                }
            }
        },
        _ => {},
    }
}

/// A zero dimension entry makes the whole product zero.
proof fn lemma_prod_zero(s: Seq<ElemVal>, k: int)
    requires
        0 <= k < s.len(),
        int_of(s[k]) == 0,
    ensures
        prod_ints(s) == 0,
    decreases s.len(),
{
    if k == 0 {
        assert(prod_ints(s) == 0 * prod_ints(s.drop_first()));
    } else {
        lemma_prod_zero(s.drop_first(), k - 1);
    }
}

/// With every entry at least one, each left partial product stays at or
/// below the whole product.
proof fn lemma_prod_pos(s: Seq<ElemVal>)
    requires
        forall|k: int| 0 <= k < s.len() ==> int_of(#[trigger] s[k]) >= 1,
    ensures
        prod_ints(s) >= 1,
    decreases s.len(),
{
    if s.len() > 0 {
        assert(forall|k: int|
            0 <= k < s.drop_first().len() ==> int_of(#[trigger] s.drop_first()[k]) >= 1);
        lemma_prod_pos(s.drop_first());
        assert(int_of(s[0]) * prod_ints(s.drop_first()) >= 1) by (nonlinear_arith)
            requires
                int_of(s[0]) >= 1,
                prod_ints(s.drop_first()) >= 1,
        ;
    }
}

/// The row `cardinality` produces: the product of the dimension vector
/// for a present non-empty row, null otherwise.
pub open spec fn cardinality_row(v: ElemVal) -> ElemVal {
    match v {
        ElemVal::List(s) => {
            if s.len() == 0 {
                ElemVal::Null
            } else {
                ElemVal::Int(prod_ints(dims_rec(v)))
            }
        },
        _ => ElemVal::Null,
    }
}

/// Per row, the product of the lengths at every nesting dimension; a
/// null or empty row gives null.
#[verifier::loop_isolation(false)]
pub fn cardinality(args: &Vec<Value>) -> (r: Result<Value, ArrayError>)
    requires
        forall|i: int| 0 <= i < args@.len() ==> (#[trigger] args@[i]).wf(),
        args@.len() >= 1 ==> lens_bounded(args@[0]),
        args@.len() >= 1,
        args@.len() >= 1 ==> (forall|i: int|
            0 <= i < args@[0].spec_len() ==> prod_ints(dims_rec(#[trigger] args@[0].vals()[i]))
                <= i64::MAX),
    ensures
        r is Ok <==> args@[0] is List,
        r matches Ok(out) ==> {
            &&& out is Int64
            &&& out.vals().len() == args@[0].spec_len()
            &&& forall|i: int|
                0 <= i < out.vals().len() ==> out.vals()[i] == cardinality_row(args@[0].vals()[i])
        },
        r matches Err(e) ==> e is Internal,
{
    let b: &ListCol = match &args[0] {
        Value::List(b) => b,
        _ => {
            return Err(ArrayError::Internal("cardinality expects a list column".to_owned()));
        },
    };
    let ghost list_vals = args@[0].vals();
    proof {
        lemma_vals_len(args@[0]);
    }
    let rc = b.row_count();
    let mut data: Vec<Option<i64>> = Vec::new();
    for i in 0..rc
        invariant
            data@.len() == i,
            forall|k: int|
                0 <= k < i ==> (match cardinality_row(list_vals[k]) {
                    ElemVal::Int(x) => (#[trigger] data@[k]) matches Some(y) && y as int == x,
                    _ => data@[k] is None,
                }),
    {
        let lo = b.offsets[i];
        let hi = b.offsets[i + 1];
        if !b.valid_at(i) || hi == lo {
            data.push(None);
            proof {
                if b.spec_valid_at(i as int) {
                    assert(list_vals[i as int] == ElemVal::List(
                        b.values.vals().subrange(lo as int, hi as int),
                    ));
                    lemma_vals_len(b.values);
                } else {
                    assert(list_vals[i as int] is Null);
                }
            }
        } else {
            proof {
                assert(list_vals[i as int] == ElemVal::List(
                    b.values.vals().subrange(lo as int, hi as int),
                ));
                lemma_vals_len(b.values);
            }
            let ds = dims_exec(&b.values, lo, hi);
            let ghost dv = dims_rec(list_vals[i as int]);
            let ghost goal = prod_ints(dv);
            proof {
                lemma_dims_entries_shape(list_vals[i as int]);
            }
            let m = ds.len();
            let mut zero = false;
            for k in 0..m
                invariant
                    zero <==> (exists|q: int| 0 <= q < k && int_of(#[trigger] dv[q]) == 0),
            {
                proof {
                    assert(int_of(dv[k as int]) == ds@[k as int] as int);
                }
                if ds[k] == 0 {
                    zero = true;
                }
            }
            if zero {
                data.push(Some(0));
                proof {
                    let q = choose|q: int| 0 <= q < m && int_of(dv[q]) == 0;
                    lemma_prod_zero(dv, q);
                }
            } else {
                proof {
                    assert forall|q: int| 0 <= q < dv.len() implies int_of(#[trigger] dv[q])
                        >= 1 by {
                        assert(int_of(dv[q]) == ds@[q] as int);
                    }
                    assert(dv.skip(0) =~= dv);
                }
                let mut acc: i64 = 1;
                for k in 0..m
                    invariant
                        acc >= 1,
                        goal == acc * prod_ints(dv.skip(k as int)),
                        goal <= i64::MAX,
                        forall|q: int| 0 <= q < dv.len() ==> int_of(#[trigger] dv[q]) >= 1,
                {
                    let ghost rest = dv.skip(k as int);
                    proof {
                        assert(rest[0] == dv[k as int]);
                        assert(rest.drop_first() =~= dv.skip(k as int + 1));
                        assert(int_of(dv[k as int]) == ds@[k as int] as int);
                        assert forall|q: int|
                            0 <= q < rest.drop_first().len() implies int_of(
                            #[trigger] rest.drop_first()[q],
                        ) >= 1 by {
                            assert(rest.drop_first()[q] == dv[k as int + 1 + q]);
                        }
                        lemma_prod_pos(rest.drop_first());
                        assert(goal == acc * (int_of(rest[0]) * prod_ints(rest.drop_first())));
                        assert(acc * (int_of(rest[0]) * prod_ints(rest.drop_first())) == (acc
                            * int_of(rest[0])) * prod_ints(rest.drop_first())) by (nonlinear_arith);
                        assert((acc * int_of(rest[0])) <= goal && (acc * int_of(rest[0]))
                            >= 1) by (nonlinear_arith)
                            requires
                                goal == (acc * int_of(rest[0])) * prod_ints(rest.drop_first()),
                                prod_ints(rest.drop_first()) >= 1,
                                acc >= 1,
                                int_of(rest[0]) >= 1,
                        ;
                    }
                    let wide: i128 = acc as i128 * ds[k] as i128;
                    proof {
                        assert(wide == acc * int_of(dv[k as int]));
                    }
                    acc = wide as i64;
                }
                proof {
                    assert(dv.skip(m as int) =~= Seq::<ElemVal>::empty());
                    assert(goal == acc);
                }
                data.push(Some(acc));
            }
        }
    }
    let out = Value::Int64(data);
    proof {
        assert forall|i: int| 0 <= i < out.vals().len() implies out.vals()[i] == cardinality_row(
            list_vals[i],
        ) by {
            match cardinality_row(list_vals[i]) {
                ElemVal::Int(x) => {
                    assert(data@[i] matches Some(y) && y as int == x);
                },
                _ => {
                    assert(data@[i] is None);
                },
            }
        }
    }
    Ok(out)
}

/// The leaf elements under a row's members, at `d` list levels below
/// the members themselves; null rows on the way contribute nothing.
pub open spec fn fm(s: Seq<ElemVal>, d: nat) -> Seq<ElemVal>
    decreases d, s.len(),
{
    if d == 0 {
        s
    } else if s.len() == 0 {
        Seq::empty()
    } else {
        fm(row_content(s[0]), (d - 1) as nat) + fm(s.drop_first(), d)
    }
}

/// Flattened members of rows that fit a type end up fitting its
/// innermost element type.
proof fn lemma_fm_fits(s: Seq<ElemVal>, t: Ty)
    requires
        forall|k: int| 0 <= k < s.len() ==> fits(#[trigger] s[k], t),
    ensures
        forall|k: int|
            0 <= k < fm(s, t.spec_depth()).len() ==> fits(
                #[trigger] fm(s, t.spec_depth())[k],
                base_ty(t),
            ),
    decreases t, s.len(),
{
    let d = t.spec_depth();
    match t {
        Ty::List(t2) => {
            if s.len() > 0 {
                assert(fits(s[0], t));
                match s[0] {
                    ElemVal::List(m) => {
                        assert(forall|k: int| 0 <= k < m.len() ==> fits(#[trigger] m[k], *t2));
                        lemma_fm_fits(m, *t2);
                        assert(row_content(s[0]) == m);
                    },
                    _ => {
                        assert(row_content(s[0]) =~= Seq::<ElemVal>::empty());
                    },
                }
                assert(forall|k: int|
                    0 <= k < s.drop_first().len() ==> fits(#[trigger] s.drop_first()[k], t));
                lemma_fm_fits(s.drop_first(), t);
                let part1 = fm(row_content(s[0]), t2.spec_depth());
                let part2 = fm(s.drop_first(), d);
                assert((d - 1) as nat == t2.spec_depth());
                assert(fm(s, d) == part1 + part2);
                assert(base_ty(t) == base_ty(*t2));
                assert forall|k: int| 0 <= k < fm(s, d).len() implies fits(
                    #[trigger] fm(s, d)[k],
                    base_ty(t),
                ) by {
                    if k < part1.len() {
                        assert(fm(s, d)[k] == part1[k]);
                    } else {
                        assert(fm(s, d)[k] == part2[k - part1.len()]);
                    }
                }
            }
        },
        _ => {
            assert(fm(s, 0) == s);
            assert(base_ty(t) == t);
        },
    }
}

/// Flatten owned elements through `d` list levels.
#[verifier::loop_isolation(false)]
fn flatten_elems(es: &Vec<Elem>, d: usize) -> (out: Vec<Elem>)
    ensures
        elems_val(out@) == fm(elems_val(es@), d as nat),
    decreases d,
{
    let ghost sv = elems_val(es@);
    let n = es.len();
    let mut out: Vec<Elem> = Vec::new();
    if d == 0 {
        for j in 0..n
            invariant
                out@.len() == j,
                forall|k: int| 0 <= k < j ==> (#[trigger] elems_val(out@)[k]) == sv[k],
        {
            let ghost ov = elems_val(out@);
            out.push(crate::model::elem_clone(&es[j]));
            proof {
                assert(elems_val(out@) =~= ov.push(sv[j as int]));
            }
        }
        proof {
            assert(elems_val(out@) =~= sv);
        }
        return out;
    }
    proof {
        assert(sv.skip(0) =~= sv);
    }
    for j in 0..n
        invariant
            fm(sv, d as nat) =~= elems_val(out@) + fm(sv.skip(j as int), d as nat),
    {
        let ghost ov = elems_val(out@);
        proof {
            assert(sv.skip(j as int)[0] == sv[j as int]);
            assert(sv.skip(j as int).drop_first() =~= sv.skip(j as int + 1));
        }
        match &es[j] {
            Elem::List(v) => {
                let mut inner = flatten_elems(v, d - 1);
                let ghost iv = elems_val(inner@);
                proof {
                    assert(row_content(sv[j as int]) =~= elems_val(v@));
                    assert(iv == fm(row_content(sv[j as int]), (d - 1) as nat));
                }
                out.append(&mut inner);
                proof {
                    assert(elems_val(out@) =~= ov + iv);
                    assert(ov + (iv + fm(sv.skip(j as int + 1), d as nat)) =~= (ov + iv) + fm(
                        sv.skip(j as int + 1),
                        d as nat,
                    ));
                }
            },
            _ => {
                proof {
                    assert(!(sv[j as int] is List)) by {
                        match es@[j as int] {
                            Elem::Null => {},
                            Elem::Int(_) => {},
                            Elem::Bool(_) => {},
                            Elem::Str(_) => {},
                            Elem::List(_) => {},
                        }
                    }
                    assert(row_content(sv[j as int]) =~= Seq::<ElemVal>::empty());
                    assert(fm(Seq::<ElemVal>::empty(), (d - 1) as nat) =~= Seq::<
                        ElemVal,
                    >::empty());
                    assert(ov + (Seq::<ElemVal>::empty() + fm(sv.skip(j as int + 1), d as nat))
                        =~= ov + fm(sv.skip(j as int + 1), d as nat));
                }
            },
        }
    }
    proof {
        assert(sv.skip(n as int) =~= Seq::<ElemVal>::empty());
        assert(fm(Seq::<ElemVal>::empty(), d as nat) =~= Seq::<ElemVal>::empty());
        assert(elems_val(out@) + Seq::<ElemVal>::empty() =~= elems_val(out@));
    }
    out
}

/// Collapse every nesting level of a list column into one: each row
/// holds the leaf elements reachable under it, in order.  A column one
/// level deep is returned unchanged.
#[verifier::loop_isolation(false)]
pub fn flatten(args: &Vec<Value>) -> (r: Result<Value, ArrayError>)
    requires
        forall|i: int| 0 <= i < args@.len() ==> (#[trigger] args@[i]).wf(),
        forall|i: int|
            0 <= i < args@.len() ==> (#[trigger] args@[i]).spec_ty().spec_depth() <= usize::MAX,
        args@.len() >= 1,
    ensures
        r is Ok <==> args@[0] is List,
        r matches Ok(out) ==> out.wf() && (if args@[0]->List_0.values.spec_ty() is List {
            &&& out.spec_ty() == Ty::List(
                Box::new(base_ty(args@[0]->List_0.values.spec_ty())),
            )
            &&& out.vals().len() == args@[0].spec_len()
            &&& forall|i: int|
                0 <= i < out.vals().len() ==> out.vals()[i] == ElemVal::List(
                    fm(
                        row_content(args@[0].vals()[i]),
                        args@[0]->List_0.values.spec_ty().spec_depth(),
                    ),
                )
        } else {
            out.spec_ty() == args@[0].spec_ty() && out.vals() == args@[0].vals()
        }),
        r matches Err(e) ==> e is Internal,
{
    let b: &ListCol = match &args[0] {
        Value::List(b) => b,
        _ => {
            return Err(ArrayError::Internal("flatten expects a list column".to_owned()));
        },
    };
    if !matches!(&b.values, Value::List(_)) {
        return Ok(value_clone(&args[0]));
    }
    let ghost list_vals = args@[0].vals();
    let ghost child_ty = b.values.spec_ty();
    proof {
        lemma_vals_len(args@[0]);
    }
    let ct = b.values.ty();
    let bt = depth_and_base(&ct);
    let d = bt.1;
    let base = bt.0;
    let out_ty = Ty::List(Box::new(base));
    let mut out = new_empty_value(&out_ty);
    let rc = b.row_count();
    for i in 0..rc
        invariant
            out.wf(),
            out.spec_ty() == Ty::List(Box::new(base_ty(child_ty))),
            out.vals().len() == i,
            d as nat == child_ty.spec_depth(),
            forall|k: int|
                0 <= k < i ==> out.vals()[k] == ElemVal::List(
                    fm(row_content(list_vals[k]), child_ty.spec_depth()),
                ),
    {
        proof {
            lemma_vals_len(out);
        }
        let row: Vec<Elem> = match read_row(b, i) {
            Some(es) => es,
            None => Vec::new(),
        };
        let ghost content = row_content(list_vals[i as int]);
        proof {
            assert(elems_val(row@) =~= content);
        }
        let flat = flatten_elems(&row, d);
        let ghost goal = fm(content, child_ty.spec_depth());
        let row_elem = Elem::List(flat);
        proof {
            assert(row_elem.val() matches ElemVal::List(s) && s =~= goal);
            lemma_vals_fit(args@[0]);
            assert(fits(list_vals[i as int], Ty::List(Box::new(child_ty))));
            assert forall|k: int| 0 <= k < content.len() implies fits(
                #[trigger] content[k],
                child_ty,
            ) by {
                assert(content[k] == list_vals[i as int]->List_0[k]);
            }
            lemma_fm_fits(content, child_ty);
            assert(fits(row_elem.val(), Ty::List(Box::new(base_ty(child_ty)))));
        }
        out = value_push_elem(out, &row_elem);
    }
    Ok(out)
}

/// The innermost element type of a declared type, with its depth.
fn depth_and_base(t: &Ty) -> (r: (Ty, usize))
    requires
        t.spec_depth() <= usize::MAX,
    ensures
        r.0 == base_ty(*t),
        r.1 as nat == t.spec_depth(),
    decreases t,
{
    match t {
        Ty::List(t2) => {
            let inner = depth_and_base(t2);
            (inner.0, inner.1 + 1)
        },
        _ => (crate::model::ty_clone(t), 0),
    }
}

} // verus!
