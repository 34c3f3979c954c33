//! Indexing and slicing: element access by 1-based index, ranged slicing,
//! and the derived pop-front / pop-back operations.

use vstd::prelude::*;

use crate::arena::{lemma_rows_snoc_valid, new_empty_value, parts_wf, rows_of, value_clone,
    value_extend, value_extend_nulls, lemma_list_vals};
use crate::error::ArrayError;
use crate::model::{lemma_vals_len, ElemVal, ListCol, Value};

verus! {

/// The 0-based position a 1-based element index denotes in a row of
/// length `len`: negative indices count from the end, index 0 and
/// positions outside the row denote nothing.
pub open spec fn adjust_element_index(index: int, len: nat) -> int {
    if index < 0 {
        index + len
    } else {
        index - 1
    }
}

/// The element a row yields for `array_element`: null for a null or
/// empty row, a null index, or an index denoting no position.
pub open spec fn element_of(row: ElemVal, idx: ElemVal) -> ElemVal {
    match row {
        ElemVal::List(s) => {
            if s.len() == 0 {
                ElemVal::Null
            } else {
                match idx {
                    ElemVal::Int(i) => {
                        let pos = adjust_element_index(i, s.len());
                        if 0 <= pos < s.len() {
                            s[pos]
                        } else {
                            ElemVal::Null
                        }
                    },
                    _ => ElemVal::Null,
                }
            }
        },
        _ => ElemVal::Null,
    }
}

/// The adjusted 0-based start bound of a slice.
pub open spec fn adjust_from_index(index: int, len: nat) -> int {
    if index < 0 {
        index + len
    } else if index - 1 < 0 {
        0
    } else {
        index - 1
    }
}

/// The adjusted 0-based (inclusive) end bound of a slice.
pub open spec fn adjust_to_index(index: int, len: nat) -> int {
    if index < 0 {
        index + len - 1
    } else if index - 1 < len - 1 {
        index - 1
    } else {
        len - 1
    }
}

/// The validated start bound: a null bound defaults to the first
/// position; a bound denoting a position outside the row is invalid.
pub open spec fn from_bound(from_e: ElemVal, len: nat) -> Option<int> {
    match from_e {
        ElemVal::Null => Some(0),
        ElemVal::Int(i) => {
            let a = adjust_from_index(i, len);
            if 0 <= a < len {
                Some(a)
            } else {
                None
            }
        },
        _ => None,
    }
}

/// The validated end bound: a null bound defaults to the last position.
pub open spec fn to_bound(to_e: ElemVal, len: nat) -> Option<int> {
    match to_e {
        ElemVal::Null => Some(len - 1),
        ElemVal::Int(i) => {
            let a = adjust_to_index(i, len);
            if 0 <= a < len {
                Some(a)
            } else {
                None
            }
        },
        _ => None,
    }
}

/// The row `array_slice` produces: always a present row; empty when the
/// source row is null or empty, when a bound is invalid, or when the
/// bounds cross.
pub open spec fn slice_row(row: ElemVal, from_e: ElemVal, to_e: ElemVal) -> Seq<ElemVal> {
    match row {
        ElemVal::List(s) => {
            if s.len() == 0 {
                Seq::empty()
            } else {
                match (from_bound(from_e, s.len()), to_bound(to_e, s.len())) {
                    (Some(f), Some(t)) => {
                        if f <= t {
                            s.subrange(f, t + 1)
                        } else {
                            Seq::empty()
                        }
                    },
                    _ => Seq::empty(),
                }
            }
        },
        _ => Seq::empty(),
    }
}

/// The argument shape `array_element` accepts: a list column and an
/// integer index column.
pub open spec fn element_args_ok(args: Seq<Value>) -> bool {
    &&& args.len() == 2
    &&& args[0] is List
    &&& args[1] is Int64
}

/// Element access by 1-based index, one element per row.  A negative
/// index counts from the end of the row; index 0, an index outside the
/// row, a null index, and a null or empty row all yield null.
#[verifier::loop_isolation(false)]
#[verifier::rlimit(60)]
pub fn array_element(args: &Vec<Value>) -> (r: Result<Value, ArrayError>)
    requires
        forall|i: int| 0 <= i < args@.len() ==> (#[trigger] args@[i]).wf(),
        element_args_ok(args@) ==> args@[1].spec_len() == args@[0].spec_len(),
    ensures
        r is Ok <==> element_args_ok(args@),
        r matches Ok(out) ==> {
            &&& out.wf()
            &&& args@[0] matches Value::List(b) && out.spec_ty() == b.values.spec_ty()
            &&& out.vals().len() == args@[0].spec_len()
            &&& forall|i: int|
                0 <= i < out.vals().len() ==> out.vals()[i] == element_of(
                    args@[0].vals()[i],
                    args@[1].vals()[i],
                )
        },
        r matches Err(e) ==> (if args@.len() != 2 {
            e is Plan
        } else {
            e is Internal
        }),
{
    if args.len() != 2 {
        return Err(ArrayError::Plan("array_element expects two arguments".to_owned()));
    }
    let b: &ListCol = match &args[0] {
        Value::List(b) => b,
        _ => {
            return Err(ArrayError::Internal("array_element expects a list column".to_owned()));
        },
    };
    let idx: &Vec<Option<i64>> = match &args[1] {
        Value::Int64(d) => d,
        _ => {
            return Err(ArrayError::Internal("array_element expects an integer index".to_owned()));
        },
    };
    let ghost list_vals = args@[0].vals();
    let ghost idx_vals = args@[1].vals();
    let ghost child = b.values.vals();
    proof {
        lemma_vals_len(args@[0]);
        lemma_vals_len(args@[1]);
        lemma_vals_len(b.values);
    }
    let child_ty = b.values.ty();
    let mut out = new_empty_value(&child_ty);
    let rc = b.row_count();
    for i in 0..rc
        invariant
            out.wf(),
            out.spec_ty() == b.values.spec_ty(),
            out.vals().len() == i,
            forall|k: int|
                0 <= k < i ==> out.vals()[k] == element_of(list_vals[k], idx_vals[k]),
    {
        proof {
            lemma_vals_len(out);
        }
        let start = b.offsets[i];
        let end = b.offsets[i + 1];
        let len = end - start;
        let row_ok = b.valid_at(i) && len > 0;
        if !row_ok {
            out = value_extend_nulls(out, 1);
            proof {
                assert(element_of(list_vals[i as int], idx_vals[i as int]) is Null);
            }
        } else {
            let ghost row = list_vals[i as int]->List_0;
            proof {
                assert(list_vals[i as int] == ElemVal::List(
                    child.subrange(start as int, end as int),
                ));
            }
            match idx[i] {
                None => {
                    out = value_extend_nulls(out, 1);
                    proof {
                        assert(idx_vals[i as int] is Null);
                    }
                },
                Some(ix) => {
                    proof {
                        assert(idx_vals[i as int] == ElemVal::Int(ix as int));
                    }
                    let pos: i128 = if ix < 0 {
                        ix as i128 + len as i128
                    } else {
                        ix as i128 - 1
                    };
                    if 0 <= pos && pos < len as i128 {
                        let p = start + pos as usize;
                        out = value_extend(out, &b.values, p, p + 1);
                        proof {
                            assert(pos as int == adjust_element_index(ix as int, row.len()));
                            assert(child.subrange(p as int, p as int + 1) =~= seq![child[p as int]]);
                            assert(row[pos as int] == child[p as int]);
                            assert(element_of(list_vals[i as int], idx_vals[i as int]) == row[
                                pos as int
                            ]);
                        }
                    } else {
                        out = value_extend_nulls(out, 1);
                        proof {
                            assert(pos as int == adjust_element_index(ix as int, row.len()));
                            assert(element_of(list_vals[i as int], idx_vals[i as int]) is Null);
                        }
                    }
                },
            }
        }
    }
    Ok(out)
}

/// The argument shape `array_slice` accepts: a list column and two
/// integer bound columns.
pub open spec fn slice_args_ok(args: Seq<Value>) -> bool {
    &&& args.len() == 3
    &&& args[0] is List
    &&& args[1] is Int64
    &&& args[2] is Int64
}

/// What `array_slice` returns for given inputs: one present row per
/// source row, holding `slice_row` of that row and its bounds.
pub open spec fn slice_output_ok(args: Seq<Value>, out: Value) -> bool {
    &&& out.wf()
    &&& out.spec_ty() == args[0].spec_ty()
    &&& out.vals().len() == args[0].spec_len()
    &&& forall|i: int|
        0 <= i < out.vals().len() ==> out.vals()[i] == ElemVal::List(
            slice_row(args[0].vals()[i], args[1].vals()[i], args[2].vals()[i]),
        )
}

/// Ranged slicing with 1-based inclusive bounds: negative
/// bounds count from the end (the end bound exclusively so), a start
/// before the row clamps to its first element, an end past the row
/// clamps to its last.  Invalid or crossing bounds, null rows and empty
/// rows give an empty row, never a null one.
#[verifier::loop_isolation(false)]
#[verifier::rlimit(100)]
pub fn array_slice(args: &Vec<Value>) -> (r: Result<Value, ArrayError>)
    requires
        forall|i: int| 0 <= i < args@.len() ==> (#[trigger] args@[i]).wf(),
        slice_args_ok(args@) ==> args@[1].spec_len() == args@[0].spec_len() && args@[2].spec_len()
            == args@[0].spec_len(),
    ensures
        r is Ok <==> slice_args_ok(args@),
        r matches Ok(out) ==> slice_output_ok(args@, out),
        r matches Err(e) ==> (if args@.len() != 3 {
            e is Plan
        } else {
            e is Internal
        }),
{
    if args.len() != 3 {
        return Err(ArrayError::Plan("array_slice expects three arguments".to_owned()));
    }
    let b: &ListCol = match &args[0] {
        Value::List(b) => b,
        _ => {
            return Err(ArrayError::Internal("array_slice expects a list column".to_owned()));
        },
    };
    let from_col: &Vec<Option<i64>> = match &args[1] {
        Value::Int64(d) => d,
        _ => {
            return Err(ArrayError::Internal("array_slice expects integer bounds".to_owned()));
        },
    };
    let to_col: &Vec<Option<i64>> = match &args[2] {
        Value::Int64(d) => d,
        _ => {
            return Err(ArrayError::Internal("array_slice expects integer bounds".to_owned()));
        },
    };
    let ghost list_vals = args@[0].vals();
    let ghost from_vals = args@[1].vals();
    let ghost to_vals = args@[2].vals();
    let ghost child = b.values.vals();
    proof {
        lemma_vals_len(args@[0]);
        lemma_vals_len(args@[1]);
        lemma_vals_len(args@[2]);
        lemma_vals_len(b.values);
    }
    let child_ty = b.values.ty();
    let mut values = new_empty_value(&child_ty);
    let mut offsets: Vec<usize> = Vec::new();
    offsets.push(0);
    let mut mask: Vec<bool> = Vec::new();
    let rc = b.row_count();
    for i in 0..rc
        invariant
            values.wf(),
            values.spec_ty() == b.values.spec_ty(),
            parts_wf(values.spec_len(), offsets@, mask@),
            rows_of(values.vals(), offsets@, mask@) =~= Seq::new(
                i as nat,
                |k: int| ElemVal::List(slice_row(list_vals[k], from_vals[k], to_vals[k])),
            ),
    {
        let ghost child0 = values.vals();
        let ghost offsets0 = offsets@;
        let ghost mask0 = mask@;
        proof {
            lemma_vals_len(values);
        }
        let start = b.offsets[i];
        let end = b.offsets[i + 1];
        let len = end - start;
        let ghost srow = slice_row(list_vals[i as int], from_vals[i as int], to_vals[i as int]);
        let mut lo: usize = 0;
        let mut hi: usize = 0;
        let mut take: bool = false;
        if b.valid_at(i) && len > 0 {
            let ghost row = list_vals[i as int]->List_0;
            proof {
                assert(list_vals[i as int] == ElemVal::List(
                    child.subrange(start as int, end as int),
                ));
            }
            let f_opt: Option<i128> = match from_col[i] {
                None => Some(0),
                Some(fx) => {
                    let a: i128 = if fx < 0 {
                        fx as i128 + len as i128
                    } else if fx as i128 - 1 < 0 {
                        0
                    } else {
                        fx as i128 - 1
                    };
                    proof {
                        assert(a as int == adjust_from_index(fx as int, row.len()));
                    }
                    if 0 <= a && a < len as i128 {
                        Some(a)
                    } else {
                        None
                    }
                },
            };
            let t_opt: Option<i128> = match to_col[i] {
                None => Some(len as i128 - 1),
                Some(tx) => {
                    let a: i128 = if tx < 0 {
                        tx as i128 + len as i128 - 1
                    } else if tx as i128 - 1 < len as i128 - 1 {
                        tx as i128 - 1
                    } else {
                        len as i128 - 1
                    };
                    proof {
                        assert(a as int == adjust_to_index(tx as int, row.len()));
                    }
                    if 0 <= a && a < len as i128 {
                        Some(a)
                    } else {
                        None
                    }
                },
            };
            proof {
                assert(match f_opt {
                    Some(f) => from_bound(from_vals[i as int], row.len()) == Some(f as int),
                    None => from_bound(from_vals[i as int], row.len()) is None,
                });
                assert(match t_opt {
                    Some(t) => to_bound(to_vals[i as int], row.len()) == Some(t as int),
                    None => to_bound(to_vals[i as int], row.len()) is None,
                });
            }
            if let (Some(f), Some(t)) = (f_opt, t_opt) {
                if f <= t {
                    lo = start + f as usize;
                    hi = start + t as usize + 1;
                    take = true;
                    proof {
                        assert(srow =~= child.subrange(lo as int, hi as int));
                    }
                }
            }
        }
        if take {
            values = value_extend(values, &b.values, lo, hi);
            proof {
                lemma_vals_len(values);
            }
            let new_off = values.len();
            offsets.push(new_off);
            mask.push(true);
            proof {
                lemma_rows_snoc_valid(
                    child0,
                    child.subrange(lo as int, hi as int),
                    offsets0,
                    mask0,
                    new_off,
                );
            }
        } else {
            let new_off = offsets[offsets.len() - 1];
            offsets.push(new_off);
            mask.push(true);
            proof {
                assert(srow =~= Seq::<ElemVal>::empty());
                lemma_rows_snoc_valid(child0, Seq::empty(), offsets0, mask0, new_off);
                assert(child0 + Seq::<ElemVal>::empty() =~= child0);
            }
        }
        proof {
            assert(rows_of(values.vals(), offsets@, mask@) =~= Seq::new(
                (i + 1) as nat,
                |k: int| ElemVal::List(slice_row(list_vals[k], from_vals[k], to_vals[k])),
            ));
        }
    }
    let out_col = ListCol { values, offsets, nulls: Some(mask) };
    let out = Value::List(Box::new(out_col));
    proof {
        lemma_list_vals(out_col);
        lemma_vals_len(out);
        assert(out.vals() =~= Seq::new(
            rc as nat,
            |k: int| ElemVal::List(slice_row(list_vals[k], from_vals[k], to_vals[k])),
        ));
    }
    Ok(out)
}

/// The row `array_pop_back` produces: the row without its last element.
pub open spec fn pop_back_row(row: ElemVal) -> Seq<ElemVal> {
    match row {
        ElemVal::List(s) => slice_row(row, ElemVal::Int(1), ElemVal::Int(s.len() - 1)),
        _ => Seq::empty(),
    }
}

/// The row `array_pop_front` produces: the row without its first element.
pub open spec fn pop_front_row(row: ElemVal) -> Seq<ElemVal> {
    match row {
        ElemVal::List(s) => slice_row(row, ElemVal::Int(2), ElemVal::Int(s.len() as int)),
        _ => Seq::empty(),
    }
}

/// The length of a list row, or `d` for a null row.
pub open spec fn row_len_or(v: ElemVal, d: int) -> int {
    match v {
        ElemVal::List(s) => s.len() as int,
        _ => d,
    }
}

/// The argument shape the pop operations accept: one list column.
pub open spec fn pop_args_ok(args: Seq<Value>) -> bool {
    args.len() == 1 && args[0] is List
}

/// Drop the last element of every row: a slice from the first to the
/// next-to-last position.  Null and empty rows give empty rows.
#[verifier::loop_isolation(false)]
pub fn array_pop_back(args: &Vec<Value>) -> (r: Result<Value, ArrayError>)
    requires
        forall|i: int| 0 <= i < args@.len() ==> (#[trigger] args@[i]).wf(),
        args@.len() == 1 ==> (args@[0] matches Value::List(b) ==> b.values.spec_len()
            <= i64::MAX),
    ensures
        r is Ok <==> pop_args_ok(args@),
        r matches Ok(out) ==> {
            &&& out.wf()
            &&& out.spec_ty() == args@[0].spec_ty()
            &&& out.vals().len() == args@[0].spec_len()
            &&& forall|i: int|
                0 <= i < out.vals().len() ==> out.vals()[i] == ElemVal::List(
                    pop_back_row(args@[0].vals()[i]),
                )
        },
        r matches Err(e) ==> (if args@.len() != 1 {
            e is Plan
        } else {
            e is Internal
        }),
{
    if args.len() != 1 {
        return Err(ArrayError::Plan("array_pop_back expects one argument".to_owned()));
    }
    let b: &ListCol = match &args[0] {
        Value::List(b) => b,
        _ => {
            return Err(ArrayError::Internal("array_pop_back expects a list column".to_owned()));
        },
    };
    let ghost list_vals = args@[0].vals();
    proof {
        lemma_vals_len(args@[0]);
    }
    let rc = b.row_count();
    let mut from_col: Vec<Option<i64>> = Vec::new();
    let mut to_col: Vec<Option<i64>> = Vec::new();
    for i in 0..rc
        invariant
            from_col@.len() == i,
            to_col@.len() == i,
            forall|k: int| 0 <= k < i ==> from_col@[k] == Some(1i64),
            forall|k: int|
                0 <= k < i ==> ((#[trigger] to_col@[k]) matches Some(t) && t as int == row_len_or(
                    list_vals[k],
                    0,
                ) - 1),
    {
        from_col.push(Some(1));
        if b.valid_at(i) {
            let start = b.offsets[i];
            let end = b.offsets[i + 1];
            proof {
                assert(list_vals[i as int] == ElemVal::List(
                    b.values.vals().subrange(start as int, end as int),
                ));
                lemma_vals_len(b.values);
                assert(list_vals[i as int]->List_0.len() == end - start);
            }
            to_col.push(Some((end - start) as i64 - 1));
        } else {
            to_col.push(Some(0 - 1));
            proof {
                assert(list_vals[i as int] is Null);
            }
        }
    }
    let copy = value_clone(&args[0]);
    let mut sargs: Vec<Value> = Vec::new();
    sargs.push(copy);
    sargs.push(Value::Int64(from_col));
    sargs.push(Value::Int64(to_col));
    proof {
        lemma_vals_len(sargs@[1]);
        lemma_vals_len(sargs@[2]);
        assert(sargs@[0].vals() == list_vals);
    }
    let out = match array_slice(&sargs) {
        Ok(out) => out,
        Err(_) => {
            proof {
                assert(false);
            }
            return Err(ArrayError::Internal("array_pop_back failed".to_owned()));
        },
    };
    proof {
        assert forall|i: int| 0 <= i < out.vals().len() implies out.vals()[i] == ElemVal::List(
            pop_back_row(list_vals[i]),
        ) by {
            assert(out.vals()[i] == ElemVal::List(
                slice_row(sargs@[0].vals()[i], sargs@[1].vals()[i], sargs@[2].vals()[i]),
            ));
            if list_vals[i] is List {
                assert(sargs@[2].vals()[i] == ElemVal::Int(row_len_or(list_vals[i], 0) - 1));
            }
        }
    }
    Ok(out)
}

/// Drop the first element of every row: a slice from the second to the
/// last position.  Null and empty rows give empty rows.
#[verifier::loop_isolation(false)]
pub fn array_pop_front(args: &Vec<Value>) -> (r: Result<Value, ArrayError>)
    requires
        forall|i: int| 0 <= i < args@.len() ==> (#[trigger] args@[i]).wf(),
        args@.len() == 1 ==> (args@[0] matches Value::List(b) ==> b.values.spec_len()
            <= i64::MAX),
    ensures
        r is Ok <==> pop_args_ok(args@),
        r matches Ok(out) ==> {
            &&& out.wf()
            &&& out.spec_ty() == args@[0].spec_ty()
            &&& out.vals().len() == args@[0].spec_len()
            &&& forall|i: int|
                0 <= i < out.vals().len() ==> out.vals()[i] == ElemVal::List(
                    pop_front_row(args@[0].vals()[i]),
                )
        },
        r matches Err(e) ==> (if args@.len() != 1 {
            e is Plan
        } else {
            e is Internal
        }),
{
    if args.len() != 1 {
        return Err(ArrayError::Plan("array_pop_front expects one argument".to_owned()));
    }
    let b: &ListCol = match &args[0] {
        Value::List(b) => b,
        _ => {
            return Err(ArrayError::Internal("array_pop_front expects a list column".to_owned()));
        },
    };
    let ghost list_vals = args@[0].vals();
    proof {
        lemma_vals_len(args@[0]);
    }
    let rc = b.row_count();
    let mut from_col: Vec<Option<i64>> = Vec::new();
    let mut to_col: Vec<Option<i64>> = Vec::new();
    for i in 0..rc
        invariant
            from_col@.len() == i,
            to_col@.len() == i,
            forall|k: int| 0 <= k < i ==> from_col@[k] == Some(2i64),
            forall|k: int|
                0 <= k < i ==> ((#[trigger] to_col@[k]) matches Some(t) && t as int == row_len_or(
                    list_vals[k],
                    0,
                )),
    {
        from_col.push(Some(2));
        if b.valid_at(i) {
            let start = b.offsets[i];
            let end = b.offsets[i + 1];
            proof {
                assert(list_vals[i as int] == ElemVal::List(
                    b.values.vals().subrange(start as int, end as int),
                ));
                lemma_vals_len(b.values);
                assert(list_vals[i as int]->List_0.len() == end - start);
            }
            to_col.push(Some((end - start) as i64));
        } else {
            to_col.push(Some(0));
            proof {
                assert(list_vals[i as int] is Null);
            }
        }
    }
    let copy = value_clone(&args[0]);
    let mut sargs: Vec<Value> = Vec::new();
    sargs.push(copy);
    sargs.push(Value::Int64(from_col));
    sargs.push(Value::Int64(to_col));
    proof {
        lemma_vals_len(sargs@[1]);
        lemma_vals_len(sargs@[2]);
        assert(sargs@[0].vals() == list_vals);
    }
    let out = match array_slice(&sargs) {
        Ok(out) => out,
        Err(_) => {
            proof {
                assert(false);
            }
            return Err(ArrayError::Internal("array_pop_front failed".to_owned()));
        },
    };
    proof {
        assert forall|i: int| 0 <= i < out.vals().len() implies out.vals()[i] == ElemVal::List(
            pop_front_row(list_vals[i]),
        ) by {
            assert(out.vals()[i] == ElemVal::List(
                slice_row(sargs@[0].vals()[i], sargs@[1].vals()[i], sargs@[2].vals()[i]),
            ));
            if list_vals[i] is List {
                assert(sargs@[2].vals()[i] == ElemVal::Int(row_len_or(list_vals[i], 0)));
            }
        }
    }
    Ok(out)
}

} // verus!
