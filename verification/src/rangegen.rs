//! Integer range generation: one half-open range per row.

use vstd::prelude::*;

use crate::arena::{fits, new_empty_value, value_push_elem};
use crate::error::ArrayError;
use crate::model::{elems_val, lemma_vals_len, Elem, ElemVal, Ty, Value};

verus! {

/// The values of the half-open range `[start, stop)` stepped by `step`;
/// a negative step walks downward over `(stop, start]`.
pub open spec fn range_seq(start: int, stop: int, step: int) -> Seq<ElemVal>
    decreases (if step > 0 {
        if stop > start {
            stop - start
        } else {
            0
        }
    } else {
        if start > stop {
            start - stop
        } else {
            0
        }
    }),
    when step != 0
{
    if step > 0 {
        if start >= stop {
            Seq::empty()
        } else {
            seq![ElemVal::Int(start)] + range_seq(start + step, stop, step)
        }
    } else {
        if start <= stop {
            Seq::empty()
        } else {
            seq![ElemVal::Int(start)] + range_seq(start + step, stop, step)
        }
    }
}

/// Every range value is an integer.
pub proof fn lemma_range_seq_ints(start: int, stop: int, step: int)
    requires
        step != 0,
    ensures
        forall|k: int|
            0 <= k < range_seq(start, stop, step).len() ==> (#[trigger] range_seq(
                start,
                stop,
                step,
            )[k]) is Int,
    decreases (if step > 0 {
        if stop > start {
            stop - start
        } else {
            0
        }
    } else {
        if start > stop {
            start - stop
        } else {
            0
        }
    }),
{
    if (step > 0 && start < stop) || (step < 0 && start > stop) {
        lemma_range_seq_ints(start + step, stop, step);
        assert forall|k: int|
            0 <= k < range_seq(start, stop, step).len() implies (#[trigger] range_seq(
            start,
            stop,
            step,
        )[k]) is Int by {
            if k > 0 {
                assert(range_seq(start, stop, step)[k] == range_seq(start + step, stop, step)[k
                    - 1]);
            }
        }
    }
}

/// The integer a column entry denotes, with a default for a null entry.
pub open spec fn int_or(e: ElemVal, d: int) -> int {
    match e {
        ElemVal::Int(x) => x,
        _ => d,
    }
}

/// The per-row start: 0 unless a start column is given.
pub open spec fn gr_start(args: Seq<Value>, i: int) -> int {
    if args.len() == 1 {
        0
    } else {
        int_or(args[0].vals()[i], 0)
    }
}

/// The per-row stop; a null stop reads as 0.
pub open spec fn gr_stop(args: Seq<Value>, i: int) -> int {
    if args.len() == 1 {
        int_or(args[0].vals()[i], 0)
    } else {
        int_or(args[1].vals()[i], 0)
    }
}

/// The per-row step: 1 unless a step column is given.
pub open spec fn gr_step(args: Seq<Value>, i: int) -> int {
    if args.len() == 3 {
        int_or(args[2].vals()[i], 1)
    } else {
        1
    }
}

/// The argument shape `gen_range` accepts: one to three integer columns
/// — stop; start and stop; or start, stop and step.
pub open spec fn gen_range_args_ok(args: Seq<Value>) -> bool {
    &&& 1 <= args.len() <= 3
    &&& forall|j: int| 0 <= j < args.len() ==> (#[trigger] args[j]) is Int64
}

/// Per row, the integers of the half-open range `[start, stop)` stepped
/// by `step`; a negative step walks downward over `(stop, start]`.  A
/// zero step is an execution error.
#[verifier::loop_isolation(false)]
pub fn gen_range(args: &Vec<Value>) -> (r: Result<Value, ArrayError>)
    requires
        forall|i: int| 0 <= i < args@.len() ==> (#[trigger] args@[i]).wf(),
        gen_range_args_ok(args@) ==> forall|j: int|
            0 <= j < args@.len() ==> (#[trigger] args@[j]).spec_len() == args@[0].spec_len(),
    ensures
        r is Ok <==> (gen_range_args_ok(args@) && (forall|i: int|
            0 <= i < args@[0].spec_len() ==> #[trigger] gr_step(args@, i) != 0)),
        r matches Ok(out) ==> {
            &&& out.wf()
            &&& out.spec_ty() == Ty::List(Box::new(Ty::Int64))
            &&& out.vals().len() == args@[0].spec_len()
            &&& forall|i: int|
                0 <= i < out.vals().len() ==> out.vals()[i] == ElemVal::List(
                    range_seq(gr_start(args@, i), gr_stop(args@, i), gr_step(args@, i)),
                )
        },
        r matches Err(e) ==> (if !gen_range_args_ok(args@) {
            e is Internal
        } else {
            e is Exec
        }),
{
    if !(args.len() >= 1 && args.len() <= 3) {
        return Err(ArrayError::Internal("gen_range expects one to three arguments".to_owned()));
    }
    let n = args.len();
    let mut j: usize = 0;
    while j < n
        invariant
            j <= n,
            forall|m: int| 0 <= m < j ==> (#[trigger] args@[m]) is Int64,
        decreases n - j,
    {
        if !matches!(&args[j], Value::Int64(_)) {
            return Err(ArrayError::Internal("gen_range expects integer columns".to_owned()));
        }
        j = j + 1;
    }
    let ghost ats = args@;
    proof {
        lemma_vals_len(ats[0]);
        if ats.len() >= 2 {
            lemma_vals_len(ats[1]);
        }
        if ats.len() == 3 {
            lemma_vals_len(ats[2]);
        }
    }
    let rc = args[0].len();
    let out_ty = Ty::List(Box::new(Ty::Int64));
    let mut out = new_empty_value(&out_ty);
    for i in 0..rc
        invariant
            out.wf(),
            out.spec_ty() == Ty::List(Box::new(Ty::Int64)),
            out.vals().len() == i,
            forall|k: int| 0 <= k < i ==> #[trigger] gr_step(ats, k) != 0,
            forall|k: int|
                0 <= k < i ==> out.vals()[k] == ElemVal::List(
                    range_seq(gr_start(ats, k), gr_stop(ats, k), gr_step(ats, k)),
                ),
    {
        proof {
            lemma_vals_len(out);
        }
        let start: i64 = if args.len() == 1 {
            0
        } else {
            match &args[0] {
                Value::Int64(d) => match d[i] {
                    Some(x) => x,
                    None => 0,
                },
                _ => 0,
            }
        };
        let stop: i64 = if args.len() == 1 {
            match &args[0] {
                Value::Int64(d) => match d[i] {
                    Some(x) => x,
                    None => 0,
                },
                _ => 0,
            }
        } else {
            match &args[1] {
                Value::Int64(d) => match d[i] {
                    Some(x) => x,
                    None => 0,
                },
                _ => 0,
            }
        };
        let step: i64 = if args.len() == 3 {
            match &args[2] {
                Value::Int64(d) => match d[i] {
                    Some(x) => x,
                    None => 1,
                },
                _ => 1,
            }
        } else {
            1
        };
        proof {
            assert(gr_start(ats, i as int) == start as int);
            assert(gr_stop(ats, i as int) == stop as int);
            assert(gr_step(ats, i as int) == step as int);
        }
        if step == 0 {
            return Err(ArrayError::Exec("step cannot be zero for gen_range".to_owned()));
        }
        let mut row: Vec<Elem> = Vec::new();
        let mut cur: i128 = start as i128;
        let ghost goal = range_seq(start as int, stop as int, step as int);
        while (step > 0 && cur < stop as i128) || (step < 0 && cur > stop as i128)
            invariant
                step != 0,
                step > 0 ==> start as i128 <= cur,
                step < 0 ==> cur <= start as i128,
                goal =~= elems_val(row@) + range_seq(cur as int, stop as int, step as int),
            decreases (if step > 0 {
                if stop as int > cur {
                    stop as int - cur
                } else {
                    0
                }
            } else {
                if cur > stop as int {
                    cur - stop as int
                } else {
                    0
                }
            }),
        {
            let ghost rv = elems_val(row@);
            row.push(Elem::Int(cur as i64));
            proof {
                assert(range_seq(cur as int, stop as int, step as int) == seq![
                    ElemVal::Int(cur as int),
                ] + range_seq(cur as int + step as int, stop as int, step as int));
                assert(elems_val(row@) =~= rv.push(ElemVal::Int(cur as int)));
                assert(rv + (seq![ElemVal::Int(cur as int)] + range_seq(
                    cur as int + step as int,
                    stop as int,
                    step as int,
                )) =~= elems_val(row@) + range_seq(
                    cur as int + step as int,
                    stop as int,
                    step as int,
                ));
            }
            cur = cur + step as i128;
        }
        proof {
            assert(range_seq(cur as int, stop as int, step as int) =~= Seq::<ElemVal>::empty());
            assert(elems_val(row@) + Seq::<ElemVal>::empty() =~= elems_val(row@));
        }
        let row_elem = Elem::List(row);
        proof {
            assert(row_elem.val() matches ElemVal::List(s) && s =~= goal);
            lemma_range_seq_ints(start as int, stop as int, step as int);
            assert forall|k: int| 0 <= k < goal.len() implies fits(
                #[trigger] goal[k],
                Ty::Int64,
            ) by {
                assert(goal[k] is Int);
            }
            assert(fits(row_elem.val(), Ty::List(Box::new(Ty::Int64))));
        }
        out = value_push_elem(out, &row_elem);
    }
    Ok(out)
}

} // verus!