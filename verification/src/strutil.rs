//! Text utilities: stringifying columns and splitting text into rows.

use vstd::prelude::*;
use vstd::string::{StrSliceExecFns, StringExecFns};

use crate::arena::{fits, new_empty_value, value_extend_nulls, value_push_elem};
use crate::construct::base_ty;
use crate::error::ArrayError;
use crate::model::{elems_val, lemma_vals_len, read_row, Elem, ElemVal, ListCol, Ty, Value};

verus! {

/// The decimal digit character for `d`.
pub open spec fn digit_char(d: int) -> char {
    if d == 0 {
        '0'
    } else if d == 1 {
        '1'
    } else if d == 2 {
        '2'
    } else if d == 3 {
        '3'
    } else if d == 4 {
        '4'
    } else if d == 5 {
        '5'
    } else if d == 6 {
        '6'
    } else if d == 7 {
        '7'
    } else if d == 8 {
        '8'
    } else {
        '9'
    }
}

/// The decimal digits of a non-negative number, most significant first.
pub open spec fn dec_digits(n: int) -> Seq<char>
    decreases n,
{
    if n < 10 {
        seq![digit_char(n)]
    } else {
        dec_digits(n / 10).push(digit_char(n % 10))
    }
}

/// The decimal text of an integer, with a leading minus sign when
/// negative.
pub open spec fn int_str(x: int) -> Seq<char> {
    if x < 0 {
        seq!['-'] + dec_digits(-x)
    } else {
        dec_digits(x)
    }
}

/// The text of a boolean.
pub open spec fn bool_str(b: bool) -> Seq<char> {
    if b {
        "true"@
    } else {
        "false"@
    }
}

/// The text of one leaf value.
pub open spec fn leaf_str(v: ElemVal) -> Seq<char> {
    match v {
        ElemVal::Int(x) => int_str(x),
        ElemVal::Bool(b) => bool_str(b),
        ElemVal::Str(s) => s,
        _ => Seq::empty(),
    }
}

/// One decimal digit as text.
fn digit_str(d: u64) -> (r: &'static str)
    requires
        d < 10,
    ensures
        r@ == seq![digit_char(d as int)],
{
    let r: &'static str = if d == 0 {
        "0"
    } else if d == 1 {
        "1"
    } else if d == 2 {
        "2"
    } else if d == 3 {
        "3"
    } else if d == 4 {
        "4"
    } else if d == 5 {
        "5"
    } else if d == 6 {
        "6"
    } else if d == 7 {
        "7"
    } else if d == 8 {
        "8"
    } else {
        "9"
    };
    proof {
        reveal_strlit("0");
        reveal_strlit("1");
        reveal_strlit("2");
        reveal_strlit("3");
        reveal_strlit("4");
        reveal_strlit("5");
        reveal_strlit("6");
        reveal_strlit("7");
        reveal_strlit("8");
        reveal_strlit("9");
        assert(r@ =~= seq![digit_char(d as int)]);
    }
    r
}

/// The decimal text of an unsigned number.
fn u64_dec(n: u64) -> (r: String)
    ensures
        r@ == dec_digits(n as int),
    decreases n,
{
    if n < 10 {
        String::from_str(digit_str(n))
    } else {
        let mut s = u64_dec(n / 10);
        let ghost sv = s@;
        s.append(digit_str(n % 10));
        proof {
            assert(s@ =~= dec_digits(n as int / 10).push(digit_char(n as int % 10)));
        }
        s
    }
}

/// The decimal text of a signed number.
fn i64_str(x: i64) -> (r: String)
    ensures
        r@ == int_str(x as int),
{
    if x >= 0 {
        u64_dec(x as u64)
    } else {
        let mag: u64 = (-(x as i128)) as u64;
        let mut s = String::from_str("-");
        let digits = u64_dec(mag);
        s.append(digits.as_str());
        proof {
            reveal_strlit("-");
            assert(mag as int == -(x as int));
            assert(s@ =~= seq!['-'] + dec_digits(-(x as int)));
        }
        s
    }
}

/// The text of a boolean, computed.
fn bool_str_exec(b: bool) -> (r: String)
    ensures
        r@ == bool_str(b),
{
    if b {
        String::from_str("true")
    } else {
        String::from_str("false")
    }
}

/// The text a run of elements contributes: each leaf's text followed by
/// the delimiter, depth first through `d` list levels.  A null leaf
/// contributes the null replacement (when given) or nothing; leaves of
/// the untyped-null type (`nt`) contribute nothing at all; null rows on
/// the way contribute nothing.
pub open spec fn col_chars(
    s: Seq<ElemVal>,
    d: nat,
    nt: bool,
    delim: Seq<char>,
    nullrep: Option<Seq<char>>,
) -> Seq<char>
    decreases d, s.len(),
{
    if s.len() == 0 {
        Seq::empty()
    } else if d == 0 {
        (if nt {
            Seq::empty()
        } else {
            match s[0] {
                ElemVal::Null => match nullrep {
                    Some(ns) => ns + delim,
                    None => Seq::empty(),
                },
                v => leaf_str(v) + delim,
            }
        }) + col_chars(s.drop_first(), 0, nt, delim, nullrep)
    } else {
        (match s[0] {
            ElemVal::List(t) => col_chars(t, (d - 1) as nat, nt, delim, nullrep),
            _ => Seq::empty(),
        }) + col_chars(s.drop_first(), d, nt, delim, nullrep)
    }
}

/// The text without one trailing delimiter, when it ends with one.
pub open spec fn strip_one_suffix(s: Seq<char>, delim: Seq<char>) -> Seq<char> {
    if delim.len() <= s.len() && s.subrange(s.len() - delim.len(), s.len() as int) == delim {
        s.subrange(0, s.len() - delim.len())
    } else {
        s
    }
}

/// The view of an optional null replacement.
pub open spec fn opt_view(o: Option<&String>) -> Option<Seq<char>> {
    match o {
        Some(ns) => Some(ns@),
        None => None,
    }
}

/// Append the text of a run of elements, depth first.
#[verifier::loop_isolation(false)]
fn append_elems(
    out: &mut String,
    es: &Vec<Elem>,
    d: usize,
    nt: bool,
    delim: &str,
    nullrep: Option<&String>,
)
    ensures
        final(out)@ == old(out)@ + col_chars(elems_val(es@), d as nat, nt, delim@, opt_view(
            nullrep,
        )),
    decreases d,
{
    let ghost base = out@;
    let ghost sv = elems_val(es@);
    let ghost nr = opt_view(nullrep);
    let n = es.len();
    proof {
        assert(sv.skip(0) =~= sv);
    }
    for j in 0..n
        invariant
            base + col_chars(sv, d as nat, nt, delim@, nr) =~= out@ + col_chars(
                sv.skip(j as int),
                d as nat,
                nt,
                delim@,
                nr,
            ),
    {
        let ghost ov = out@;
        let ghost rest = sv.skip(j as int);
        proof {
            assert(rest[0] == sv[j as int]);
            assert(rest.drop_first() =~= sv.skip(j as int + 1));
        }
        if d == 0 {
            if !nt {
                match &es[j] {
                    Elem::Null => {
                        match nullrep {
                            Some(ns) => {
                                out.append(ns.as_str());
                                out.append(delim);
                            },
                            None => {},
                        }
                        proof {
                            assert(sv[j as int] is Null);
                        }
                    },
                    Elem::Int(x) => {
                        let t = i64_str(*x);
                        out.append(t.as_str());
                        out.append(delim);
                        proof {
                            assert(sv[j as int] == ElemVal::Int(*x as int));
                        }
                    },
                    Elem::Bool(x) => {
                        let t = bool_str_exec(*x);
                        out.append(t.as_str());
                        out.append(delim);
                        proof {
                            assert(sv[j as int] == ElemVal::Bool(*x));
                        }
                    },
                    Elem::Str(x) => {
                        out.append(x.as_str());
                        out.append(delim);
                        proof {
                            assert(sv[j as int] == ElemVal::Str(x@));
                        }
                    },
                    Elem::List(_) => {
                        proof {
                            assert(sv[j as int] is List);
                            assert(leaf_str(sv[j as int]) =~= Seq::<char>::empty());
                        }
                        out.append(delim);
                        proof {
                            assert(leaf_str(sv[j as int]) + delim@ =~= delim@);
                        }
                    },
                }
            }
            proof {
                assert(ov + (col_chars(rest, 0, nt, delim@, nr)) =~= out@ + col_chars(
                    sv.skip(j as int + 1),
                    0,
                    nt,
                    delim@,
                    nr,
                ));
            }
        } else {
            match &es[j] {
                Elem::List(v) => {
                    proof {
                        assert(sv[j as int] matches ElemVal::List(t) && t =~= elems_val(v@));
                    }
                    append_elems(out, v, d - 1, nt, delim, nullrep);
                },
                _ => {
                    proof {
                        assert(!(sv[j as int] is List)) by {
                            match es@[j as int] {
                                Elem::Null => {},
                                Elem::Int(_) => {},
                                Elem::Bool(_) => {},
                                Elem::Str(_) => {},
                                Elem::List(_) => {},
                            }
                        }
                    }
                },
            }
            proof {
                assert(ov + (col_chars(rest, d as nat, nt, delim@, nr)) =~= out@ + col_chars(
                    sv.skip(j as int + 1),
                    d as nat,
                    nt,
                    delim@,
                    nr,
                ));
            }
        }
    }
    proof {
        assert(sv.skip(n as int) =~= Seq::<ElemVal>::empty());
        assert(col_chars(Seq::<ElemVal>::empty(), d as nat, nt, delim@, nr) =~= Seq::<
            char,
        >::empty());
        assert(out@ + Seq::<char>::empty() =~= out@);
        assert(base + col_chars(sv, d as nat, nt, delim@, nr) =~= out@);
    }
}

/// Whether two text values are equal.
#[verifier::loop_isolation(false)]
fn str_eq(x: &str, y: &str) -> (r: bool)
    ensures
        r == (x@ == y@),
{
    let xl = x.unicode_len();
    let yl = y.unicode_len();
    if xl != yl {
        return false;
    }
    for i in 0..xl
        invariant
            forall|k: int| 0 <= k < i ==> x@[k] == y@[k],
    {
        let cx = x.get_char(i);
        let cy = y.get_char(i);
        if cx != cy {
            return false;
        }
    }
    proof {
        assert(x@ =~= y@);
    }
    true
}

/// Strip one trailing delimiter from built text.
#[verifier::loop_isolation(false)]
fn strip_suffix_exec(s: String, delim: &str) -> (r: String)
    ensures
        r@ == strip_one_suffix(s@, delim@),
{
    let sl = s.as_str().unicode_len();
    let dl = delim.unicode_len();
    if dl <= sl {
        let tail = s.as_str().substring_char(sl - dl, sl);
        if str_eq(tail, delim) {
            let head = s.as_str().substring_char(0, sl - dl);
            return String::from_str(head);
        }
    }
    s
}

/// The per-call null replacement of `array_to_string`: the first entry
/// of the third column, an absent entry reading as empty text.
pub open spec fn nullrep_of(args: Seq<Value>) -> Option<Seq<char>> {
    if args.len() == 3 {
        Some(
            match args[2].vals()[0] {
                ElemVal::Str(s) => s,
                _ => Seq::empty(),
            },
        )
    } else {
        None
    }
}

/// The argument shape `array_to_string` accepts on a list column.
pub open spec fn to_string_args_ok(args: Seq<Value>) -> bool {
    &&& (args.len() == 2 || args.len() == 3)
    &&& args[1] is Utf8
    &&& (args.len() == 3 ==> args[2] is Utf8)
}

/// What `array_to_string` owes on a list column: per row, the leaf
/// texts joined by the row's delimiter with one trailing delimiter
/// stripped; a null row or null delimiter gives null.
pub open spec fn to_string_output_ok(args: Seq<Value>, out: Value) -> bool {
    let b = args[0]->List_0;
    let d = b.values.spec_ty().spec_depth();
    let nt = base_ty(b.values.spec_ty()) is Null;
    &&& out is Utf8
    &&& out.vals().len() == args[0].spec_len()
    &&& forall|i: int|
        0 <= i < out.vals().len() ==> out.vals()[i] == (match (args[0].vals()[i], args[1].vals()[i]) {
            (ElemVal::List(s), ElemVal::Str(dl)) => ElemVal::Str(
                strip_one_suffix(col_chars(s, d, nt, dl, nullrep_of(args)), dl),
            ),
            _ => ElemVal::Null,
        })
}

/// What `array_to_string` owes on a column that is no list: one row of
/// output, stringifying the whole column.
pub open spec fn to_string_scalar_ok(args: Seq<Value>, out: Value) -> bool {
    let dl = args[1].vals()[0]->Str_0;
    let nt = args[0] is Null;
    &&& out is Utf8
    &&& out.vals().len() == 1
    &&& out.vals()[0] == ElemVal::Str(
        strip_one_suffix(col_chars(args[0].vals(), 0, nt, dl, nullrep_of(args)), dl),
    )
}

/// Join each row's leaf values into one text, depth first, with the
/// row's delimiter after every entry and one trailing delimiter
/// stripped.  Null leaves take the replacement text when one is given
/// and are skipped otherwise; a null row or null delimiter gives null.
/// A column that is no list joins into a single row of output.
#[verifier::loop_isolation(false)]
pub fn array_to_string(args: &Vec<Value>) -> (r: Result<Value, ArrayError>)
    requires
        forall|i: int| 0 <= i < args@.len() ==> (#[trigger] args@[i]).wf(),
        forall|i: int|
            0 <= i < args@.len() ==> (#[trigger] args@[i]).spec_ty().spec_depth() <= usize::MAX,
        args@.len() >= 1,
        args@[0] is List && to_string_args_ok(args@) ==> args@[1].spec_len()
            == args@[0].spec_len(),
        args@.len() == 3 ==> args@[2].spec_len() >= 1,
        to_string_args_ok(args@) && !(args@[0] is List) ==> (args@[1].spec_len() == 1
            && args@[1].vals()[0] is Str),
    ensures
        r is Ok <==> to_string_args_ok(args@),
        r matches Ok(out) ==> (if args@[0] is List {
            to_string_output_ok(args@, out)
        } else {
            to_string_scalar_ok(args@, out)
        }),
        r matches Err(e) ==> (if !(args@.len() == 2 || args@.len() == 3) {
            e is Plan
        } else {
            e is Internal
        }),
{
    if !(args.len() == 2 || args.len() == 3) {
        return Err(ArrayError::Plan("array_to_string expects two or three arguments".to_owned()));
    }
    let delims: &Vec<Option<String>> = match &args[1] {
        Value::Utf8(d) => d,
        _ => {
            return Err(ArrayError::Internal("array_to_string expects a text delimiter".to_owned()));
        },
    };
    let mut nullrep: Option<String> = None;
    if args.len() == 3 {
        let nr: &Vec<Option<String>> = match &args[2] {
            Value::Utf8(d) => d,
            _ => {
                return Err(
                    ArrayError::Internal("array_to_string expects a text replacement".to_owned()),
                );
            },
        };
        proof {
            lemma_vals_len(args@[2]);
        }
        nullrep = match &nr[0] {
            Some(s) => Some(s.clone()),
            None => Some(String::new()),
        };
    }
    let b: &ListCol = match &args[0] {
        Value::List(b) => b,
        _ => {
            // a column that is no list joins into one output row
            proof {
                lemma_vals_len(args@[0]);
                lemma_vals_len(args@[1]);
                assert(opt_view(match &nullrep {
                    Some(s) => Some(s),
                    None => None,
                }) == nullrep_of(args@));
            }
            let dl: &String = match &delims[0] {
                Some(dl) => dl,
                None => {
                    proof {
                        assert(false);
                    }
                    return Err(
                        ArrayError::Internal("array_to_string expects a text delimiter".to_owned()),
                    );
                },
            };
            let nt = matches!(&args[0], Value::Null(_));
            let n = args[0].len();
            let mut es: Vec<Elem> = Vec::new();
            for j in 0..n
                invariant
                    es@.len() == j,
                    forall|k: int|
                        0 <= k < j ==> (#[trigger] elems_val(es@)[k]) == args@[0].vals()[k],
            {
                let ghost pv = elems_val(es@);
                es.push(crate::model::value_get(&args[0], j));
                proof {
                    assert(elems_val(es@) =~= pv.push(args@[0].vals()[j as int]));
                }
            }
            proof {
                assert(elems_val(es@) =~= args@[0].vals());
                assert(args@[1].vals()[0] == ElemVal::Str(dl@));
            }
            let mut s = String::new();
            append_elems(
                &mut s,
                &es,
                0,
                nt,
                dl.as_str(),
                match &nullrep {
                    Some(x) => Some(x),
                    None => None,
                },
            );
            let stripped = strip_suffix_exec(s, dl.as_str());
            let mut data: Vec<Option<String>> = Vec::new();
            data.push(Some(stripped));
            let out = Value::Utf8(data);
            proof {
                lemma_vals_len(out);
            }
            return Ok(out);
        },
    };
    let ghost list_vals = args@[0].vals();
    let ghost delim_vals = args@[1].vals();
    let ghost nr = nullrep_of(args@);
    proof {
        lemma_vals_len(args@[0]);
        lemma_vals_len(args@[1]);
        assert(opt_view(match &nullrep {
            Some(s) => Some(s),
            None => None,
        }) == nr);
    }
    let bt = crate::model::ty_clone(&b.values.ty());
    let d = depth_of(&b.values.ty());
    let nt = matches!(base_ty_ref(&bt), Ty::Null);
    let ghost dn = b.values.spec_ty().spec_depth();
    let rc = b.row_count();
    let mut data: Vec<Option<String>> = Vec::new();
    for i in 0..rc
        invariant
            data@.len() == i,
            forall|k: int|
                0 <= k < i ==> (match (list_vals[k], delim_vals[k]) {
                    (ElemVal::List(s), ElemVal::Str(dl)) => (#[trigger] data@[k]) matches Some(t)
                        && t@ == strip_one_suffix(col_chars(s, dn, nt, dl, nr), dl),
                    _ => data@[k] is None,
                }),
    {
        let row_opt = read_row(b, i);
        let ghost rowv = list_vals[i as int];
        match (row_opt, &delims[i]) {
            (Some(es), Some(dl)) => {
                let mut s = String::new();
                append_elems(
                    &mut s,
                    &es,
                    d,
                    nt,
                    dl.as_str(),
                    match &nullrep {
                        Some(x) => Some(x),
                        None => None,
                    },
                );
                let stripped = strip_suffix_exec(s, dl.as_str());
                proof {
                    assert(rowv matches ElemVal::List(rs) && rs =~= elems_val(es@));
                    assert(delim_vals[i as int] == ElemVal::Str(dl@));
                }
                data.push(Some(stripped));
            },
            _ => {
                data.push(None);
                proof {
                    assert(rowv is Null || delim_vals[i as int] is Null);
                }
            },
        }
    }
    let out = Value::Utf8(data);
    proof {
        assert forall|i: int| 0 <= i < out.vals().len() implies out.vals()[i] == (match (
        list_vals[i],
        delim_vals[i],
        ) {
            (ElemVal::List(s), ElemVal::Str(dl)) => ElemVal::Str(
                strip_one_suffix(col_chars(s, dn, nt, dl, nr), dl),
            ),
            _ => ElemVal::Null,
        }) by {
            match (list_vals[i], delim_vals[i]) {
                (ElemVal::List(s), ElemVal::Str(dl)) => {
                    assert(data@[i] matches Some(t) && t@ == strip_one_suffix(
                        col_chars(s, dn, nt, dl, nr),
                        dl,
                    ));
                },
                _ => {
                    assert(data@[i] is None);
                },
            }
        }
    }
    Ok(out)
}

/// The first position at or after `k` where the delimiter occurs.
pub open spec fn find_sub(s: Seq<char>, d: Seq<char>, k: int) -> Option<int>
    decreases s.len() - k,
    when d.len() >= 1
{
    if k < 0 || k + d.len() > s.len() {
        None
    } else if s.subrange(k, k + d.len()) == d {
        Some(k)
    } else {
        find_sub(s, d, k + 1)
    }
}

/// The pieces of `t` split on every occurrence of the non-empty
/// delimiter `d`, left to right.
pub open spec fn split_rec(t: Seq<char>, d: Seq<char>) -> Seq<Seq<char>>
    decreases t.len(),
    when d.len() >= 1
{
    match find_sub(t, d, 0) {
        None => seq![t],
        Some(i) => {
            proof {
                lemma_find_sub_in_range(t, d, 0);
            }
            seq![t.subrange(0, i)] + split_rec(t.skip(i + d.len()), d)
        },
    }
}

/// A found occurrence lies within the text.
pub proof fn lemma_find_sub_in_range(s: Seq<char>, d: Seq<char>, k: int)
    requires
        d.len() >= 1,
        k >= 0,
    ensures
        find_sub(s, d, k) matches Some(p) ==> k <= p && p + d.len() <= s.len(),
    decreases s.len() - k,
{
    if !(k + d.len() > s.len()) && s.subrange(k, k + d.len()) != d {
        lemma_find_sub_in_range(s, d, k + 1);
    }
}

/// The pieces one text entry splits into for one delimiter entry: an
/// empty delimiter keeps the whole text as one piece; a null delimiter
/// splits into one piece per character.
pub open spec fn pieces_of(s: Seq<char>, dv: ElemVal) -> Seq<Seq<char>> {
    match dv {
        ElemVal::Str(d) => {
            if d.len() == 0 {
                seq![s]
            } else {
                split_rec(s, d)
            }
        },
        _ => Seq::new(s.len(), |i: int| seq![s[i]]),
    }
}

/// Pieces equal to the null literal become null entries; the rest stay
/// text.  A null literal entry maps nothing.
pub open spec fn lit_map(ps: Seq<Seq<char>>, nl: ElemVal) -> Seq<ElemVal> {
    Seq::new(
        ps.len(),
        |i: int|
            if nl matches ElemVal::Str(n) && ps[i] == n {
                ElemVal::Null
            } else {
                ElemVal::Str(ps[i])
            },
    )
}

/// The null-literal entry `string_to_array` works with at row `i`.
pub open spec fn null_lit_at(args: Seq<Value>, i: int) -> ElemVal {
    if args.len() == 3 {
        args[2].vals()[i]
    } else {
        ElemVal::Null
    }
}

/// Find the first occurrence of the non-empty delimiter at or after
/// `from`.
#[verifier::loop_isolation(false)]
fn find_sub_exec(s: &str, d: &str, from: usize) -> (r: Option<usize>)
    requires
        d@.len() >= 1,
        from <= s@.len(),
    ensures
        match r {
            Some(p) => find_sub(s@, d@, from as int) == Some(p as int) && from <= p && p + d@.len()
                <= s@.len(),
            None => find_sub(s@, d@, from as int) is None,
        },
{
    let sl = s.unicode_len();
    let dl = d.unicode_len();
    if dl > sl {
        return None;
    }
    let mut k = from;
    while k <= sl - dl
        invariant
            from <= k,
            k <= sl,
            dl <= sl,
            find_sub(s@, d@, from as int) == find_sub(s@, d@, k as int),
        decreases sl - k,
    {
        let mut q: usize = 0;
        let mut matched = true;
        while q < dl
            invariant
                q <= dl,
                k + dl <= sl,
                matched <==> (forall|m: int| 0 <= m < q ==> s@[k + m] == d@[m]),
            decreases dl - q,
        {
            let cs = s.get_char(k + q);
            let cd = d.get_char(q);
            if cs != cd {
                matched = false;
                proof {
                    assert(s@[k as int + q as int] != d@[q as int]);
                }
                break ;
            }
            proof {
                assert(s@[k as int + q as int] == d@[q as int]);
            }
            q = q + 1;
        }
        if matched {
            proof {
                assert(s@.subrange(k as int, k as int + d@.len()) =~= d@);
            }
            return Some(k);
        }
        proof {
            let m = choose|m: int| 0 <= m < d@.len() && s@[k + m] != d@[m];
            assert(s@.subrange(k as int, k as int + d@.len())[m] == s@[k + m]);
            assert(s@.subrange(k as int, k as int + d@.len()) != d@);
        }
        k = k + 1;
    }
    None
}

/// Split one text entry on every occurrence of the non-empty delimiter.
#[verifier::loop_isolation(false)]
fn split_exec(s: &str, d: &str) -> (out: Vec<String>)
    requires
        d@.len() >= 1,
    ensures
        strs_of(out@) == split_rec(s@, d@),
{
    let sl = s.unicode_len();
    let mut out: Vec<String> = Vec::new();
    let mut start: usize = 0;
    proof {
        assert(s@.skip(0) =~= s@);
        assert(strs_of(out@) =~= Seq::<Seq<char>>::empty());
    }
    loop
        invariant
            start <= sl,
            split_rec(s@, d@) =~= strs_of(out@) + split_rec(s@.skip(start as int), d@),
        decreases sl - start,
    {
        let ghost ov = strs_of(out@);
        let ghost st = s@.skip(start as int);
        match find_sub_exec(s, d, start) {
            None => {
                let piece = s.substring_char(start, sl);
                out.push(String::from_str(piece));
                proof {
                    assert(find_sub(st, d@, 0) is None) by {
                        lemma_find_sub_shift(s@, d@, start as int, 0);
                    }
                    assert(split_rec(st, d@) == seq![st]);
                    assert(piece@ =~= st);
                    assert(strs_of(out@) =~= ov.push(st));
                    assert(strs_of(out@) =~= ov + seq![st]);
                }
                return out;
            },
            Some(p) => {
                let piece = s.substring_char(start, p);
                out.push(String::from_str(piece));
                let ghost rel = p - start;
                proof {
                    lemma_find_sub_shift(s@, d@, start as int, 0);
                    assert(find_sub(st, d@, 0) matches Some(q) && q + start == p as int);
                    assert(find_sub(st, d@, 0) == Some(rel));
                    assert(split_rec(st, d@) == seq![st.subrange(0, rel)] + split_rec(
                        st.skip(rel + d@.len()),
                        d@,
                    ));
                    assert(piece@ =~= st.subrange(0, rel));
                    assert(strs_of(out@) =~= ov.push(st.subrange(0, rel)));
                    assert(st.skip(rel + d@.len()) =~= s@.skip(
                        start as int + rel + d@.len(),
                    ));
                    assert(ov + (seq![st.subrange(0, rel)] + split_rec(
                        st.skip(rel + d@.len()),
                        d@,
                    )) =~= strs_of(out@) + split_rec(st.skip(rel + d@.len()), d@));
                }
                let dl = d.unicode_len();
                start = p + dl;
            },
        }
    }
}

/// A vector of owned text entries, as character sequences.
pub open spec fn strs_of(ps: Seq<String>) -> Seq<Seq<char>> {
    Seq::new(ps.len(), |i: int| ps[i]@)
}

/// A search shifted into a suffix finds the same occurrence, shifted.
proof fn lemma_find_sub_shift(s: Seq<char>, d: Seq<char>, start: int, rel: int)
    requires
        0 <= start <= s.len(),
        rel >= 0,
        d.len() >= 1,
    ensures
        find_sub(s, d, start + rel) == (match find_sub(s.skip(start), d, rel) {
            Some(p) => Some(p + start),
            None => None::<int>,
        }),
    decreases s.len() - start - rel,
{
    let st = s.skip(start);
    if rel + d.len() > st.len() {
        assert(find_sub(st, d, rel) is None);
        assert(start + rel + d.len() > s.len());
        assert(find_sub(s, d, start + rel) is None);
    } else {
        assert(st.subrange(rel, rel + d.len()) =~= s.subrange(
            start + rel,
            start + rel + d.len(),
        ));
        if st.subrange(rel, rel + d.len()) == d {
            assert(find_sub(st, d, rel) == Some(rel));
            assert(find_sub(s, d, start + rel) == Some(start + rel));
        } else {
            lemma_find_sub_shift(s, d, start, rel + 1);
        }
    }
}

/// The argument shape `string_to_array` accepts.
pub open spec fn s2a_args_ok(args: Seq<Value>) -> bool {
    &&& (args.len() == 2 || args.len() == 3)
    &&& args[0] is Utf8
    &&& args[1] is Utf8
    &&& (args.len() == 3 ==> args[2] is Utf8)
}

/// What `string_to_array` owes: per row, the pieces of the text split
/// on the delimiter, with pieces equal to the null literal turned into
/// null entries; a null text gives a null row.
pub open spec fn s2a_output_ok(args: Seq<Value>, out: Value) -> bool {
    &&& out.wf()
    &&& out.spec_ty() == Ty::List(Box::new(Ty::Utf8))
    &&& out.vals().len() == args[0].spec_len()
    &&& forall|i: int|
        0 <= i < out.vals().len() ==> out.vals()[i] == (match args[0].vals()[i] {
            ElemVal::Str(s) => ElemVal::List(
                lit_map(pieces_of(s, args[1].vals()[i]), null_lit_at(args, i)),
            ),
            _ => ElemVal::Null,
        })
}

/// Split each text entry on its paired delimiter: an empty delimiter
/// keeps the whole text as one element, a null delimiter splits into
/// single characters, and pieces equal to the null literal (when given)
/// become null elements.  A null text gives a null row.
#[verifier::loop_isolation(false)]
#[verifier::rlimit(60)]
pub fn string_to_array(args: &Vec<Value>) -> (r: Result<Value, ArrayError>)
    requires
        forall|i: int| 0 <= i < args@.len() ==> (#[trigger] args@[i]).wf(),
        s2a_args_ok(args@) ==> (args@[1].spec_len() == args@[0].spec_len() && (args@.len() == 3
            ==> args@[2].spec_len() == args@[0].spec_len())),
    ensures
        r is Ok <==> s2a_args_ok(args@),
        r matches Ok(out) ==> s2a_output_ok(args@, out),
        r matches Err(e) ==> e is Internal,
{
    if !(args.len() == 2 || args.len() == 3) {
        return Err(
            ArrayError::Internal("string_to_array expects two or three arguments".to_owned()),
        );
    }
    let strings: &Vec<Option<String>> = match &args[0] {
        Value::Utf8(d) => d,
        _ => {
            return Err(ArrayError::Internal("string_to_array expects a text column".to_owned()));
        },
    };
    let delims: &Vec<Option<String>> = match &args[1] {
        Value::Utf8(d) => d,
        _ => {
            return Err(ArrayError::Internal("string_to_array expects a text delimiter".to_owned()));
        },
    };
    if args.len() == 3 && !matches!(&args[2], Value::Utf8(_)) {
        return Err(ArrayError::Internal("string_to_array expects a text literal".to_owned()));
    }
    let ghost str_vals = args@[0].vals();
    let ghost delim_vals = args@[1].vals();
    proof {
        lemma_vals_len(args@[0]);
        lemma_vals_len(args@[1]);
        if args@.len() == 3 {
            lemma_vals_len(args@[2]);
        }
    }
    let out_ty = Ty::List(Box::new(Ty::Utf8));
    let mut out = new_empty_value(&out_ty);
    let n = strings.len();
    for i in 0..n
        invariant
            out.wf(),
            out.spec_ty() == Ty::List(Box::new(Ty::Utf8)),
            out.vals().len() == i,
            forall|k: int|
                0 <= k < i ==> out.vals()[k] == (match str_vals[k] {
                    ElemVal::Str(s) => ElemVal::List(
                        lit_map(pieces_of(s, delim_vals[k]), null_lit_at(args@, k)),
                    ),
                    _ => ElemVal::Null,
                }),
    {
        proof {
            lemma_vals_len(out);
        }
        match &strings[i] {
            None => {
                out = value_extend_nulls(out, 1);
                proof {
                    assert(str_vals[i as int] is Null);
                }
            },
            Some(s) => {
                proof {
                    assert(str_vals[i as int] == ElemVal::Str(s@));
                }
                let mut pieces: Vec<String> = Vec::new();
                match &delims[i] {
                    Some(dl) => {
                        proof {
                            assert(delim_vals[i as int] == ElemVal::Str(dl@));
                        }
                        if dl.as_str().unicode_len() == 0 {
                            pieces.push(s.clone());
                            proof {
                                assert(strs_of(pieces@) =~= seq![s@]);
                            }
                        } else {
                            pieces = split_exec(s.as_str(), dl.as_str());
                        }
                    },
                    None => {
                        proof {
                            assert(delim_vals[i as int] is Null);
                        }
                        let sl = s.as_str().unicode_len();
                        for c in 0..sl
                            invariant
                                pieces@.len() == c,
                                forall|m: int|
                                    0 <= m < c ==> (#[trigger] strs_of(pieces@)[m]) =~= seq![
                                        s@[m],
                                    ],
                        {
                            let ghost pv = strs_of(pieces@);
                            let piece = s.as_str().substring_char(c, c + 1);
                            pieces.push(String::from_str(piece));
                            proof {
                                assert(piece@ =~= seq![s@[c as int]]);
                                assert(strs_of(pieces@) =~= pv.push(piece@));
                            }
                        }
                    },
                }
                let ghost ps = pieces_of(s@, delim_vals[i as int]);
                proof {
                    assert(strs_of(pieces@) =~= ps);
                }
                // map pieces equal to the null literal to null entries
                let nl: Option<&String> = if args.len() == 3 {
                    match &args[2] {
                        Value::Utf8(d) => match &d[i] {
                            Some(x) => Some(x),
                            None => None,
                        },
                        _ => None,
                    }
                } else {
                    None
                };
                let ghost nlv = null_lit_at(args@, i as int);
                proof {
                    match nl {
                        Some(x) => {
                            assert(nlv == ElemVal::Str(x@));
                        },
                        None => {
                            assert(nlv is Null);
                        },
                    }
                }
                let m = pieces.len();
                let mut row: Vec<Elem> = Vec::new();
                for k in 0..m
                    invariant
                        row@.len() == k,
                        forall|q: int|
                            0 <= q < k ==> (#[trigger] elems_val(row@)[q]) == lit_map(ps, nlv)[q],
                {
                    let ghost rv = elems_val(row@);
                    let is_null_piece = match nl {
                        Some(x) => str_eq(pieces[k].as_str(), x.as_str()),
                        None => false,
                    };
                    if is_null_piece {
                        row.push(Elem::Null);
                    } else {
                        row.push(Elem::Str(pieces[k].clone()));
                    }
                    proof {
                        assert(ps[k as int] == pieces@[k as int]@);
                        assert(elems_val(row@) =~= rv.push(lit_map(ps, nlv)[k as int]));
                    }
                }
                let row_elem = Elem::List(row);
                proof {
                    assert(row_elem.val()->List_0 =~= elems_val(row@));
                    assert(elems_val(row@) =~= lit_map(ps, nlv));
                    assert(row_elem.val() matches ElemVal::List(v) && v =~= lit_map(ps, nlv));
                    let v = row_elem.val()->List_0;
                    assert forall|q: int| 0 <= q < v.len() implies fits(
                        #[trigger] v[q],
                        Ty::Utf8,
                    ) by {
                        assert(v[q] == lit_map(ps, nlv)[q]);
                    }
                    assert(fits(row_elem.val(), Ty::List(Box::new(Ty::Utf8))));
                }
                out = value_push_elem(out, &row_elem);
            },
        }
    }
    Ok(out)
}

/// Nesting depth of a declared type, computed.
fn depth_of(t: &Ty) -> (d: usize)
    requires
        t.spec_depth() <= usize::MAX,
    ensures
        d as nat == t.spec_depth(),
    decreases t,
{
    match t {
        Ty::List(t2) => depth_of(t2) + 1,
        _ => 0,
    }
}

/// The innermost non-list type, by reference.
fn base_ty_ref<'a>(t: &'a Ty) -> (r: &'a Ty)
    ensures
        *r == base_ty(*t),
    decreases t,
{
    match t {
        Ty::List(t2) => base_ty_ref(t2),
        _ => t,
    }
}

} // verus!
