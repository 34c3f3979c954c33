//! End-to-end checks of the integer-list operations.

use array_exprs::access::{array_element, array_pop_back, array_pop_front, array_slice};
use array_exprs::construct::{array_concat, make_array};
use array_exprs::model::{ListCol, Ty, Value};
use array_exprs::mutate::{array_append, array_prepend, array_remove, array_remove_all,
    array_remove_n, array_repeat, array_replace, array_replace_all, array_replace_n, array_sort};
use array_exprs::rangegen::gen_range;
use array_exprs::search::{array_has, array_has_all, array_has_any, array_position,
    array_positions};
use array_exprs::setops::{array_distinct, array_except, array_intersect, array_union};

fn int_col(xs: &[i64]) -> Value {
    Value::Int64(xs.iter().map(|x| Some(*x)).collect())
}

fn int_list(rows: &[Option<&[i64]>]) -> Value {
    let mut values: Vec<Option<i64>> = Vec::new();
    let mut offsets: Vec<usize> = vec![0];
    let mut mask: Vec<bool> = Vec::new();
    for r in rows {
        match r {
            Some(xs) => {
                for x in *xs {
                    values.push(Some(*x));
                }
                mask.push(true);
            }
            None => mask.push(false),
        }
        offsets.push(values.len());
    }
    Value::List(Box::new(ListCol {
        values: Value::Int64(values),
        offsets,
        nulls: Some(mask),
    }))
}

fn rows_of(v: &Value) -> Vec<Option<Vec<Option<i64>>>> {
    let b = match v {
        Value::List(b) => b,
        _ => panic!("expected a list column"),
    };
    let data = match &b.values {
        Value::Int64(d) => d,
        _ => panic!("expected integer elements"),
    };
    let mut out = Vec::new();
    for i in 0..b.offsets.len() - 1 {
        let valid = match &b.nulls {
            Some(m) => m[i],
            None => true,
        };
        if valid {
            out.push(Some(data[b.offsets[i]..b.offsets[i + 1]].to_vec()));
        } else {
            out.push(None);
        }
    }
    out
}

fn ints(v: &Value) -> Vec<Option<i64>> {
    match v {
        Value::Int64(d) => d.clone(),
        _ => panic!("expected an integer column"),
    }
}

fn bools(v: &Value) -> Vec<Option<bool>> {
    match v {
        Value::Bool(d) => d.clone(),
        _ => panic!("expected a boolean column"),
    }
}

fn row(xs: &[i64]) -> Option<Vec<Option<i64>>> {
    Some(xs.iter().map(|x| Some(*x)).collect())
}

#[test]
fn element_by_index() {
    let list = int_list(&[Some(&[1, 2, 3]), Some(&[1, 2, 3]), Some(&[1, 2, 3])]);
    let idx = int_col(&[2, -1, 4]);
    let out = array_element(&vec![list, idx]).unwrap();
    assert_eq!(ints(&out), vec![Some(2), Some(3), None]);
}

#[test]
fn element_null_and_zero_index() {
    let list = int_list(&[Some(&[7, 8]), None, Some(&[])]);
    let idx = Value::Int64(vec![Some(0), Some(1), Some(1)]);
    let out = array_element(&vec![list, idx]).unwrap();
    assert_eq!(ints(&out), vec![None, None, None]);
}

#[test]
fn slice_plain_and_negative() {
    let a = int_list(&[Some(&[1, 2, 3, 4, 5])]);
    let out = array_slice(&vec![a, int_col(&[2]), int_col(&[4])]).unwrap();
    assert_eq!(rows_of(&out), vec![row(&[2, 3, 4])]);

    // a negative end bound is exclusive: it lands one before the counted
    // position, so -1 keeps everything up to the next-to-last element
    let b = int_list(&[Some(&[1, 2, 3])]);
    let out = array_slice(&vec![b, int_col(&[-2]), int_col(&[-1])]).unwrap();
    assert_eq!(rows_of(&out), vec![row(&[2])]);

    let c = int_list(&[Some(&[1, 2, 3])]);
    let out = array_slice(&vec![c, int_col(&[-2]), int_col(&[3])]).unwrap();
    assert_eq!(rows_of(&out), vec![row(&[2, 3])]);
}

#[test]
fn slice_identity_full_range() {
    let a = int_list(&[Some(&[4, 5, 6, 7])]);
    let out = array_slice(&vec![a, int_col(&[1]), int_col(&[4])]).unwrap();
    assert_eq!(rows_of(&out), vec![row(&[4, 5, 6, 7])]);
}

#[test]
fn slice_crossed_bounds_give_empty() {
    let a = int_list(&[Some(&[1, 2, 3])]);
    let out = array_slice(&vec![a, int_col(&[3]), int_col(&[1])]).unwrap();
    assert_eq!(rows_of(&out), vec![row(&[])]);
}

#[test]
fn pop_front_and_back() {
    let a = int_list(&[Some(&[1, 2, 3]), Some(&[9]), None]);
    let out = array_pop_front(&vec![a]).unwrap();
    assert_eq!(rows_of(&out), vec![row(&[2, 3]), row(&[]), row(&[])]);

    let b = int_list(&[Some(&[1, 2, 3]), Some(&[9]), None]);
    let out = array_pop_back(&vec![b]).unwrap();
    assert_eq!(rows_of(&out), vec![row(&[1, 2]), row(&[]), row(&[])]);
}

#[test]
fn append_grows_row_by_one() {
    let a = int_list(&[Some(&[1, 2]), Some(&[])]);
    let out = array_append(&vec![a, int_col(&[3, 9])]).unwrap();
    assert_eq!(rows_of(&out), vec![row(&[1, 2, 3]), row(&[9])]);
}

#[test]
fn prepend_puts_element_first() {
    let a = int_list(&[Some(&[2, 3])]);
    let out = array_prepend(&vec![int_col(&[1]), a]).unwrap();
    assert_eq!(rows_of(&out), vec![row(&[1, 2, 3])]);
}

#[test]
fn append_then_length_is_one_more() {
    let a = int_list(&[Some(&[5, 6, 7])]);
    let appended = array_append(&vec![a, int_col(&[8])]).unwrap();
    let len = array_exprs::introspect::array_length(&vec![appended]).unwrap();
    assert_eq!(ints(&len), vec![Some(4)]);
}

#[test]
fn distinct_sorts_and_dedupes() {
    let a = int_list(&[Some(&[1, 3, 2, 3, 1, 2, 4])]);
    let out = array_distinct(&vec![a]).unwrap();
    assert_eq!(rows_of(&out), vec![row(&[1, 2, 3, 4])]);
}

#[test]
fn distinct_is_idempotent() {
    let a = int_list(&[Some(&[3, 1, 3, 2])]);
    let once = array_distinct(&vec![a]).unwrap();
    let copy = array_exprs::arena::value_clone(&once);
    let twice = array_distinct(&vec![copy]).unwrap();
    assert_eq!(rows_of(&once), rows_of(&twice));
}

#[test]
fn union_keeps_first_seen_order() {
    let a = int_list(&[Some(&[1, 2])]);
    let b = int_list(&[Some(&[2, 3])]);
    let out = array_union(&vec![a, b]).unwrap();
    assert_eq!(rows_of(&out), vec![row(&[1, 2, 3])]);
}

#[test]
fn except_drops_members_and_repeats() {
    let a = int_list(&[Some(&[1, 2, 3, 2])]);
    let b = int_list(&[Some(&[2])]);
    let out = array_except(&vec![a, b]).unwrap();
    assert_eq!(rows_of(&out), vec![row(&[1, 3])]);
}

#[test]
fn intersect_is_sorted_common_values() {
    let a = int_list(&[Some(&[5, 1, 3])]);
    let b = int_list(&[Some(&[3, 3, 5, 9])]);
    let out = array_intersect(&vec![a, b]).unwrap();
    assert_eq!(rows_of(&out), vec![row(&[3, 5])]);
}

#[test]
fn position_scans_from_start() {
    let a = int_list(&[Some(&[1, 2, 3, 3, 2, 1])]);
    let out = array_position(&vec![a, int_col(&[3])]).unwrap();
    assert_eq!(ints(&out), vec![Some(3)]);
}

#[test]
fn position_start_out_of_bounds_is_an_error() {
    let a = int_list(&[Some(&[1, 2, 3])]);
    let err = array_position(&vec![a, int_col(&[3]), int_col(&[4])]).unwrap_err();
    assert!(err.is_exec());
    assert_eq!(err.message().as_str(), "start index out of bounds");
}

#[test]
fn positions_collects_all_matches() {
    let a = int_list(&[Some(&[2, 1, 2, 2])]);
    let out = array_positions(&vec![a, int_col(&[2])]).unwrap();
    assert_eq!(rows_of(&out), vec![row(&[1, 3, 4])]);
}

#[test]
fn has_family() {
    let a = int_list(&[Some(&[1, 2, 3])]);
    let out = array_has(&vec![a, int_col(&[2])]).unwrap();
    assert_eq!(bools(&out), vec![Some(true)]);

    let a = int_list(&[Some(&[1, 2, 3])]);
    let b = int_list(&[Some(&[1, 2, 3])]);
    let out = array_has_all(&vec![a, b]).unwrap();
    assert_eq!(bools(&out), vec![Some(true)]);

    let a = int_list(&[Some(&[1, 2, 3])]);
    let b = int_list(&[Some(&[])]);
    let out = array_has_any(&vec![a, b]).unwrap();
    assert_eq!(bools(&out), vec![Some(false)]);

    let a = int_list(&[Some(&[1, 2])]);
    let b = int_list(&[Some(&[2, 9])]);
    let out = array_has_any(&vec![a, b]).unwrap();
    assert_eq!(bools(&out), vec![Some(true)]);

    let a = int_list(&[Some(&[1, 2])]);
    let b = int_list(&[Some(&[2, 9])]);
    let out = array_has_all(&vec![a, b]).unwrap();
    assert_eq!(bools(&out), vec![Some(false)]);
}

#[test]
fn remove_family() {
    let a = int_list(&[Some(&[1, 2, 3, 2])]);
    let out = array_remove(&vec![a, int_col(&[2])]).unwrap();
    assert_eq!(rows_of(&out), vec![row(&[1, 3, 2])]);

    let a = int_list(&[Some(&[4, 5, 6, 5])]);
    let out = array_remove_n(&vec![a, int_col(&[5]), int_col(&[2])]).unwrap();
    assert_eq!(rows_of(&out), vec![row(&[4, 6])]);

    let a = int_list(&[Some(&[7, 7, 8, 7])]);
    let out = array_remove_all(&vec![a, int_col(&[7])]).unwrap();
    assert_eq!(rows_of(&out), vec![row(&[8])]);
}

#[test]
fn replace_family() {
    let a = int_list(&[Some(&[1, 2, 3, 2])]);
    let out = array_replace(&vec![a, int_col(&[2]), int_col(&[10])]).unwrap();
    assert_eq!(rows_of(&out), vec![row(&[1, 10, 3, 2])]);

    let a = int_list(&[Some(&[4, 5, 6, 5])]);
    let out = array_replace_n(&vec![a, int_col(&[5]), int_col(&[20]), int_col(&[2])]).unwrap();
    assert_eq!(rows_of(&out), vec![row(&[4, 20, 6, 20])]);

    let a = int_list(&[Some(&[9, 1, 9])]);
    let out = array_replace_all(&vec![a, int_col(&[9]), int_col(&[0])]).unwrap();
    assert_eq!(rows_of(&out), vec![row(&[0, 1, 0])]);
}

#[test]
fn repeat_per_row_counts() {
    let elem = int_col(&[5, 5, 5]);
    let counts = int_col(&[2, 0, 1]);
    let out = array_repeat(&vec![elem, counts]).unwrap();
    assert_eq!(rows_of(&out), vec![row(&[5, 5]), row(&[]), row(&[5])]);
}

#[test]
fn repeat_negative_count_gives_empty_row() {
    let elem = int_col(&[3]);
    let counts = int_col(&[-2]);
    let out = array_repeat(&vec![elem, counts]).unwrap();
    assert_eq!(rows_of(&out), vec![row(&[])]);
}

#[test]
fn sort_directions_and_null_placement() {
    let a = int_list(&[Some(&[3, 1, 2])]);
    let out = array_sort(&vec![a]).unwrap();
    assert_eq!(rows_of(&out), vec![row(&[1, 2, 3])]);

    let a = int_list(&[Some(&[3, 1, 2])]);
    let desc = Value::Utf8(vec![Some(String::from("desc"))]);
    let out = array_sort(&vec![a, desc]).unwrap();
    assert_eq!(rows_of(&out), vec![row(&[3, 2, 1])]);

    let mut values: Vec<Option<i64>> = vec![Some(2), None, Some(1)];
    let a = Value::List(Box::new(ListCol {
        values: Value::Int64(std::mem::take(&mut values)),
        offsets: vec![0, 3],
        nulls: None,
    }));
    let asc = Value::Utf8(vec![Some(String::from("ASC"))]);
    let nl = Value::Utf8(vec![Some(String::from("NULLS LAST"))]);
    let out = array_sort(&vec![a, asc, nl]).unwrap();
    assert_eq!(rows_of(&out), vec![Some(vec![Some(1), Some(2), None])]);
}

#[test]
fn sort_bad_modifier_is_a_planning_error() {
    let a = int_list(&[Some(&[1])]);
    let m = Value::Utf8(vec![Some(String::from("sideways"))]);
    let err = array_sort(&vec![a, m]).unwrap_err();
    assert!(err.is_plan());
}

#[test]
fn gen_range_forms() {
    let out = gen_range(&vec![int_col(&[1]), int_col(&[7]), int_col(&[2])]).unwrap();
    assert_eq!(rows_of(&out), vec![row(&[1, 3, 5])]);

    let out = gen_range(&vec![int_col(&[3])]).unwrap();
    assert_eq!(rows_of(&out), vec![row(&[0, 1, 2])]);

    let out = gen_range(&vec![int_col(&[1]), int_col(&[4])]).unwrap();
    assert_eq!(rows_of(&out), vec![row(&[1, 2, 3])]);

    let out = gen_range(&vec![int_col(&[5]), int_col(&[1]), int_col(&[-2])]).unwrap();
    assert_eq!(rows_of(&out), vec![row(&[5, 3])]);
}

#[test]
fn gen_range_zero_step_is_an_error() {
    let err = gen_range(&vec![int_col(&[0]), int_col(&[5]), int_col(&[0])]).unwrap_err();
    assert!(err.is_exec());
}

#[test]
fn make_array_zips_columns() {
    let out = make_array(&vec![int_col(&[1, 4]), int_col(&[2, 5]), int_col(&[3, 6])]).unwrap();
    assert_eq!(rows_of(&out), vec![row(&[1, 2, 3]), row(&[4, 5, 6])]);
}

#[test]
fn concat_joins_rows() {
    let a = int_list(&[Some(&[1, 2]), Some(&[5])]);
    let b = int_list(&[Some(&[3]), Some(&[6, 7])]);
    let out = array_concat(&vec![a, b]).unwrap();
    assert_eq!(rows_of(&out), vec![row(&[1, 2, 3]), row(&[5, 6, 7])]);
}

#[test]
fn wrong_argument_count_is_a_planning_error() {
    let a = int_list(&[Some(&[1])]);
    let err = array_element(&vec![a]).unwrap_err();
    assert!(err.is_plan());
}

#[test]
fn non_list_input_is_an_internal_error() {
    let err = array_element(&vec![int_col(&[1]), int_col(&[1])]).unwrap_err();
    assert!(err.is_internal());
}

#[test]
fn union_of_mismatched_types_is_a_planning_error() {
    let a = int_list(&[Some(&[1])]);
    let b = Value::List(Box::new(ListCol {
        values: Value::Utf8(vec![Some(String::from("x"))]),
        offsets: vec![0, 1],
        nulls: None,
    }));
    let err = array_union(&vec![a, b]).unwrap_err();
    assert!(err.is_plan());
}

#[test]
fn element_type_is_kept() {
    let a = int_list(&[Some(&[1, 2])]);
    let out = array_slice(&vec![a, int_col(&[1]), int_col(&[2])]).unwrap();
    match &out {
        Value::List(b) => assert!(matches!(b.values.ty(), Ty::Int64)),
        _ => panic!("expected a list column"),
    }
}

#[test]
fn union_with_untyped_null_side_returns_other() {
    let a = Value::Null(vec![(), ()]);
    let b = int_list(&[Some(&[1]), Some(&[2, 3])]);
    let out = array_union(&vec![a, b]).unwrap();
    assert_eq!(rows_of(&out), vec![row(&[1]), row(&[2, 3])]);
}

#[test]
fn elem_values_compare_null_safely() {
    let a = Value::List(Box::new(ListCol {
        values: Value::Int64(vec![None, Some(1), None]),
        offsets: vec![0, 3],
        nulls: None,
    }));
    let e = Value::Int64(vec![None]);
    let out = array_position(&vec![a, e]).unwrap();
    assert_eq!(ints(&out), vec![Some(1)]);
}
