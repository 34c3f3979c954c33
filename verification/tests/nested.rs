//! Checks of nested columns: introspection, flattening, nested repeat
//! and nested concatenation.

use array_exprs::construct::make_array;
use array_exprs::introspect::{array_dims, array_empty, array_length, array_ndims, cardinality,
    flatten};
use array_exprs::model::{ListCol, Value};
use array_exprs::mutate::{array_append, array_repeat};

fn int_list(rows: &[Option<&[Option<i64>]>]) -> Value {
    let mut values: Vec<Option<i64>> = Vec::new();
    let mut offsets: Vec<usize> = vec![0];
    let mut mask: Vec<bool> = Vec::new();
    for r in rows {
        match r {
            Some(xs) => {
                for x in *xs {
                    values.push(*x);
                }
                mask.push(true);
            }
            None => mask.push(false),
        }
        offsets.push(values.len());
    }
    Value::List(Box::new(ListCol {
        values: Value::Int64(values),
        offsets,
        nulls: Some(mask),
    }))
}

fn nest(inner: Value, spans: &[usize]) -> Value {
    let mut offsets: Vec<usize> = vec![0];
    let mut acc: usize = 0;
    for s in spans {
        acc += s;
        offsets.push(acc);
    }
    Value::List(Box::new(ListCol {
        values: inner,
        offsets,
        nulls: None,
    }))
}

fn ints(v: &Value) -> Vec<Option<i64>> {
    match v {
        Value::Int64(d) => d.clone(),
        _ => panic!("expected an integer column"),
    }
}

fn flat_rows(v: &Value) -> Vec<Option<Vec<Option<i64>>>> {
    let b = match v {
        Value::List(b) => b,
        _ => panic!("expected a list column"),
    };
    let data = match &b.values {
        Value::Int64(d) => d,
        _ => panic!("expected integer elements"),
    };
    let mut out = Vec::new();
    for i in 0..b.offsets.len() - 1 {
        let valid = match &b.nulls {
            Some(m) => m[i],
            None => true,
        };
        if valid {
            out.push(Some(data[b.offsets[i]..b.offsets[i + 1]].to_vec()));
        } else {
            out.push(None);
        }
    }
    out
}

fn irow(xs: &[i64]) -> Option<Vec<Option<i64>>> {
    Some(xs.iter().map(|x| Some(*x)).collect())
}

#[test]
fn length_at_dimensions() {
    let inner = int_list(&[
        Some(&[Some(1), Some(2)]),
        Some(&[Some(3)]),
        Some(&[Some(4)]),
    ]);
    let outer = nest(inner, &[2, 1]);
    let out = array_length(&vec![outer]).unwrap();
    assert_eq!(ints(&out), vec![Some(2), Some(1)]);

    let inner = int_list(&[
        Some(&[Some(1), Some(2)]),
        Some(&[Some(3)]),
        Some(&[Some(4)]),
    ]);
    let outer = nest(inner, &[2, 1]);
    let dims = Value::Int64(vec![Some(2), Some(3)]);
    let out = array_length(&vec![outer, dims]).unwrap();
    assert_eq!(ints(&out), vec![Some(2), None]);
}

#[test]
fn dims_walks_first_elements() {
    let inner = int_list(&[Some(&[Some(1), Some(2), Some(3)]), Some(&[Some(4)])]);
    let outer = nest(inner, &[2]);
    let out = array_dims(&vec![outer]).unwrap();
    assert_eq!(flat_rows(&out), vec![irow(&[2, 3])]);
}

#[test]
fn dims_of_empty_row_is_null() {
    let a = int_list(&[Some(&[])]);
    let out = array_dims(&vec![a]).unwrap();
    assert_eq!(flat_rows(&out), vec![None]);
}

#[test]
fn ndims_is_declared_depth() {
    let inner = int_list(&[Some(&[Some(1)])]);
    let outer = nest(inner, &[1]);
    let out = array_ndims(&vec![outer]).unwrap();
    assert_eq!(ints(&out), vec![Some(2)]);

    let flat = Value::Int64(vec![Some(1), Some(2)]);
    let out = array_ndims(&vec![flat]).unwrap();
    assert_eq!(ints(&out), vec![Some(0), Some(0)]);
}

#[test]
fn cardinality_multiplies_dimensions() {
    let inner = int_list(&[Some(&[Some(1), Some(2), Some(3)]), Some(&[Some(4), Some(5), Some(6)])]);
    let outer = nest(inner, &[2]);
    let out = cardinality(&vec![outer]).unwrap();
    assert_eq!(ints(&out), vec![Some(6)]);

    let empty = int_list(&[Some(&[]), None]);
    let out = cardinality(&vec![empty]).unwrap();
    assert_eq!(ints(&out), vec![None, None]);
}

#[test]
fn flatten_collapses_levels() {
    let inner = int_list(&[
        Some(&[Some(1), Some(2)]),
        Some(&[Some(3)]),
        Some(&[Some(4), Some(5)]),
    ]);
    let outer = nest(inner, &[2, 1]);
    let out = flatten(&vec![outer]).unwrap();
    assert_eq!(flat_rows(&out), vec![irow(&[1, 2, 3]), irow(&[4, 5])]);
}

#[test]
fn flatten_of_flat_column_is_unchanged() {
    let a = int_list(&[Some(&[Some(1)]), None]);
    let out = flatten(&vec![a]).unwrap();
    assert_eq!(flat_rows(&out), vec![irow(&[1]), None]);
}

#[test]
fn empty_rows_and_all_null_rows_read_empty() {
    let a = int_list(&[Some(&[]), Some(&[None, None]), Some(&[Some(1)]), None]);
    let out = array_empty(&vec![a]).unwrap();
    match out {
        Value::Bool(d) => assert_eq!(d, vec![Some(true), Some(true), Some(false), None]),
        _ => panic!("expected a boolean column"),
    }
}

#[test]
fn repeat_of_list_rows_nests_once_more() {
    let elem = int_list(&[Some(&[Some(1), Some(2)]), Some(&[Some(4), Some(5)])]);
    let counts = Value::Int64(vec![Some(2), Some(1)]);
    let out = array_repeat(&vec![elem, counts]).unwrap();
    // two rows: [[1,2],[1,2]] and [[4,5]]
    let outer = match &out {
        Value::List(b) => b,
        _ => panic!("expected a list column"),
    };
    assert_eq!(outer.offsets, vec![0, 2, 3]);
    let mid = flat_rows(&outer.values);
    assert_eq!(mid, vec![irow(&[1, 2]), irow(&[1, 2]), irow(&[4, 5])]);
}

#[test]
fn nested_append_concatenates_aligned() {
    // appending a flat row element to a list-of-list column aligns depths
    let inner = int_list(&[Some(&[Some(1), Some(2)]), Some(&[Some(3)])]);
    let outer = nest(inner, &[2]);
    let elem = int_list(&[Some(&[Some(9)])]);
    let out = array_append(&vec![outer, elem]).unwrap();
    let b = match &out {
        Value::List(b) => b,
        _ => panic!("expected a list column"),
    };
    assert_eq!(b.offsets, vec![0, 3]);
    let mid = flat_rows(&b.values);
    assert_eq!(mid, vec![irow(&[1, 2]), irow(&[3]), irow(&[9])]);
}

#[test]
fn make_array_of_all_null_columns_is_one_null_row() {
    let out = make_array(&vec![Value::Null(vec![()]), Value::Null(vec![()])]).unwrap();
    let b = match &out {
        Value::List(b) => b,
        _ => panic!("expected a list column"),
    };
    assert_eq!(b.offsets, vec![0, 2]);
    assert!(matches!(&b.values, Value::Null(d) if d.len() == 2));
}
