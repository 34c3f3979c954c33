//! Checks of the text utilities: joining columns into text and splitting
//! text into rows.

use array_exprs::model::{ListCol, Value};
use array_exprs::strutil::{array_to_string, string_to_array};

fn int_list(rows: &[Option<&[Option<i64>]>]) -> Value {
    let mut values: Vec<Option<i64>> = Vec::new();
    let mut offsets: Vec<usize> = vec![0];
    let mut mask: Vec<bool> = Vec::new();
    for r in rows {
        match r {
            Some(xs) => {
                for x in *xs {
                    values.push(*x);
                }
                mask.push(true);
            }
            None => mask.push(false),
        }
        offsets.push(values.len());
    }
    Value::List(Box::new(ListCol {
        values: Value::Int64(values),
        offsets,
        nulls: Some(mask),
    }))
}

fn texts(v: &Value) -> Vec<Option<String>> {
    match v {
        Value::Utf8(d) => d.clone(),
        _ => panic!("expected a text column"),
    }
}

fn text_col(xs: &[Option<&str>]) -> Value {
    Value::Utf8(xs.iter().map(|x| x.map(String::from)).collect())
}

fn string_rows(v: &Value) -> Vec<Option<Vec<Option<String>>>> {
    let b = match v {
        Value::List(b) => b,
        _ => panic!("expected a list column"),
    };
    let data = match &b.values {
        Value::Utf8(d) => d,
        _ => panic!("expected text elements"),
    };
    let mut out = Vec::new();
    for i in 0..b.offsets.len() - 1 {
        let valid = match &b.nulls {
            Some(m) => m[i],
            None => true,
        };
        if valid {
            out.push(Some(data[b.offsets[i]..b.offsets[i + 1]].to_vec()));
        } else {
            out.push(None);
        }
    }
    out
}

fn srow(xs: &[Option<&str>]) -> Option<Vec<Option<String>>> {
    Some(xs.iter().map(|x| x.map(String::from)).collect())
}

#[test]
fn join_simple_row() {
    let a = int_list(&[Some(&[Some(1), Some(2), Some(3)])]);
    let out = array_to_string(&vec![a, text_col(&[Some(",")])]).unwrap();
    assert_eq!(texts(&out), vec![Some(String::from("1,2,3"))]);
}

#[test]
fn join_skips_nulls_without_replacement() {
    let a = int_list(&[Some(&[Some(1), None, Some(3)])]);
    let out = array_to_string(&vec![a, text_col(&[Some(",")])]).unwrap();
    assert_eq!(texts(&out), vec![Some(String::from("1,3"))]);
}

#[test]
fn join_replaces_nulls_when_told() {
    let a = int_list(&[Some(&[Some(1), None, Some(3)])]);
    let out = array_to_string(&vec![
        a,
        text_col(&[Some(",")]),
        text_col(&[Some("x")]),
    ])
    .unwrap();
    assert_eq!(texts(&out), vec![Some(String::from("1,x,3"))]);
}

#[test]
fn join_negative_numbers_and_booleans() {
    let a = int_list(&[Some(&[Some(-12), Some(0)])]);
    let out = array_to_string(&vec![a, text_col(&[Some("; ")])]).unwrap();
    assert_eq!(texts(&out), vec![Some(String::from("-12; 0"))]);

    let b = Value::List(Box::new(ListCol {
        values: Value::Bool(vec![Some(true), Some(false)]),
        offsets: vec![0, 2],
        nulls: None,
    }));
    let out = array_to_string(&vec![b, text_col(&[Some("-")])]).unwrap();
    assert_eq!(texts(&out), vec![Some(String::from("true-false"))]);
}

#[test]
fn join_null_row_or_delimiter_gives_null() {
    let a = int_list(&[None, Some(&[Some(1)])]);
    let out = array_to_string(&vec![a, text_col(&[Some(","), None])]).unwrap();
    assert_eq!(texts(&out), vec![None, None]);
}

#[test]
fn join_nested_rows_depth_first() {
    let inner = int_list(&[Some(&[Some(1), Some(2)]), Some(&[Some(3)])]);
    let outer = Value::List(Box::new(ListCol {
        values: inner,
        offsets: vec![0, 2],
        nulls: None,
    }));
    let out = array_to_string(&vec![outer, text_col(&[Some(",")])]).unwrap();
    assert_eq!(texts(&out), vec![Some(String::from("1,2,3"))]);
}

#[test]
fn split_on_literal_delimiter() {
    let s = text_col(&[Some("abc~@~def~@~ghi")]);
    let d = text_col(&[Some("~@~")]);
    let out = string_to_array(&vec![s, d]).unwrap();
    assert_eq!(
        string_rows(&out),
        vec![srow(&[Some("abc"), Some("def"), Some("ghi")])]
    );
}

#[test]
fn split_empty_delimiter_keeps_whole_text() {
    let s = text_col(&[Some("abc")]);
    let d = text_col(&[Some("")]);
    let out = string_to_array(&vec![s, d]).unwrap();
    assert_eq!(string_rows(&out), vec![srow(&[Some("abc")])]);
}

#[test]
fn split_null_delimiter_into_characters() {
    let s = text_col(&[Some("abc")]);
    let d = text_col(&[None]);
    let out = string_to_array(&vec![s, d]).unwrap();
    assert_eq!(
        string_rows(&out),
        vec![srow(&[Some("a"), Some("b"), Some("c")])]
    );
}

#[test]
fn split_maps_null_literal_pieces() {
    let s = text_col(&[Some("a,NULL,b")]);
    let d = text_col(&[Some(",")]);
    let n = text_col(&[Some("NULL")]);
    let out = string_to_array(&vec![s, d, n]).unwrap();
    assert_eq!(string_rows(&out), vec![srow(&[Some("a"), None, Some("b")])]);
}

#[test]
fn split_null_text_gives_null_row() {
    let s = text_col(&[None, Some("x")]);
    let d = text_col(&[Some(","), Some(",")]);
    let out = string_to_array(&vec![s, d]).unwrap();
    assert_eq!(string_rows(&out), vec![None, srow(&[Some("x")])]);
}

#[test]
fn split_adjacent_delimiters_give_empty_pieces() {
    let s = text_col(&[Some(",a,,b,")]);
    let d = text_col(&[Some(",")]);
    let out = string_to_array(&vec![s, d]).unwrap();
    assert_eq!(
        string_rows(&out),
        vec![srow(&[Some(""), Some("a"), Some(""), Some("b"), Some("")])]
    );
}

#[test]
fn join_scalar_column_into_one_row() {
    let a = Value::Int64(vec![Some(1), Some(2), Some(3)]);
    let out = array_to_string(&vec![a, text_col(&[Some(",")])]).unwrap();
    assert_eq!(texts(&out), vec![Some(String::from("1,2,3"))]);
}

#[test]
fn sort_text_rows() {
    let a = Value::List(Box::new(ListCol {
        values: Value::Utf8(vec![
            Some(String::from("pear")),
            Some(String::from("apple")),
            Some(String::from("fig")),
        ]),
        offsets: vec![0, 3],
        nulls: None,
    }));
    let out = array_exprs::mutate::array_sort(&vec![a]).unwrap();
    assert_eq!(
        string_rows(&out),
        vec![srow(&[Some("apple"), Some("fig"), Some("pear")])]
    );
}
