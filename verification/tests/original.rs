//! Checks carried over from the library's first users: depth alignment
//! and argument type validation.

use array_exprs::construct::align_array_dimensions;
use array_exprs::model::{ListCol, Ty, Value};
use array_exprs::mutate::array_append;

fn int_list(rows: &[&[i64]]) -> Value {
    let mut values: Vec<Option<i64>> = Vec::new();
    let mut offsets: Vec<usize> = vec![0];
    for xs in rows {
        for x in *xs {
            values.push(Some(*x));
        }
        offsets.push(values.len());
    }
    Value::List(Box::new(ListCol {
        values: Value::Int64(values),
        offsets,
        nulls: None,
    }))
}

fn into_single_row_list(v: Value) -> Value {
    let len = match &v {
        Value::Int64(d) => d.len(),
        Value::List(b) => b.offsets.len() - 1,
        _ => panic!("unexpected column"),
    };
    Value::List(Box::new(ListCol {
        values: v,
        offsets: vec![0, len],
        nulls: None,
    }))
}

fn ty_depth_of(v: &Value) -> usize {
    fn go(t: &Ty) -> usize {
        match t {
            Ty::List(inner) => 1 + go(inner),
            _ => 0,
        }
    }
    go(&v.ty())
}

fn value_eq_t(a: &Value, b: &Value) -> bool {
    match (a, b) {
        (Value::Int64(x), Value::Int64(y)) => x == y,
        (Value::Bool(x), Value::Bool(y)) => x == y,
        (Value::Utf8(x), Value::Utf8(y)) => x == y,
        (Value::Null(x), Value::Null(y)) => x.len() == y.len(),
        (Value::List(x), Value::List(y)) => {
            x.offsets == y.offsets && x.nulls == y.nulls && value_eq_t(&x.values, &y.values)
        }
        _ => false,
    }
}

#[test]
fn test_align_array_dimensions() {
    let array1d_1 = int_list(&[&[1, 2, 3], &[4, 5]]);
    let array1d_2 = int_list(&[&[6, 7, 8]]);

    let array2d_1 = into_single_row_list(int_list(&[&[1, 2, 3], &[4, 5]]));
    let array2d_2 = into_single_row_list(array1d_2);

    let res = align_array_dimensions(vec![array1d_1, array2d_2]).unwrap();

    let expected = &array2d_1;
    let expected_dim = ty_depth_of(&array2d_1);
    assert!(!value_eq_t(&res[0], expected));
    assert_eq!(ty_depth_of(&res[0]), expected_dim);

    let array1d_1 = int_list(&[&[1, 2, 3], &[4, 5]]);
    let array3d_1 = into_single_row_list(array2d_1);
    let array3d_2 = into_single_row_list(into_single_row_list(int_list(&[&[6, 7, 8]])));
    let res = align_array_dimensions(vec![array1d_1, array3d_2]).unwrap();

    let expected = &array3d_1;
    let expected_dim = ty_depth_of(&array3d_1);
    assert!(!value_eq_t(&res[0], expected));
    assert_eq!(ty_depth_of(&res[0]), expected_dim);
}

#[test]
fn test_check_invalid_datatypes() {
    let list_array = int_list(&[&[1, 2, 3]]);
    let int64_array = Value::Utf8(vec![Some(String::from("string"))]);

    let args = vec![list_array, int64_array];

    let array = array_append(&args);

    let err = array.unwrap_err();
    assert!(err.is_plan());
    assert_eq!(
        err.message().as_str(),
        "array_append received incompatible types"
    );
}
