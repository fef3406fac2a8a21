//! Unit tests for the value model: scalar-to-column conversion, null
//! columns, and arg-min/arg-max.

use dfplan::arg_min_max::{ArgAgg, arg_max_bool, arg_max_str, arg_min_bool, arg_min_str, str_lt};
use dfplan::dtype::{DataType, TimeUnit};
use dfplan::null_series::{NullChunked, null_arithmetic};
use dfplan::page_walk::PageWalker;
use dfplan::series::{Series, SeriesData};
use dfplan::value::{
    AnyValue, ValueError, any_values_to_bool, any_values_to_integer, any_values_to_string,
    invalid_value_error,
};

#[test]
fn strict_integer_conversion_checks_the_range() {
    let values = vec![AnyValue::Int64(300), AnyValue::Null, AnyValue::UInt8(7)];
    let ok = any_values_to_integer(&values, DataType::Int64, true).unwrap();
    assert_eq!(ok.values, vec![Some(300), None, Some(7)]);

    // 300 does not fit an 8-bit column: strict mode refuses it.
    match any_values_to_integer(&values, DataType::Int8, true) {
        Err(ValueError::SchemaMismatch { expected, found }) => {
            assert_eq!(expected, DataType::Int8);
            assert_eq!(found, DataType::Int64);
        },
        _ => panic!("expected a schema mismatch"),
    }

    // Non-strict mode turns it into null instead.
    let lax = any_values_to_integer(&values, DataType::Int8, false).unwrap();
    assert_eq!(lax.values, vec![None, None, Some(7)]);
}

#[test]
fn strict_bool_conversion_refuses_other_types() {
    let values = vec![AnyValue::Boolean(true), AnyValue::Null, AnyValue::Int32(1)];
    match any_values_to_bool(&values, true) {
        Err(ValueError::SchemaMismatch { expected, found }) => {
            assert_eq!(expected, DataType::Boolean);
            assert_eq!(found, DataType::Int32);
        },
        _ => panic!("expected a schema mismatch"),
    }
    let lax = any_values_to_bool(&values, false).unwrap();
    assert_eq!(lax.values, vec![Some(true), None, None]);
}

#[test]
fn string_conversion_keeps_strings_and_nulls() {
    let values = vec![
        AnyValue::String(String::from("x")),
        AnyValue::Null,
        AnyValue::String(String::from("y")),
    ];
    let c = any_values_to_string(&values, true).unwrap();
    assert_eq!(
        c.values,
        vec![Some(String::from("x")), None, Some(String::from("y"))]
    );
}

#[test]
fn invalid_value_error_names_both_types() {
    let e = invalid_value_error(&DataType::Date, &AnyValue::Time(3));
    match e {
        ValueError::SchemaMismatch { expected, found } => {
            assert_eq!(expected, DataType::Date);
            assert_eq!(found, DataType::Time);
        },
        _ => panic!("expected a schema mismatch"),
    }
}

#[test]
fn from_any_values_infers_the_first_non_null_dtype() {
    let values = vec![AnyValue::Null, AnyValue::Int32(5), AnyValue::Int32(6)];
    let s = Series::from_any_values(String::from("n"), &values, true).unwrap();
    assert_eq!(s.name, String::from("n"));
    assert_eq!(s.dtype(), DataType::Int32);
    assert_eq!(s.len(), 3);

    // All nulls give a null column.
    let nulls = vec![AnyValue::Null, AnyValue::Null];
    let s2 = Series::from_any_values(String::from("z"), &nulls, true).unwrap();
    assert_eq!(s2.dtype(), DataType::Null);
    assert_eq!(s2.len(), 2);
}

#[test]
fn from_any_values_and_dtype_builds_temporal_columns() {
    let values = vec![
        AnyValue::Datetime(10, TimeUnit::Milliseconds),
        AnyValue::Null,
    ];
    let s = Series::from_any_values_and_dtype(
        String::from("t"),
        &values,
        &DataType::Datetime(TimeUnit::Milliseconds),
        true,
    )
    .unwrap();
    assert_eq!(s.dtype(), DataType::Datetime(TimeUnit::Milliseconds));

    // A mismatched unit is refused in strict mode.
    assert!(Series::from_any_values_and_dtype(
        String::from("t"),
        &values,
        &DataType::Datetime(TimeUnit::Nanoseconds),
        true,
    )
    .is_err());

    // An empty slice gives an empty column of the requested type.
    let empty: Vec<AnyValue> = Vec::new();
    let s3 = Series::from_any_values_and_dtype(String::from("e"), &empty, &DataType::Time, true)
        .unwrap();
    assert_eq!(s3.len(), 0);
    assert_eq!(s3.dtype(), DataType::Time);
}

#[test]
fn new_null_and_null_chunked_lengths() {
    let s = Series::new_null(String::from("nothing"), 4);
    assert_eq!(s.len(), 4);
    assert_eq!(s.dtype(), DataType::Null);

    let nc = NullChunked::new(String::from("n"), 0);
    assert!(nc.is_empty());
    assert_eq!(nc.n_unique(), 0);
    let nc2 = NullChunked::new(String::from("n"), 9);
    assert_eq!(nc2.len(), 9);
    assert_eq!(nc2.n_unique(), 1);
}

#[test]
fn null_slice_and_split_handle_negative_offsets() {
    let nc = NullChunked::new(String::from("n"), 10);
    assert_eq!(nc.slice(2, 5).len(), 5);
    assert_eq!(nc.slice(-3, 99).len(), 3);
    assert_eq!(nc.slice(8, 99).len(), 2);
    assert_eq!(nc.slice(-99, 4).len(), 4);

    let (head, tail) = nc.split_at(4);
    assert_eq!(head.len(), 4);
    assert_eq!(tail.len(), 6);
    let (head2, tail2) = nc.split_at(-2);
    assert_eq!(head2.len(), 8);
    assert_eq!(tail2.len(), 2);
}

#[test]
fn null_arithmetic_broadcasts_or_refuses() {
    let nc = NullChunked::new(String::from("lhs"), 1);
    let rhs = Series::new_null(String::from("rhs"), 5);
    let out = null_arithmetic(&nc, &rhs).unwrap();
    assert_eq!(out.len(), 5);
    assert_eq!(out.name, String::from("lhs"));

    let nc2 = NullChunked::new(String::from("lhs"), 3);
    assert!(null_arithmetic(&nc2, &rhs).is_err());
}

#[test]
fn arg_min_and_max_over_booleans() {
    let vals = vec![None, Some(true), Some(false), Some(true)];
    assert_eq!(arg_min_bool(&vals), Some(2));
    assert_eq!(arg_max_bool(&vals), Some(1));

    let only_true = vec![None, Some(true)];
    assert_eq!(arg_min_bool(&only_true), Some(1));

    let all_null: Vec<Option<bool>> = vec![None, None];
    assert_eq!(arg_min_bool(&all_null), None);
    assert_eq!(arg_max_bool(&all_null), None);
}

#[test]
fn arg_min_and_max_over_strings() {
    let vals = vec![
        Some(String::from("pear")),
        None,
        Some(String::from("apple")),
        Some(String::from("apple")),
        Some(String::from("zebra")),
    ];
    // The first occurrence of the extremum wins.
    assert_eq!(arg_min_str(&vals), Some(2));
    assert_eq!(arg_max_str(&vals), Some(4));
    let empty: Vec<Option<String>> = Vec::new();
    assert_eq!(arg_min_str(&empty), None);
}

#[test]
fn string_comparison_is_codepoint_lexicographic() {
    assert!(str_lt(&String::from("abc"), &String::from("abd")));
    assert!(str_lt(&String::from("ab"), &String::from("abc")));
    assert!(!str_lt(&String::from("abc"), &String::from("abc")));
    assert!(!str_lt(&String::from("b"), &String::from("ab")));
}

#[test]
fn series_arg_extremes_dispatch_by_type() {
    let ints = Series {
        name: String::from("n"),
        data: SeriesData::Primitive(DataType::Int64, vec![Some(5), None, Some(-2), Some(9)]),
    };
    assert_eq!(ints.arg_min(), Some(2));
    assert_eq!(ints.arg_max(), Some(3));

    let nulls = Series::new_null(String::from("z"), 3);
    assert_eq!(nulls.arg_min(), None);
    assert_eq!(nulls.arg_max(), None);
}

#[test]
fn page_walker_runs_until_no_token_is_pending() {
    let mut w = PageWalker::new();
    // First request carries no token.
    assert_eq!(w.next_request(), Some(None));
    // The response announced a continuation.
    w.record_response(Some(String::from("page-2")));
    assert_eq!(w.next_request(), Some(Some(String::from("page-2"))));
    // The final page announced none: the walk is over, and stays over.
    w.record_response(None);
    assert_eq!(w.next_request(), None);
    assert_eq!(w.next_request(), None);
}

#[test]
fn non_strict_inference_widens_to_the_common_integer_type() {
    // Mixed integer widths widen to the narrowest covering type.
    let values = vec![AnyValue::Int8(-3), AnyValue::Null, AnyValue::Int64(1000)];
    let s = Series::from_any_values(String::from("w"), &values, false).unwrap();
    assert_eq!(s.dtype(), DataType::Int64);
    match &s.data {
        SeriesData::Primitive(_, v) => assert_eq!(v.clone(), vec![Some(-3), None, Some(1000)]),
        _ => panic!("expected a primitive column"),
    }

    // A signed and an unsigned type join to the next signed type that
    // covers both ranges.
    let mixed = vec![AnyValue::UInt8(200), AnyValue::Int8(-1)];
    let s2 = Series::from_any_values(String::from("m"), &mixed, false).unwrap();
    assert_eq!(s2.dtype(), DataType::Int16);

    // An unsigned 64-bit value against a signed one has no common type.
    let bad = vec![AnyValue::UInt64(1), AnyValue::Int8(-1)];
    match Series::from_any_values(String::from("b"), &bad, false) {
        Err(ValueError::NoSupertype { left, right }) => {
            assert_eq!(left, DataType::UInt64);
            assert_eq!(right, DataType::Int8);
        },
        _ => panic!("expected a missing common type"),
    }
}
