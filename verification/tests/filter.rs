use vdb::error::{DbError, ValidationError};
use vdb::filter::Filter;
use vdb::format::value::Value;
use vdb::validation::{MAX_FILTER_DEPTH, MAX_FILTER_NODES};

#[test]
fn node_count_and_depth_describe_the_tree() {
    let leaf = Filter::eq("a", Value::I64(1));
    assert_eq!(leaf.node_count(), 1);
    assert_eq!(leaf.depth(), 1);

    let tree = Filter::all(vec![
        Filter::eq("a", Value::I64(1)),
        Filter::any(vec![
            Filter::eq("b", Value::I64(2)),
            Filter::negate(Filter::present("c")),
        ]),
    ]);
    assert_eq!(tree.node_count(), 6);
    assert_eq!(tree.depth(), 4);
}

#[test]
fn combinators_flatten_rather_than_nesting() {
    let f = Filter::eq("a", Value::I64(1))
        .and(Filter::eq("b", Value::I64(2)))
        .and(Filter::eq("c", Value::I64(3)));
    // Three conjuncts under one And, not three levels of nesting — which keeps a chain of
    // `.and()` calls from hitting the depth limit.
    assert_eq!(f.depth(), 2);
    assert_eq!(f.node_count(), 4);

    let f = Filter::eq("a", Value::I64(1))
        .or(Filter::eq("b", Value::I64(2)))
        .or(Filter::eq("c", Value::I64(3)));
    assert_eq!(f.depth(), 2);
}

#[test]
fn a_reasonable_filter_validates() {
    let f = Filter::all(vec![
        Filter::eq("category", Value::Str("tools".into())),
        Filter::gte("price", Value::F64(10.0f64.to_bits())),
        Filter::negate(Filter::present("archived")),
    ]);
    f.validate().unwrap();
}

/// Evaluation recurses, so an unbounded tree would overflow the stack — an abort, not a
/// catchable error.
#[test]
fn an_over_deep_filter_is_rejected() {
    let mut f = Filter::present("a");
    for _ in 0..MAX_FILTER_DEPTH + 2 {
        f = Filter::negate(f);
    }
    match f.validate() {
        Err(DbError::Validation(ValidationError::FilterTooComplex {
            depth,
            max_depth,
            ..
        })) => {
            assert!(depth > max_depth);
        }
        other => panic!("expected FilterTooComplex, got {other:?}"),
    }
}

#[test]
fn an_over_wide_filter_is_rejected() {
    let children: Vec<Filter> = (0..MAX_FILTER_NODES + 1)
        .map(|i| Filter::eq(format!("f{i}"), Value::I64(1)))
        .collect();
    assert!(Filter::all(children).validate().is_err());
}

#[test]
fn a_filter_at_exactly_the_limits_is_accepted() {
    let children: Vec<Filter> = (0..MAX_FILTER_NODES - 1)
        .map(|i| Filter::eq(format!("f{i}"), Value::I64(1)))
        .collect();
    let f = Filter::all(children);
    assert_eq!(f.node_count(), MAX_FILTER_NODES);
    f.validate().unwrap();
}

#[test]
fn the_not_operator_is_the_same_as_the_constructor() {
    let f = Filter::present("a");
    assert_eq!(!f.clone(), Filter::negate(f));
}

#[test]
fn referenced_fields_are_sorted_and_deduplicated() {
    let f = Filter::all(vec![
        Filter::eq("zebra", Value::I64(1)),
        Filter::any(vec![
            Filter::eq("apple", Value::I64(2)),
            Filter::present("zebra"),
        ]),
        Filter::negate(Filter::is_null("user.plan")),
    ]);
    assert_eq!(f.referenced_fields(), vec!["apple", "user.plan", "zebra"]);
}
