use vdb::filter::eval;
use vdb::filter::Filter;
use vdb::format::value::{Value, ValueMap};
use vdb::metadata::Metadata;

fn doc() -> Metadata {
    let mut inner = ValueMap::new();
    inner.insert("plan".to_owned(), Value::Str("pro".into()));
    inner.insert("seats".to_owned(), Value::I64(5));

    let mut m = Metadata::new();
    m.insert("category", Value::Str("tools".into()));
    m.insert("price", Value::F64(19.99f64.to_bits()));
    m.insert("count", Value::I64(3));
    m.insert("active", Value::Bool(true));
    m.insert("nothing", Value::Null);
    m.insert(
        "tags",
        Value::Array(vec![Value::Str("hand".into()), Value::Str("metal".into())]),
    );
    m.insert("user", Value::Object(inner));
    m
}

fn m(filter: Filter) -> bool {
    eval::matches(&filter, &doc())
}

#[test]
fn equality_on_each_scalar_type() {
    assert!(m(Filter::eq("category", Value::Str("tools".into()))));
    assert!(!m(Filter::eq("category", Value::Str("toys".into()))));
    assert!(m(Filter::eq("count", Value::I64(3))));
    assert!(m(Filter::eq("active", Value::Bool(true))));
    assert!(!m(Filter::eq("active", Value::Bool(false))));
}

/// A caller who writes `3.0` against a document holding `3` means the same thing.
#[test]
fn integers_and_floats_compare_numerically_across_the_boundary() {
    assert!(m(Filter::eq("count", Value::F64(3.0f64.to_bits()))));
    assert!(m(Filter::gte("count", Value::F64(2.5f64.to_bits()))));
    assert!(m(Filter::lt("count", Value::F64(3.5f64.to_bits()))));
    assert!(m(Filter::gt("price", Value::I64(19))));
    assert!(m(Filter::lt("price", Value::I64(20))));
}

#[test]
fn ordering_on_strings_and_bools() {
    assert!(m(Filter::gt("category", Value::Str("apple".into()))));
    assert!(m(Filter::lt("category", Value::Str("zebra".into()))));
    assert!(m(Filter::gt("active", Value::Bool(false))));
}

/// The central rule: a type mismatch is `false`, never an error.
#[test]
fn comparing_mismatched_types_is_false_rather_than_an_error() {
    assert!(!m(Filter::eq("category", Value::I64(1))));
    assert!(!m(Filter::gt("category", Value::I64(1))));
    assert!(!m(Filter::lt("count", Value::Str("x".into()))));
    assert!(!m(Filter::gte("active", Value::F64(1.0f64.to_bits()))));
}

/// `Gt` and `Lte` are both false where no ordering exists, so they are not negations of one
/// another. Pinned deliberately: it looks like a bug until you know it is the rule.
#[test]
fn ordering_comparisons_are_not_negations_of_each_other() {
    let f = Filter::gt("category", Value::I64(1));
    let g = Filter::lte("category", Value::I64(1));
    assert!(!m(f));
    assert!(!m(g));
    // Whereas Ne genuinely is the negation of Eq.
    assert_eq!(
        m(Filter::ne("category", Value::I64(1))),
        !m(Filter::eq("category", Value::I64(1)))
    );
}

#[test]
fn a_missing_field_behaves_predictably() {
    assert!(!m(Filter::eq("absent", Value::I64(1))));
    assert!(
        m(Filter::ne("absent", Value::I64(1))),
        "Ne is the exact negation of Eq"
    );
    assert!(!m(Filter::gt("absent", Value::I64(1))));
    assert!(!m(Filter::present("absent")));
    assert!(m(Filter::is_null("absent")));
    assert!(
        m(Filter::eq("absent", Value::Null)),
        "an absent field equals null"
    );
}

#[test]
fn an_explicit_null_is_present_but_null() {
    assert!(
        m(Filter::present("nothing")),
        "an explicit null is still present"
    );
    assert!(m(Filter::is_null("nothing")));
    assert!(m(Filter::eq("nothing", Value::Null)));
    assert!(!m(Filter::eq("nothing", Value::I64(0))));
}

#[test]
fn dotted_paths_reach_nested_fields() {
    assert!(m(Filter::eq("user.plan", Value::Str("pro".into()))));
    assert!(m(Filter::gt("user.seats", Value::I64(3))));
    assert!(!m(Filter::present("user.missing")));
    assert!(
        !m(Filter::present("category.nope")),
        "cannot descend into a scalar"
    );
}

#[test]
fn in_and_nin() {
    assert!(m(Filter::in_values(
        "category",
        vec![Value::Str("toys".into()), Value::Str("tools".into())]
    )));
    assert!(!m(Filter::in_values(
        "category",
        vec![Value::Str("toys".into())]
    )));
    assert!(m(Filter::not_in(
        "category",
        vec![Value::Str("toys".into())]
    )));

    // The identity cases.
    assert!(
        !m(Filter::in_values("category", vec![])),
        "in nothing matches nothing"
    );
    assert!(
        m(Filter::not_in("category", vec![])),
        "in none of nothing matches everything"
    );
}

#[test]
fn starts_with_applies_only_to_strings() {
    assert!(m(Filter::starts_with("category", "too")));
    assert!(!m(Filter::starts_with("category", "xyz")));
    assert!(
        m(Filter::starts_with("category", "")),
        "every string starts with nothing"
    );
    assert!(
        !m(Filter::starts_with("count", "3")),
        "a number is not a string"
    );
    assert!(!m(Filter::starts_with("absent", "")));
}

#[test]
fn contains_is_array_membership() {
    assert!(m(Filter::contains("tags", Value::Str("metal".into()))));
    assert!(!m(Filter::contains("tags", Value::Str("wood".into()))));
    assert!(
        !m(Filter::contains("category", Value::Str("too".into()))),
        "not a substring test"
    );
    assert!(!m(Filter::contains("absent", Value::Null)));
}

#[test]
fn boolean_combinators() {
    assert!(m(Filter::all(vec![
        Filter::eq("category", Value::Str("tools".into())),
        Filter::gt("price", Value::F64(10.0f64.to_bits())),
    ])));
    assert!(!m(Filter::all(vec![
        Filter::eq("category", Value::Str("tools".into())),
        Filter::gt("price", Value::F64(100.0f64.to_bits())),
    ])));
    assert!(m(Filter::any(vec![
        Filter::eq("category", Value::Str("toys".into())),
        Filter::gt("price", Value::F64(10.0f64.to_bits())),
    ])));
    assert!(m(Filter::negate(Filter::present("absent"))));
}

/// The identity elements. Anything else makes `all(vec![])` behave differently from no
/// filter at all, which surprises callers building filters programmatically.
#[test]
fn empty_combinators_are_the_identity_of_their_operation() {
    assert!(
        m(Filter::all(vec![])),
        "an empty conjunction matches everything"
    );
    assert!(
        !m(Filter::any(vec![])),
        "an empty disjunction matches nothing"
    );
}

#[test]
fn de_morgan_holds() {
    let a = Filter::eq("category", Value::Str("tools".into()));
    let b = Filter::gt("price", Value::F64(100.0f64.to_bits()));
    let left = Filter::negate(Filter::all(vec![a.clone(), b.clone()]));
    let right = Filter::any(vec![Filter::negate(a), Filter::negate(b)]);
    assert_eq!(m(left), m(right));
}

#[test]
fn evaluation_against_empty_metadata_is_total() {
    let empty = Metadata::new();
    for filter in [
        Filter::eq("a", Value::I64(1)),
        Filter::ne("a", Value::I64(1)),
        Filter::gt("a", Value::I64(1)),
        Filter::in_values("a", vec![Value::I64(1)]),
        Filter::present("a"),
        Filter::is_null("a"),
        Filter::starts_with("a", "x"),
        Filter::contains("a", Value::I64(1)),
        Filter::all(vec![]),
        Filter::any(vec![]),
    ] {
        // The assertion is simply that this returns rather than panicking or erroring.
        let _ = eval::matches(&filter, &empty);
    }
    assert!(!eval::matches(&Filter::present("a"), &empty));
    assert!(eval::matches(&Filter::is_null("a"), &empty));
}

#[test]
fn arrays_and_maps_compare_structurally_but_have_no_order() {
    let mut m1 = Metadata::new();
    m1.insert("list", Value::Array(vec![Value::I64(1), Value::I64(2)]));

    assert!(eval::matches(
        &Filter::eq("list", Value::Array(vec![Value::I64(1), Value::I64(2)])),
        &m1
    ));
    assert!(!eval::matches(
        &Filter::eq("list", Value::Array(vec![Value::I64(2), Value::I64(1)])),
        &m1
    ));
    assert!(
        !eval::matches(&Filter::gt("list", Value::Array(vec![])), &m1),
        "arrays have no ordering"
    );
}
