//! Metadata filters.
//!
//! A small typed expression tree, not a query language: there is no parser and no planner. The
//! workload is narrowing a vector search by a handful of fields.
//!
//! # Filters cannot fail
//!
//! Evaluation is total. A filter is validated once when it is built (depth and node count,
//! nothing else), and after that every combination of filter and document yields `true` or
//! `false`, never an error. Comparing a string to a number is `false`. Descending into a scalar
//! is `false`. A field no document has is simply absent. A filter's behaviour is a property of
//! the filter, not of the data it happens to meet.
use vstd::prelude::*;
use vstd::utf8::*;

use crate::bytes;
use crate::bytes::Order;
use crate::count;
use crate::error;
use crate::error::{DbError, ErrorModel, ValidationError, ValidationModel};
use crate::format::value;
use crate::format::value::{copy_items, Value, ValueModel};
use crate::validation::{MAX_FILTER_DEPTH, MAX_FILTER_NODES};

pub mod eval;
pub mod laws;
pub mod meaning;

verus! {

/// A path to a metadata field, `.` descending into nested maps.
///
/// `"user.plan"` finds `plan` inside the map at `user`.
#[derive(Debug, PartialEq, Eq)]
pub struct Field {
    path: String,
}

impl View for Field {
    type V = Seq<char>;

    closed spec fn view(&self) -> Seq<char> {
        self.path@
    }
}

impl Field {
    /// A field path.
    pub fn new(path: String) -> (r: Self)
        ensures
            r@ == path@,
    {
        Field { path }
    }

    /// The path as written.
    pub fn as_str(&self) -> (r: &str)
        ensures
            r@ == self@,
    {
        self.path.as_str()
    }
}

impl Clone for Field {
    fn clone(&self) -> (r: Self)
        ensures
            r@ == self@,
    {
        Field { path: self.path.as_str().to_owned() }
    }
}

/// What can name a field.
pub trait IntoField: Sized {
    /// The path it names.
    spec fn field_text(self) -> Seq<char>;

    /// The field it names.
    fn into_field(self) -> (r: Field)
        ensures
            r@ == self.field_text(),
    ;
}

impl IntoField for Field {
    open spec fn field_text(self) -> Seq<char> {
        self@
    }

    fn into_field(self) -> (r: Field) {
        self
    }
}

impl IntoField for String {
    open spec fn field_text(self) -> Seq<char> {
        self@
    }

    fn into_field(self) -> (r: Field) {
        Field::new(self)
    }
}

impl<'a> IntoField for &'a str {
    open spec fn field_text(self) -> Seq<char> {
        self@
    }

    fn into_field(self) -> (r: Field) {
        Field::new(self.to_owned())
    }
}

/// What a filter asks, independent of how it is held in memory.
pub enum FilterModel {
    And(Seq<FilterModel>),
    Or(Seq<FilterModel>),
    Not(Box<FilterModel>),
    Eq(Seq<char>, ValueModel),
    Ne(Seq<char>, ValueModel),
    Gt(Seq<char>, ValueModel),
    Gte(Seq<char>, ValueModel),
    Lt(Seq<char>, ValueModel),
    Lte(Seq<char>, ValueModel),
    In(Seq<char>, Seq<ValueModel>),
    Nin(Seq<char>, Seq<ValueModel>),
    Exists(Seq<char>),
    IsNull(Seq<char>),
    StartsWith(Seq<char>, Seq<char>),
    Contains(Seq<char>, ValueModel),
}

/// A predicate over a document's metadata.
#[derive(Debug, PartialEq)]
pub enum Filter {
    /// Every child must match. An empty `And` matches everything.
    And(Vec<Filter>),
    /// At least one child must match. An empty `Or` matches nothing.
    Or(Vec<Filter>),
    /// The child must not match.
    Not(Box<Filter>),
    /// The field equals the value.
    Eq(Field, Value),
    /// The field does not equal the value. The exact negation of [`Filter::Eq`].
    Ne(Field, Value),
    /// The field is greater than the value.
    Gt(Field, Value),
    /// The field is greater than or equal to the value.
    Gte(Field, Value),
    /// The field is less than the value.
    Lt(Field, Value),
    /// The field is less than or equal to the value.
    Lte(Field, Value),
    /// The field equals one of the values. An empty list matches nothing.
    In(Field, Vec<Value>),
    /// The field equals none of the values. An empty list matches everything.
    Nin(Field, Vec<Value>),
    /// The field is present, whatever its value, an explicit null among them.
    Exists(Field),
    /// The field is absent, or present and null.
    IsNull(Field),
    /// The field is a string beginning with this prefix.
    StartsWith(Field, String),
    /// The field is an array containing this value.
    ///
    /// Array membership only. Substring matching would be a different operation wearing the
    /// same name, and conflating them makes both harder to reason about.
    Contains(Field, Value),
}

impl Filter {
    /// What the filter asks.
    pub open spec fn model(self) -> FilterModel
        decreases self,
    {
        match self {
            Filter::And(fs) => FilterModel::And(filter_models(fs@)),
            Filter::Or(fs) => FilterModel::Or(filter_models(fs@)),
            Filter::Not(f) => FilterModel::Not(Box::new(f.model())),
            Filter::Eq(f, v) => FilterModel::Eq(f@, v@),
            Filter::Ne(f, v) => FilterModel::Ne(f@, v@),
            Filter::Gt(f, v) => FilterModel::Gt(f@, v@),
            Filter::Gte(f, v) => FilterModel::Gte(f@, v@),
            Filter::Lt(f, v) => FilterModel::Lt(f@, v@),
            Filter::Lte(f, v) => FilterModel::Lte(f@, v@),
            Filter::In(f, vs) => FilterModel::In(f@, value::models(vs@)),
            Filter::Nin(f, vs) => FilterModel::Nin(f@, value::models(vs@)),
            Filter::Exists(f) => FilterModel::Exists(f@),
            Filter::IsNull(f) => FilterModel::IsNull(f@),
            Filter::StartsWith(f, p) => FilterModel::StartsWith(f@, p@),
            Filter::Contains(f, v) => FilterModel::Contains(f@, v@),
        }
    }
}

impl View for Filter {
    type V = FilterModel;

    open spec fn view(&self) -> FilterModel {
        self.model()
    }
}

/// What a list of filters asks.
pub open spec fn filter_models(fs: Seq<Filter>) -> Seq<FilterModel>
    decreases fs,
{
    if fs.len() == 0 {
        Seq::empty()
    } else {
        filter_models(fs.drop_last()).push(fs.last().model())
    }
}

/// The list of models has an entry for each filter.
pub proof fn lemma_filter_models(fs: Seq<Filter>)
    ensures
        filter_models(fs).len() == fs.len(),
        forall|i: int| 0 <= i < fs.len() ==> #[trigger] filter_models(fs)[i] == fs[i]@,
    decreases fs.len(),
{
    if fs.len() > 0 {
        lemma_filter_models(fs.drop_last());
        assert forall|i: int| 0 <= i < fs.len() implies #[trigger] filter_models(fs)[i]
            == fs[i]@ by {
            if i < fs.len() - 1 {
                assert(filter_models(fs.drop_last())[i] == fs.drop_last()[i]@);
            }
        }
    }
}

/// The models of the first filters are the first of the models.
proof fn lemma_filter_models_take(fs: Seq<Filter>, i: int)
    requires
        0 <= i < fs.len(),
    ensures
        filter_models(fs).take(i + 1) == filter_models(fs).take(i).push(fs[i]@),
        filter_models(fs.take(i)) == filter_models(fs).take(i),
        filter_models(fs.take(i + 1)) == filter_models(fs).take(i + 1),
{
    lemma_filter_models(fs);
    lemma_filter_models(fs.take(i));
    lemma_filter_models(fs.take(i + 1));
    assert(filter_models(fs).take(i + 1) =~= filter_models(fs).take(i).push(fs[i]@));
    assert(filter_models(fs.take(i)) =~= filter_models(fs).take(i));
    assert(filter_models(fs.take(i + 1)) =~= filter_models(fs).take(i + 1));
}

/// How many nodes a filter has.
pub open spec fn nodes_of(f: FilterModel) -> nat
    decreases f,
{
    match f {
        FilterModel::And(fs) => 1 + nodes_all(fs),
        FilterModel::Or(fs) => 1 + nodes_all(fs),
        FilterModel::Not(f) => 1 + nodes_of(*f),
        _ => 1,
    }
}

/// How many nodes a list of filters has.
pub open spec fn nodes_all(fs: Seq<FilterModel>) -> nat
    decreases fs,
{
    if fs.len() == 0 {
        0
    } else {
        nodes_all(fs.drop_last()) + nodes_of(fs.last())
    }
}

/// How deeply a filter nests. A leaf is depth 1.
pub open spec fn depth_of(f: FilterModel) -> nat
    decreases f,
{
    match f {
        FilterModel::And(fs) => 1 + depth_all(fs),
        FilterModel::Or(fs) => 1 + depth_all(fs),
        FilterModel::Not(f) => 1 + depth_of(*f),
        _ => 1,
    }
}

/// The depth of the deepest filter of a list, or 0 for an empty one.
pub open spec fn depth_all(fs: Seq<FilterModel>) -> nat
    decreases fs,
{
    if fs.len() == 0 {
        0
    } else if depth_of(fs.last()) > depth_all(fs.drop_last()) {
        depth_of(fs.last())
    } else {
        depth_all(fs.drop_last())
    }
}

/// Whether a filter reads a field.
pub open spec fn reads(f: FilterModel, field: Seq<char>) -> bool
    decreases f,
{
    match f {
        FilterModel::And(fs) => any_reads(fs, field),
        FilterModel::Or(fs) => any_reads(fs, field),
        FilterModel::Not(f) => reads(*f, field),
        FilterModel::Eq(p, _) => p == field,
        FilterModel::Ne(p, _) => p == field,
        FilterModel::Gt(p, _) => p == field,
        FilterModel::Gte(p, _) => p == field,
        FilterModel::Lt(p, _) => p == field,
        FilterModel::Lte(p, _) => p == field,
        FilterModel::In(p, _) => p == field,
        FilterModel::Nin(p, _) => p == field,
        FilterModel::Exists(p) => p == field,
        FilterModel::IsNull(p) => p == field,
        FilterModel::StartsWith(p, _) => p == field,
        FilterModel::Contains(p, _) => p == field,
    }
}

/// Whether any filter of a list reads a field.
pub open spec fn any_reads(fs: Seq<FilterModel>, field: Seq<char>) -> bool
    decreases fs,
{
    fs.len() > 0 && (any_reads(fs.drop_last(), field) || reads(fs.last(), field))
}

/// Whether a list of names holds one.
pub open spec fn holds(names: Seq<&str>, name: Seq<char>) -> bool {
    exists|i: int| 0 <= i < names.len() && (#[trigger] names[i])@ == name
}

/// Whether names are sorted and none occurs twice.
pub open spec fn names_ascend(names: Seq<&str>) -> bool {
    forall|i: int, j: int|
        0 <= i < j < names.len() ==> value::key_lt((#[trigger] names[i])@, (#[trigger] names[j])@)
}

/// Add a name to a sorted list, once.
fn add_name<'a>(names: &mut Vec<&'a str>, name: &'a str)
    requires
        names_ascend(old(names)@),
    ensures
        names_ascend(final(names)@),
        forall|s: Seq<char>| #[trigger]
            holds(final(names)@, s) == (holds(old(names)@, s) || s == name@),
{
    let mut i: usize = 0;
    let ghost before = names@;
    while i < names.len()
        invariant
            i <= names@.len(),
            names@ == before,
            names_ascend(before),
            before == old(names)@,
            forall|j: int| 0 <= j < i ==> value::key_lt((#[trigger] before[j])@, name@),
        ensures
            i < before.len() ==> bytes::lex_order(
                encode_utf8(before[i as int]@),
                encode_utf8(name@),
            ) == Order::Greater,
        decreases names.len() - i,
    {
        match bytes::compare_str(names[i], name) {
            Order::Less => {},
            Order::Equal => {
                assert(before[i as int]@ == name@);
                return ;
            },
            Order::Greater => {
                break;
            },
        }
        i += 1;
    }
    proof {
        assert forall|j: int| i <= j < before.len() implies value::key_lt(
            name@,
            (#[trigger] before[j])@,
        ) by {
            bytes::lemma_lex_total(encode_utf8(name@), encode_utf8(before[i as int]@));
            if j > i {
                assert(value::key_lt(before[i as int]@, before[j]@));
                bytes::lemma_lex_transitive(
                    encode_utf8(name@),
                    encode_utf8(before[i as int]@),
                    encode_utf8(before[j]@),
                );
            }
        }
    }
    names.insert(i, name);
    proof {
        let after = before.insert(i as int, name);
        assert(names@ =~= after);
        assert forall|a: int, b: int| 0 <= a < b < after.len() implies value::key_lt(
            (#[trigger] after[a])@,
            (#[trigger] after[b])@,
        ) by {
            let x = if a < i { a } else { a - 1 };
            let y = if b < i { b } else { b - 1 };
            if a != i && b != i {
                assert(after[a] == before[x] && after[b] == before[y]);
            } else if a == i {
                assert(after[b] == before[y]);
            } else {
                assert(after[a] == before[x]);
            }
        }
        assert forall|s: Seq<char>| #[trigger]
            holds(after, s) == (holds(before, s) || s == name@) by {
            if holds(after, s) {
                let k = choose|k: int| 0 <= k < after.len() && (#[trigger] after[k])@ == s;
                if k < i {
                    assert(before[k]@ == s);
                } else if k > i {
                    assert(before[k - 1]@ == s);
                }
            }
            if holds(before, s) {
                let k = choose|k: int| 0 <= k < before.len() && (#[trigger] before[k])@ == s;
                if k < i {
                    assert(after[k]@ == s);
                } else {
                    assert(after[k + 1]@ == s);
                }
            }
            assert(after[i as int]@ == name@);
        }
    }
}

/// Why a filter is refused, if it is.
pub open spec fn refused(f: FilterModel) -> Option<ErrorModel> {
    if nodes_of(f) > MAX_FILTER_NODES || depth_of(f) > MAX_FILTER_DEPTH {
        Some(
            ErrorModel::Validation(
                ValidationModel::FilterTooComplex {
                    nodes: count::capped(nodes_of(f)),
                    depth: count::capped(depth_of(f)),
                    max_nodes: MAX_FILTER_NODES,
                    max_depth: MAX_FILTER_DEPTH,
                },
            ),
        )
    } else {
        None
    }
}

impl Filter {
    /// `field == value`.
    pub fn eq<F: IntoField>(field: F, value: Value) -> (r: Self)
        ensures
            r@ == FilterModel::Eq(field.field_text(), value@),
    {
        Filter::Eq(field.into_field(), value)
    }

    /// `field != value`.
    pub fn ne<F: IntoField>(field: F, value: Value) -> (r: Self)
        ensures
            r@ == FilterModel::Ne(field.field_text(), value@),
    {
        Filter::Ne(field.into_field(), value)
    }

    /// `field > value`.
    pub fn gt<F: IntoField>(field: F, value: Value) -> (r: Self)
        ensures
            r@ == FilterModel::Gt(field.field_text(), value@),
    {
        Filter::Gt(field.into_field(), value)
    }

    /// `field >= value`.
    pub fn gte<F: IntoField>(field: F, value: Value) -> (r: Self)
        ensures
            r@ == FilterModel::Gte(field.field_text(), value@),
    {
        Filter::Gte(field.into_field(), value)
    }

    /// `field < value`.
    pub fn lt<F: IntoField>(field: F, value: Value) -> (r: Self)
        ensures
            r@ == FilterModel::Lt(field.field_text(), value@),
    {
        Filter::Lt(field.into_field(), value)
    }

    /// `field <= value`.
    pub fn lte<F: IntoField>(field: F, value: Value) -> (r: Self)
        ensures
            r@ == FilterModel::Lte(field.field_text(), value@),
    {
        Filter::Lte(field.into_field(), value)
    }

    /// `field` is one of `values`.
    pub fn in_values<F: IntoField>(field: F, values: Vec<Value>) -> (r: Self)
        ensures
            r@ == FilterModel::In(field.field_text(), value::models(values@)),
    {
        Filter::In(field.into_field(), values)
    }

    /// `field` is none of `values`.
    pub fn not_in<F: IntoField>(field: F, values: Vec<Value>) -> (r: Self)
        ensures
            r@ == FilterModel::Nin(field.field_text(), value::models(values@)),
    {
        Filter::Nin(field.into_field(), values)
    }

    /// `field` is present.
    pub fn present<F: IntoField>(field: F) -> (r: Self)
        ensures
            r@ == FilterModel::Exists(field.field_text()),
    {
        Filter::Exists(field.into_field())
    }

    /// `field` is absent or null.
    pub fn is_null<F: IntoField>(field: F) -> (r: Self)
        ensures
            r@ == FilterModel::IsNull(field.field_text()),
    {
        Filter::IsNull(field.into_field())
    }

    /// `field` starts with `prefix`.
    pub fn starts_with<F: IntoField>(field: F, prefix: &str) -> (r: Self)
        ensures
            r@ == FilterModel::StartsWith(field.field_text(), prefix@),
    {
        Filter::StartsWith(field.into_field(), prefix.to_owned())
    }

    /// `field` is an array containing `value`.
    pub fn contains<F: IntoField>(field: F, value: Value) -> (r: Self)
        ensures
            r@ == FilterModel::Contains(field.field_text(), value@),
    {
        Filter::Contains(field.into_field(), value)
    }

    /// Conjunction.
    pub fn all(filters: Vec<Filter>) -> (r: Self)
        ensures
            r@ == FilterModel::And(filter_models(filters@)),
    {
        Filter::And(filters)
    }

    /// Disjunction.
    pub fn any(filters: Vec<Filter>) -> (r: Self)
        ensures
            r@ == FilterModel::Or(filter_models(filters@)),
    {
        Filter::Or(filters)
    }

    /// Negation. Also available as the `!` operator.
    pub fn negate(filter: Filter) -> (r: Self)
        ensures
            r@ == FilterModel::Not(Box::new(filter@)),
    {
        Filter::Not(Box::new(filter))
    }

    /// Combine with another filter, requiring both.
    #[must_use]
    pub fn and(self, other: Filter) -> (r: Self)
        ensures
            r@ == both(self@, other@),
    {
        match self {
            Filter::And(filters) => {
                let mut filters = filters;
                let ghost before = filters@;
                filters.push(other);
                assert(filters@.drop_last() =~= before);
                assert(filter_models(filters@) == filter_models(before).push(other@));
                Filter::And(filters)
            },
            first => {
                let mut filters: Vec<Filter> = Vec::new();
                filters.push(first);
                filters.push(other);
                proof {
                    lemma_filter_models(filters@);
                    assert(filter_models(filters@) =~= seq![first@, other@]);
                }
                Filter::And(filters)
            },
        }
    }

    /// Combine with another filter, requiring either.
    #[must_use]
    pub fn or(self, other: Filter) -> (r: Self)
        ensures
            r@ == either(self@, other@),
    {
        match self {
            Filter::Or(filters) => {
                let mut filters = filters;
                let ghost before = filters@;
                filters.push(other);
                assert(filters@.drop_last() =~= before);
                assert(filter_models(filters@) == filter_models(before).push(other@));
                Filter::Or(filters)
            },
            first => {
                let mut filters: Vec<Filter> = Vec::new();
                filters.push(first);
                filters.push(other);
                proof {
                    lemma_filter_models(filters@);
                    assert(filter_models(filters@) =~= seq![first@, other@]);
                }
                Filter::Or(filters)
            },
        }
    }

    /// Total nodes in the tree.
    pub fn node_count(&self) -> (r: usize)
        ensures
            r == count::capped(nodes_of(self@)),
        decreases self,
    {
        match self {
            Filter::And(children) => count_nodes(children).saturating_add(1),
            Filter::Or(children) => count_nodes(children).saturating_add(1),
            Filter::Not(child) => child.node_count().saturating_add(1),
            _ => 1,
        }
    }

    /// Deepest nesting, a leaf being depth 1.
    pub fn depth(&self) -> (r: usize)
        ensures
            r == count::capped(depth_of(self@)),
        decreases self,
    {
        match self {
            Filter::And(children) => deepest(children).saturating_add(1),
            Filter::Or(children) => deepest(children).saturating_add(1),
            Filter::Not(child) => child.depth().saturating_add(1),
            _ => 1,
        }
    }

    /// Every field the filter reads, sorted and deduplicated.
    pub fn referenced_fields(&self) -> (r: Vec<&str>)
        ensures
            names_ascend(r@),
            forall|s: Seq<char>| #[trigger] holds(r@, s) == reads(self@, s),
    {
        let mut out: Vec<&str> = Vec::new();
        self.collect_fields(&mut out);
        out
    }

    fn collect_fields<'a>(&'a self, out: &mut Vec<&'a str>)
        requires
            names_ascend(old(out)@),
        ensures
            names_ascend(final(out)@),
            forall|s: Seq<char>| #[trigger]
                holds(final(out)@, s) == (holds(old(out)@, s) || reads(self@, s)),
        decreases self,
    {
        match self {
            Filter::And(children) => collect_all(children, out),
            Filter::Or(children) => collect_all(children, out),
            Filter::Not(child) => child.collect_fields(out),
            Filter::Eq(f, _) => add_name(out, f.as_str()),
            Filter::Ne(f, _) => add_name(out, f.as_str()),
            Filter::Gt(f, _) => add_name(out, f.as_str()),
            Filter::Gte(f, _) => add_name(out, f.as_str()),
            Filter::Lt(f, _) => add_name(out, f.as_str()),
            Filter::Lte(f, _) => add_name(out, f.as_str()),
            Filter::In(f, _) => add_name(out, f.as_str()),
            Filter::Nin(f, _) => add_name(out, f.as_str()),
            Filter::Exists(f) => add_name(out, f.as_str()),
            Filter::IsNull(f) => add_name(out, f.as_str()),
            Filter::StartsWith(f, _) => add_name(out, f.as_str()),
            Filter::Contains(f, _) => add_name(out, f.as_str()),
        }
    }

    /// Check the filter against the engine's limits.
    ///
    /// The only thing that can ever reject a filter, and it happens once, before evaluation.
    /// Everything after this point is total.
    ///
    /// # Errors
    /// [`ValidationError::FilterTooComplex`] if the tree has too many nodes or nests too deeply.
    /// Both bounds exist because evaluation recurses, and unbounded recursion overflows the
    /// stack, which aborts rather than returning an error.
    pub fn validate(&self) -> (r: Result<(), DbError>)
        ensures
            match refused(self@) {
                Some(e) => error::failed(r, e),
                None => r is Ok,
            },
    {
        let nodes: usize = self.node_count();
        let depth: usize = self.depth();
        if nodes > MAX_FILTER_NODES || depth > MAX_FILTER_DEPTH {
            return Err(
                DbError::Validation(
                    ValidationError::FilterTooComplex {
                        nodes,
                        depth,
                        max_nodes: MAX_FILTER_NODES,
                        max_depth: MAX_FILTER_DEPTH,
                    },
                ),
            );
        }
        Ok(())
    }
}

/// What combining two filters by `and` asks: a conjunction grows rather than nesting.
pub open spec fn both(a: FilterModel, b: FilterModel) -> FilterModel {
    match a {
        FilterModel::And(fs) => FilterModel::And(fs.push(b)),
        _ => FilterModel::And(seq![a, b]),
    }
}

/// What combining two filters by `or` asks: a disjunction grows rather than nesting.
pub open spec fn either(a: FilterModel, b: FilterModel) -> FilterModel {
    match a {
        FilterModel::Or(fs) => FilterModel::Or(fs.push(b)),
        _ => FilterModel::Or(seq![a, b]),
    }
}

fn count_nodes(children: &Vec<Filter>) -> (r: usize)
    ensures
        r == count::capped(nodes_all(filter_models(children@))),
    decreases children,
{
    let mut total: usize = 0;
    let mut i: usize = 0;
    while i < children.len()
        invariant
            i <= children@.len(),
            total == count::capped(nodes_all(filter_models(children@).take(i as int))),
        decreases children.len() - i,
    {
        proof {
            lemma_filter_models(children@);
            lemma_filter_models_take(children@, i as int);
            let fs = filter_models(children@);
            assert(fs.take(i + 1).drop_last() =~= fs.take(i as int));
        }
        total = total.saturating_add(children[i].node_count());
        i += 1;
    }
    proof {
        lemma_filter_models(children@);
        assert(filter_models(children@).take(i as int) =~= filter_models(children@));
    }
    total
}

fn deepest(children: &Vec<Filter>) -> (r: usize)
    ensures
        r == count::capped(depth_all(filter_models(children@))),
    decreases children,
{
    let mut most: usize = 0;
    let mut i: usize = 0;
    while i < children.len()
        invariant
            i <= children@.len(),
            most == count::capped(depth_all(filter_models(children@).take(i as int))),
        decreases children.len() - i,
    {
        proof {
            lemma_filter_models(children@);
            lemma_filter_models_take(children@, i as int);
            let fs = filter_models(children@);
            assert(fs.take(i + 1).drop_last() =~= fs.take(i as int));
        }
        let d: usize = children[i].depth();
        if d > most {
            most = d;
        }
        i += 1;
    }
    proof {
        lemma_filter_models(children@);
        assert(filter_models(children@).take(i as int) =~= filter_models(children@));
    }
    most
}

fn collect_all<'a>(children: &'a Vec<Filter>, out: &mut Vec<&'a str>)
    requires
        names_ascend(old(out)@),
    ensures
        names_ascend(final(out)@),
        forall|s: Seq<char>| #[trigger]
            holds(final(out)@, s) == (holds(old(out)@, s) || any_reads(
                filter_models(children@),
                s,
            )),
    decreases children,
{
    let mut i: usize = 0;
    while i < children.len()
        invariant
            i <= children@.len(),
            names_ascend(out@),
            forall|s: Seq<char>| #[trigger]
                holds(out@, s) == (holds(old(out)@, s) || any_reads(
                    filter_models(children@).take(i as int),
                    s,
                )),
        decreases children.len() - i,
    {
        proof {
            lemma_filter_models(children@);
            lemma_filter_models_take(children@, i as int);
            let fs = filter_models(children@);
            assert(fs.take(i + 1).drop_last() =~= fs.take(i as int));
        }
        children[i].collect_fields(out);
        i += 1;
    }
    proof {
        lemma_filter_models(children@);
        assert(filter_models(children@).take(i as int) =~= filter_models(children@));
    }
}

impl core::ops::Not for Filter {
    type Output = Filter;

    fn not(self) -> (r: Filter)
        ensures
            r@ == FilterModel::Not(Box::new(self@)),
    {
        Filter::Not(Box::new(self))
    }
}

impl vstd::std_specs::ops::NotSpecImpl for Filter {
    open spec fn obeys_not_spec() -> bool {
        true
    }

    open spec fn not_req(self) -> bool {
        true
    }

    open spec fn not_spec(self) -> Filter {
        Filter::Not(Box::new(self))
    }
}

impl Clone for Filter {
    fn clone(&self) -> (r: Self)
        ensures
            r@ == self@,
        decreases self,
    {
        match self {
            Filter::And(fs) => Filter::And(copy_filters(fs)),
            Filter::Or(fs) => Filter::Or(copy_filters(fs)),
            Filter::Not(f) => {
                let inner: Filter = (&**f).clone();
                Filter::Not(Box::new(inner))
            },
            Filter::Eq(f, v) => Filter::Eq(f.clone(), v.clone()),
            Filter::Ne(f, v) => Filter::Ne(f.clone(), v.clone()),
            Filter::Gt(f, v) => Filter::Gt(f.clone(), v.clone()),
            Filter::Gte(f, v) => Filter::Gte(f.clone(), v.clone()),
            Filter::Lt(f, v) => Filter::Lt(f.clone(), v.clone()),
            Filter::Lte(f, v) => Filter::Lte(f.clone(), v.clone()),
            Filter::In(f, vs) => Filter::In(f.clone(), copy_items(vs)),
            Filter::Nin(f, vs) => Filter::Nin(f.clone(), copy_items(vs)),
            Filter::Exists(f) => Filter::Exists(f.clone()),
            Filter::IsNull(f) => Filter::IsNull(f.clone()),
            Filter::StartsWith(f, p) => Filter::StartsWith(f.clone(), p.as_str().to_owned()),
            Filter::Contains(f, v) => Filter::Contains(f.clone(), v.clone()),
        }
    }
}

fn copy_filters(fs: &Vec<Filter>) -> (r: Vec<Filter>)
    ensures
        filter_models(r@) == filter_models(fs@),
    decreases fs,
{
    let mut out: Vec<Filter> = Vec::new();
    let mut i: usize = 0;
    while i < fs.len()
        invariant
            i <= fs@.len(),
            filter_models(out@) == filter_models(fs@).take(i as int),
        decreases fs.len() - i,
    {
        let ghost before = out@;
        proof {
            lemma_filter_models_take(fs@, i as int);
        }
        let f: Filter = fs[i].clone();
        out.push(f);
        assert(out@.drop_last() =~= before);
        i += 1;
    }
    proof {
        lemma_filter_models(fs@);
        assert(filter_models(fs@).take(i as int) =~= filter_models(fs@));
    }
    out
}

} // verus!
