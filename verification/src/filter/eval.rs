//! Filter evaluation, and the type rules that make it total.
//!
//! Every function here returns `bool`. None can fail: a filter's behaviour on unexpected data is
//! the part users actually hit, and the part that is easiest to leave undefined by accident.
use vstd::prelude::*;
use vstd::utf8::*;

use crate::bytes;
use crate::bytes::Order;
use crate::filter;
use crate::filter::{Field, Filter, FilterModel};
use crate::float;
use crate::format::value;
use crate::format::value::{Value, ValueMap, ValueModel};
use crate::metadata;
use crate::metadata::Metadata;

verus! {

/// Whether two values are equal.
///
/// Integers and floats compare numerically. Mismatched types are unequal rather than an error:
/// there is no useful sense in which a string might equal a number.
pub open spec fn same_value(a: ValueModel, b: ValueModel) -> bool
    decreases a,
{
    match (a, b) {
        (ValueModel::Null, ValueModel::Null) => true,
        (ValueModel::Bool(x), ValueModel::Bool(y)) => x == y,
        (ValueModel::I64(x), ValueModel::I64(y)) => x == y,
        (ValueModel::F64(x), ValueModel::F64(y)) => float::order64(x, y) == Some(Order::Equal),
        (ValueModel::I64(x), ValueModel::F64(y)) => float::order64(float::nearest64(x) as u64, y)
            == Some(Order::Equal),
        (ValueModel::F64(x), ValueModel::I64(y)) => float::order64(x, float::nearest64(y) as u64)
            == Some(Order::Equal),
        (ValueModel::Str(x), ValueModel::Str(y)) => x == y,
        (ValueModel::Bytes(x), ValueModel::Bytes(y)) => x == y,
        (ValueModel::Array(x), ValueModel::Array(y)) => same_values(x, y),
        (ValueModel::Object(x), ValueModel::Object(y)) => same_pairs(x, y),
        _ => false,
    }
}

/// Whether two lists are as long and equal value by value.
pub open spec fn same_values(x: Seq<ValueModel>, y: Seq<ValueModel>) -> bool
    decreases x,
{
    if x.len() == 0 || y.len() == 0 {
        x.len() == y.len()
    } else {
        same_values(x.drop_last(), y.drop_last()) && same_value(x.last(), y.last())
    }
}

/// Whether two maps have the same keys and equal values under them.
pub open spec fn same_pairs(
    x: Seq<(Seq<char>, ValueModel)>,
    y: Seq<(Seq<char>, ValueModel)>,
) -> bool
    decreases x,
{
    if x.len() == 0 || y.len() == 0 {
        x.len() == y.len()
    } else {
        same_pairs(x.drop_last(), y.drop_last()) && x.last().0 == y.last().0 && same_value(
            x.last().1,
            y.last().1,
        )
    }
}

/// How two values compare, where an order between them is defined.
///
/// Null, arrays and maps have no order anyone would agree on, so they have none here.
pub open spec fn value_order(a: ValueModel, b: ValueModel) -> Option<Order> {
    match (a, b) {
        (ValueModel::I64(x), ValueModel::I64(y)) => Some(int_order(x as int, y as int)),
        (ValueModel::F64(x), ValueModel::F64(y)) => float::order64(x, y),
        (ValueModel::I64(x), ValueModel::F64(y)) => float::order64(float::nearest64(x) as u64, y),
        (ValueModel::F64(x), ValueModel::I64(y)) => float::order64(x, float::nearest64(y) as u64),
        (ValueModel::Str(x), ValueModel::Str(y)) => Some(
            bytes::lex_order(encode_utf8(x), encode_utf8(y)),
        ),
        (ValueModel::Bool(x), ValueModel::Bool(y)) => Some(int_order(flag(x), flag(y))),
        (ValueModel::Bytes(x), ValueModel::Bytes(y)) => Some(bytes::lex_order(x, y)),
        _ => None,
    }
}

/// How two integers compare.
pub open spec fn int_order(x: int, y: int) -> Order {
    if x < y {
        Order::Less
    } else if x == y {
        Order::Equal
    } else {
        Order::Greater
    }
}

/// A boolean's place: `false` before `true`.
pub open spec fn flag(b: bool) -> int {
    if b {
        1
    } else {
        0
    }
}

/// Whether a resolved field equals a filter's value. An absent field equals null.
pub open spec fn equals_value(actual: Option<ValueModel>, expected: ValueModel) -> bool {
    match actual {
        None => expected is Null,
        Some(a) => same_value(a, expected),
    }
}

/// Whether a resolved field equals any of a filter's values.
pub open spec fn equals_any(actual: Option<ValueModel>, values: Seq<ValueModel>) -> bool {
    exists|i: int| 0 <= i < values.len() && equals_value(actual, #[trigger] values[i])
}

/// How a resolved field compares with a filter's value, where it does.
pub open spec fn field_order(actual: Option<ValueModel>, expected: ValueModel) -> Option<Order> {
    match actual {
        None => None,
        Some(a) => value_order(a, expected),
    }
}

/// Whether one text begins with another, byte by byte.
pub open spec fn begins_with(text: Seq<char>, prefix: Seq<char>) -> bool {
    encode_utf8(prefix).is_prefix_of(encode_utf8(text))
}

/// Whether there is an order, and it is `Greater`.
pub open spec fn is_greater(o: Option<Order>) -> bool {
    o == Some(Order::Greater)
}

/// Whether there is an order, and it is not `Less`.
pub open spec fn is_not_less(o: Option<Order>) -> bool {
    o == Some(Order::Greater) || o == Some(Order::Equal)
}

/// Whether there is an order, and it is `Less`.
pub open spec fn is_less(o: Option<Order>) -> bool {
    o == Some(Order::Less)
}

/// Whether there is an order, and it is not `Greater`.
pub open spec fn is_not_greater(o: Option<Order>) -> bool {
    o == Some(Order::Less) || o == Some(Order::Equal)
}

/// Whether a field is absent, or present and null.
pub open spec fn absent_or_null(actual: Option<ValueModel>) -> bool {
    match actual {
        None => true,
        Some(v) => v is Null,
    }
}

/// Whether a field is a string that begins with `prefix`.
pub open spec fn field_begins_with(actual: Option<ValueModel>, prefix: Seq<char>) -> bool {
    match actual {
        Some(ValueModel::Str(s)) => begins_with(s, prefix),
        _ => false,
    }
}

/// Whether a field is an array that holds a value equal to `v`.
pub open spec fn field_contains(actual: Option<ValueModel>, v: ValueModel) -> bool {
    match actual {
        Some(ValueModel::Array(xs)) => holds_value(xs, v),
        _ => false,
    }
}

/// Whether a list holds a value equal to `v`.
pub open spec fn holds_value(xs: Seq<ValueModel>, v: ValueModel) -> bool {
    exists|i: int| 0 <= i < xs.len() && same_value(#[trigger] xs[i], v)
}

/// What a resolved field holds.
pub open spec fn option_value(v: Option<&Value>) -> Option<ValueModel> {
    match v {
        Some(v) => Some(v@),
        None => None,
    }
}

/// Whether a document's metadata satisfies a filter.
pub open spec fn satisfied(f: FilterModel, m: Seq<(Seq<char>, ValueModel)>) -> bool
    decreases f,
{
    match f {
        FilterModel::And(fs) => satisfied_all(fs, m),
        FilterModel::Or(fs) => satisfied_any(fs, m),
        FilterModel::Not(f) => !satisfied(*f, m),
        FilterModel::Eq(p, v) => equals_value(metadata::field_value(m, p), v),
        FilterModel::Ne(p, v) => !equals_value(metadata::field_value(m, p), v),
        FilterModel::Gt(p, v) => is_greater(field_order(metadata::field_value(m, p), v)),
        FilterModel::Gte(p, v) => is_not_less(field_order(metadata::field_value(m, p), v)),
        FilterModel::Lt(p, v) => is_less(field_order(metadata::field_value(m, p), v)),
        FilterModel::Lte(p, v) => is_not_greater(field_order(metadata::field_value(m, p), v)),
        FilterModel::In(p, vs) => equals_any(metadata::field_value(m, p), vs),
        FilterModel::Nin(p, vs) => !equals_any(metadata::field_value(m, p), vs),
        FilterModel::Exists(p) => metadata::field_value(m, p) is Some,
        FilterModel::IsNull(p) => absent_or_null(metadata::field_value(m, p)),
        FilterModel::StartsWith(p, prefix) => field_begins_with(
            metadata::field_value(m, p),
            prefix,
        ),
        FilterModel::Contains(p, v) => field_contains(metadata::field_value(m, p), v),
    }
}

/// Whether metadata satisfies every filter of a list.
pub open spec fn satisfied_all(fs: Seq<FilterModel>, m: Seq<(Seq<char>, ValueModel)>) -> bool
    decreases fs,
{
    fs.len() == 0 || (satisfied_all(fs.drop_last(), m) && satisfied(fs.last(), m))
}

/// Whether metadata satisfies some filter of a list.
pub open spec fn satisfied_any(fs: Seq<FilterModel>, m: Seq<(Seq<char>, ValueModel)>) -> bool
    decreases fs,
{
    fs.len() > 0 && (satisfied_any(fs.drop_last(), m) || satisfied(fs.last(), m))
}

/// Every filter of a list that is satisfied as a whole is satisfied.
pub proof fn lemma_satisfied_all(fs: Seq<FilterModel>, m: Seq<(Seq<char>, ValueModel)>)
    ensures
        satisfied_all(fs, m) == (forall|i: int|
            0 <= i < fs.len() ==> satisfied(#[trigger] fs[i], m)),
    decreases fs.len(),
{
    if fs.len() > 0 {
        lemma_satisfied_all(fs.drop_last(), m);
        if satisfied_all(fs, m) {
            assert forall|i: int| 0 <= i < fs.len() implies satisfied(#[trigger] fs[i], m) by {
                if i < fs.len() - 1 {
                    assert(fs.drop_last()[i] == fs[i]);
                }
            }
        } else if satisfied(fs.last(), m) {
            let i = choose|i: int|
                0 <= i < fs.drop_last().len() && !satisfied(#[trigger] fs.drop_last()[i], m);
            assert(fs[i] == fs.drop_last()[i]);
        } else {
            assert(!satisfied(fs[fs.len() - 1], m));
        }
    }
}

/// A list of which some filter is satisfied has such a filter in it.
pub proof fn lemma_satisfied_any(fs: Seq<FilterModel>, m: Seq<(Seq<char>, ValueModel)>)
    ensures
        satisfied_any(fs, m) == (exists|i: int|
            0 <= i < fs.len() && satisfied(#[trigger] fs[i], m)),
    decreases fs.len(),
{
    if fs.len() > 0 {
        let front = fs.drop_last();
        lemma_satisfied_any(front, m);
        if satisfied(fs.last(), m) {
            assert(satisfied(fs[fs.len() - 1], m));
        } else if satisfied_any(front, m) {
            let i = choose|i: int| 0 <= i < front.len() && satisfied(#[trigger] front[i], m);
            assert(satisfied(fs[i], m));
        } else if exists|i: int| 0 <= i < fs.len() && satisfied(#[trigger] fs[i], m) {
            let i = choose|i: int| 0 <= i < fs.len() && satisfied(#[trigger] fs[i], m);
            assert(front[i] == fs[i]);
        }
    }
}

pub proof fn lemma_same_values(x: Seq<ValueModel>, y: Seq<ValueModel>)
    ensures
        same_values(x, y) == (x.len() == y.len() && forall|i: int|
            0 <= i < x.len() ==> same_value(#[trigger] x[i], y[i])),
    decreases x.len(),
{
    if x.len() > 0 && y.len() > 0 {
        let (p, q) = (x.drop_last(), y.drop_last());
        lemma_same_values(p, q);
        if x.len() == y.len() {
            if same_values(x, y) {
                assert forall|i: int| 0 <= i < x.len() implies same_value(#[trigger] x[i], y[i]) by {
                    if i < p.len() {
                        assert(same_value(p[i], q[i]));
                    }
                }
            } else if same_value(x.last(), y.last()) {
                let i = choose|i: int| 0 <= i < p.len() && !same_value(#[trigger] p[i], q[i]);
                assert(!same_value(x[i], y[i]));
            } else {
                assert(!same_value(x[x.len() - 1], y[x.len() - 1]));
            }
        }
    }
}

proof fn lemma_same_pairs(x: Seq<(Seq<char>, ValueModel)>, y: Seq<(Seq<char>, ValueModel)>)
    ensures
        same_pairs(x, y) == (x.len() == y.len() && forall|i: int|
            0 <= i < x.len() ==> (#[trigger] x[i]).0 == y[i].0 && same_value(x[i].1, y[i].1)),
    decreases x.len(),
{
    if x.len() > 0 && y.len() > 0 {
        let (p, q) = (x.drop_last(), y.drop_last());
        lemma_same_pairs(p, q);
        let last = x.len() - 1;
        if x.len() == y.len() {
            if same_pairs(x, y) {
                assert forall|i: int| 0 <= i < x.len() implies (#[trigger] x[i]).0 == y[i].0
                    && same_value(x[i].1, y[i].1) by {
                    if i < p.len() {
                        assert(p[i].0 == q[i].0 && same_value(p[i].1, q[i].1));
                    }
                }
            } else if x.last().0 == y.last().0 && same_value(x.last().1, y.last().1) {
                let i = choose|i: int|
                    0 <= i < p.len() && !((#[trigger] p[i]).0 == q[i].0 && same_value(
                        p[i].1,
                        q[i].1,
                    ));
                assert(!(x[i].0 == y[i].0 && same_value(x[i].1, y[i].1)));
            } else {
                assert(!(x[last].0 == y[last].0 && same_value(x[last].1, y[last].1)));
            }
        }
    }
}

/// Whether a document's metadata satisfies a filter.
pub fn matches(filter: &Filter, metadata: &Metadata) -> (r: bool)
    ensures
        r == satisfied(filter@, metadata@),
    decreases filter,
{
    match filter {
        Filter::And(children) => all_match(children, metadata),
        Filter::Or(children) => any_match(children, metadata),
        Filter::Not(child) => !matches(child, metadata),
        Filter::Eq(field, value) => equals(resolve(metadata, field), value),
        Filter::Ne(field, value) => !equals(resolve(metadata, field), value),
        Filter::Gt(field, value) => greater(ordered(metadata, field, value)),
        Filter::Gte(field, value) => not_less(ordered(metadata, field, value)),
        Filter::Lt(field, value) => less(ordered(metadata, field, value)),
        Filter::Lte(field, value) => not_greater(ordered(metadata, field, value)),
        Filter::In(field, values) => any_equals(resolve(metadata, field), values),
        Filter::Nin(field, values) => !any_equals(resolve(metadata, field), values),
        Filter::Exists(field) => resolve(metadata, field).is_some(),
        Filter::IsNull(field) => missing(resolve(metadata, field)),
        Filter::StartsWith(field, prefix) => value_begins_with(
            resolve(metadata, field),
            prefix.as_str(),
        ),
        Filter::Contains(field, value) => value_contains(resolve(metadata, field), value),
    }
}

fn greater(o: Option<Order>) -> (r: bool)
    ensures
        r == is_greater(o),
{
    match o {
        Some(Order::Greater) => true,
        _ => false,
    }
}

fn not_less(o: Option<Order>) -> (r: bool)
    ensures
        r == is_not_less(o),
{
    match o {
        Some(Order::Greater) => true,
        Some(Order::Equal) => true,
        _ => false,
    }
}

fn less(o: Option<Order>) -> (r: bool)
    ensures
        r == is_less(o),
{
    match o {
        Some(Order::Less) => true,
        _ => false,
    }
}

fn not_greater(o: Option<Order>) -> (r: bool)
    ensures
        r == is_not_greater(o),
{
    match o {
        Some(Order::Less) => true,
        Some(Order::Equal) => true,
        _ => false,
    }
}

fn missing(actual: Option<&Value>) -> (r: bool)
    ensures
        r == absent_or_null(option_value(actual)),
{
    match actual {
        None => true,
        Some(v) => match v {
            Value::Null => true,
            _ => false,
        },
    }
}

fn value_begins_with(actual: Option<&Value>, prefix: &str) -> (r: bool)
    ensures
        r == field_begins_with(option_value(actual), prefix@),
{
    match actual {
        Some(v) => match v {
            Value::Str(s) => text_begins_with(s.as_str(), prefix),
            _ => false,
        },
        None => false,
    }
}

fn value_contains(actual: Option<&Value>, value: &Value) -> (r: bool)
    ensures
        r == field_contains(option_value(actual), value@),
{
    match actual {
        Some(v) => match v {
            Value::Array(items) => any_same(items, value),
            _ => false,
        },
        None => false,
    }
}

fn all_match(children: &Vec<Filter>, metadata: &Metadata) -> (r: bool)
    ensures
        r == satisfied_all(filter::filter_models(children@), metadata@),
    decreases children,
{
    proof {
        filter::lemma_filter_models(children@);
        lemma_satisfied_all(filter::filter_models(children@), metadata@);
    }
    let ghost fs = filter::filter_models(children@);
    let mut i: usize = 0;
    while i < children.len()
        invariant
            i <= children@.len(),
            fs.len() == children@.len(),
            forall|j: int| 0 <= j < fs.len() ==> #[trigger] fs[j] == children@[j]@,
            fs == filter::filter_models(children@),
            satisfied_all(fs, metadata@) == (forall|j: int|
                0 <= j < fs.len() ==> satisfied(#[trigger] fs[j], metadata@)),
            forall|j: int| 0 <= j < i ==> satisfied(#[trigger] fs[j], metadata@),
        decreases children.len() - i,
    {
        assert(fs[i as int] == children@[i as int]@);
        if !matches(&children[i], metadata) {
            return false;
        }
        i += 1;
    }
    true
}

fn any_match(children: &Vec<Filter>, metadata: &Metadata) -> (r: bool)
    ensures
        r == satisfied_any(filter::filter_models(children@), metadata@),
    decreases children,
{
    proof {
        filter::lemma_filter_models(children@);
        lemma_satisfied_any(filter::filter_models(children@), metadata@);
    }
    let ghost fs = filter::filter_models(children@);
    let mut i: usize = 0;
    while i < children.len()
        invariant
            i <= children@.len(),
            fs.len() == children@.len(),
            forall|j: int| 0 <= j < fs.len() ==> #[trigger] fs[j] == children@[j]@,
            fs == filter::filter_models(children@),
            satisfied_any(fs, metadata@) == (exists|j: int|
                0 <= j < fs.len() && satisfied(#[trigger] fs[j], metadata@)),
            forall|j: int| 0 <= j < i ==> !satisfied(#[trigger] fs[j], metadata@),
        decreases children.len() - i,
    {
        assert(fs[i as int] == children@[i as int]@);
        if matches(&children[i], metadata) {
            return true;
        }
        i += 1;
    }
    false
}

/// Look a field up, `None` meaning the path does not resolve.
fn resolve<'a>(metadata: &'a Metadata, field: &Field) -> (r: Option<&'a Value>)
    ensures
        option_value(r) == metadata::field_value(metadata@, field@),
{
    metadata.get_path(field.as_str())
}

/// Equality between a resolved field and a filter's value.
fn equals(actual: Option<&Value>, expected: &Value) -> (r: bool)
    ensures
        r == equals_value(
            option_value(actual),
            expected@,
        ),
{
    match actual {
        Some(a) => same(a, expected),
        None => match expected {
            Value::Null => true,
            _ => false,
        },
    }
}

fn any_equals(actual: Option<&Value>, values: &Vec<Value>) -> (r: bool)
    ensures
        r == equals_any(
            option_value(actual),
            value::models(values@),
        ),
{
    let ghost a = option_value(actual);
    let ghost vs = value::models(values@);
    proof {
        value::lemma_models(values@);
    }
    let mut i: usize = 0;
    while i < values.len()
        invariant
            i <= values@.len(),
            vs == value::models(values@),
            vs.len() == values@.len(),
            forall|j: int| 0 <= j < vs.len() ==> #[trigger] vs[j] == values@[j]@,
            a == option_value(actual),
            forall|j: int| 0 <= j < i ==> !equals_value(a, #[trigger] vs[j]),
        decreases values.len() - i,
    {
        assert(vs[i as int] == values@[i as int]@);
        if equals(actual, &values[i]) {
            return true;
        }
        i += 1;
    }
    false
}

fn any_same(items: &Vec<Value>, value: &Value) -> (r: bool)
    ensures
        r == holds_value(value::models(items@), value@),
{
    let ghost xs = value::models(items@);
    proof {
        value::lemma_models(items@);
    }
    let mut i: usize = 0;
    while i < items.len()
        invariant
            i <= items@.len(),
            xs == value::models(items@),
            xs.len() == items@.len(),
            forall|j: int| 0 <= j < xs.len() ==> #[trigger] xs[j] == items@[j]@,
            forall|j: int| 0 <= j < i ==> !same_value(#[trigger] xs[j], value@),
        decreases items.len() - i,
    {
        assert(xs[i as int] == items@[i as int]@);
        if same(&items[i], value) {
            return true;
        }
        i += 1;
    }
    false
}

fn text_begins_with(text: &str, prefix: &str) -> (r: bool)
    ensures
        r == begins_with(text@, prefix@),
{
    let t = text.as_bytes();
    let p = prefix.as_bytes();
    if p.len() > t.len() {
        return false;
    }
    let mut i: usize = 0;
    while i < p.len()
        invariant
            i <= p@.len() <= t@.len(),
            t@ == encode_utf8(text@),
            p@ == encode_utf8(prefix@),
            forall|j: int| 0 <= j < i ==> #[trigger] p@[j] == t@[j],
        decreases p.len() - i,
    {
        if p[i] != t[i] {
            assert(t@.subrange(0, p@.len() as int)[i as int] == t@[i as int]);
            return false;
        }
        i += 1;
    }
    assert(p@ =~= t@.subrange(0, p@.len() as int));
    true
}

/// Equality between two values.
fn same(a: &Value, b: &Value) -> (r: bool)
    ensures
        r == same_value(a@, b@),
    decreases a,
{
    match (a, b) {
        (Value::Null, Value::Null) => true,
        (Value::Bool(x), Value::Bool(y)) => *x == *y,
        (Value::I64(x), Value::I64(y)) => *x == *y,
        (Value::F64(x), Value::F64(y)) => is_equal(float::compare64(*x, *y)),
        (Value::I64(x), Value::F64(y)) => is_equal(float::compare64(float::nearest_to(*x), *y)),
        (Value::F64(x), Value::I64(y)) => is_equal(float::compare64(*x, float::nearest_to(*y))),
        (Value::Str(x), Value::Str(y)) => bytes::same_str(x.as_str(), y.as_str()),
        (Value::Bytes(x), Value::Bytes(y)) => bytes::same_bytes(x.as_slice(), y.as_slice()),
        (Value::Array(x), Value::Array(y)) => same_items(x, y),
        (Value::Object(x), Value::Object(y)) => same_maps(x, y),
        _ => false,
    }
}

fn is_equal(o: Option<Order>) -> (r: bool)
    ensures
        r == (o == Some(Order::Equal)),
{
    match o {
        Some(Order::Equal) => true,
        _ => false,
    }
}

fn same_items(x: &Vec<Value>, y: &Vec<Value>) -> (r: bool)
    ensures
        r == same_values(value::models(x@), value::models(y@)),
    decreases x,
{
    let ghost xs = value::models(x@);
    let ghost ys = value::models(y@);
    proof {
        value::lemma_models(x@);
        value::lemma_models(y@);
        lemma_same_values(xs, ys);
    }
    if x.len() != y.len() {
        return false;
    }
    let mut i: usize = 0;
    while i < x.len()
        invariant
            i <= x@.len() == y@.len(),
            xs == value::models(x@),
            ys == value::models(y@),
            xs.len() == ys.len() == x@.len(),
            forall|j: int| 0 <= j < xs.len() ==> #[trigger] xs[j] == x@[j]@,
            forall|j: int| 0 <= j < ys.len() ==> #[trigger] ys[j] == y@[j]@,
            same_values(xs, ys) == (xs.len() == ys.len() && forall|j: int|
                0 <= j < xs.len() ==> same_value(#[trigger] xs[j], ys[j])),
            forall|j: int| 0 <= j < i ==> same_value(#[trigger] xs[j], ys[j]),
        decreases x.len() - i,
    {
        assert(xs[i as int] == x@[i as int]@);
        assert(ys[i as int] == y@[i as int]@);
        if !same(&x[i], &y[i]) {
            return false;
        }
        i += 1;
    }
    true
}

fn same_maps(x: &ValueMap, y: &ValueMap) -> (r: bool)
    ensures
        r == same_pairs(x@, y@),
    decreases x,
{
    proof {
        lemma_same_pairs(x@, y@);
    }
    if x.len() != y.len() {
        return false;
    }
    let n: usize = x.len();
    let mut i: usize = 0;
    while i < n
        invariant
            i <= n,
            n == x@.len() == y@.len(),
            same_pairs(x@, y@) == (x@.len() == y@.len() && forall|j: int|
                0 <= j < x@.len() ==> (#[trigger] x@[j]).0 == y@[j].0 && same_value(
                    x@[j].1,
                    y@[j].1,
                )),
            forall|j: int|
                0 <= j < i ==> (#[trigger] x@[j]).0 == y@[j].0 && same_value(x@[j].1, y@[j].1),
        decreases n - i,
    {
        if !bytes::same_str(x.key_at(i), y.key_at(i)) {
            assert(x@[i as int].0 != y@[i as int].0);
            return false;
        }
        if !same(x.value_at(i), y.value_at(i)) {
            assert(!same_value(x@[i as int].1, y@[i as int].1));
            return false;
        }
        i += 1;
    }
    true
}

/// How a field compares with a value. An absent field, a type mismatch, or a type with no
/// natural order: nothing.
fn ordered(metadata: &Metadata, field: &Field, expected: &Value) -> (r: Option<Order>)
    ensures
        r == field_order(metadata::field_value(metadata@, field@), expected@),
{
    match resolve(metadata, field) {
        Some(actual) => compare(actual, expected),
        None => None,
    }
}

/// Order two values, `None` where no order is defined.
fn compare(a: &Value, b: &Value) -> (r: Option<Order>)
    ensures
        r == value_order(a@, b@),
{
    match (a, b) {
        (Value::I64(x), Value::I64(y)) => Some(
            if *x < *y {
                Order::Less
            } else if *x == *y {
                Order::Equal
            } else {
                Order::Greater
            },
        ),
        (Value::F64(x), Value::F64(y)) => float::compare64(*x, *y),
        (Value::I64(x), Value::F64(y)) => float::compare64(float::nearest_to(*x), *y),
        (Value::F64(x), Value::I64(y)) => float::compare64(*x, float::nearest_to(*y)),
        (Value::Str(x), Value::Str(y)) => Some(bytes::compare_str(x.as_str(), y.as_str())),
        (Value::Bool(x), Value::Bool(y)) => Some(
            if *x == *y {
                Order::Equal
            } else if *x {
                Order::Greater
            } else {
                Order::Less
            },
        ),
        (Value::Bytes(x), Value::Bytes(y)) => Some(
            bytes::compare_bytes(x.as_slice(), y.as_slice()),
        ),
        _ => None,
    }
}

} // verus!
