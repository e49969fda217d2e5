//! What holds of every filter.
use vstd::prelude::*;

use crate::bytes;
use crate::bytes::Order;
use crate::filter;
use crate::filter::eval;
use crate::filter::FilterModel;
use crate::format::value::ValueModel;
use crate::metadata;

verus! {

/// `Ne` is the exact negation of `Eq`, and `Nin` of `In`, whatever the field holds.
pub proof fn lemma_negated_comparisons(
    p: Seq<char>,
    v: ValueModel,
    vs: Seq<ValueModel>,
    m: Seq<(Seq<char>, ValueModel)>,
)
    ensures
        eval::satisfied(FilterModel::Ne(p, v), m) == !eval::satisfied(FilterModel::Eq(p, v), m),
        eval::satisfied(FilterModel::Nin(p, vs), m) == !eval::satisfied(FilterModel::In(p, vs), m),
{
}

/// An empty conjunction matches everything and an empty disjunction nothing; being one of no
/// values matches nothing, and being none of no values everything.
pub proof fn lemma_empty_combinators(p: Seq<char>, m: Seq<(Seq<char>, ValueModel)>)
    ensures
        eval::satisfied(FilterModel::And(Seq::empty()), m),
        !eval::satisfied(FilterModel::Or(Seq::empty()), m),
        !eval::satisfied(FilterModel::In(p, Seq::empty()), m),
        eval::satisfied(FilterModel::Nin(p, Seq::empty()), m),
{
    assert(eval::satisfied_all(Seq::empty(), m));
    assert(!eval::satisfied_any(Seq::empty(), m));
}

/// The negations of a list of filters.
pub open spec fn negations(fs: Seq<FilterModel>) -> Seq<FilterModel> {
    fs.map_values(|f: FilterModel| FilterModel::Not(Box::new(f)))
}

/// One more filter at the end of a list is one more to satisfy.
proof fn lemma_one_more(fs: Seq<FilterModel>, f: FilterModel, m: Seq<(Seq<char>, ValueModel)>)
    ensures
        eval::satisfied_all(fs.push(f), m) == (eval::satisfied_all(fs, m) && eval::satisfied(f, m)),
        eval::satisfied_any(fs.push(f), m) == (eval::satisfied_any(fs, m) || eval::satisfied(f, m)),
{
    assert(fs.push(f).drop_last() =~= fs);
}

/// De Morgan: the negation of a conjunction is the disjunction of the negations, and the
/// negation of a disjunction is the conjunction of the negations.
pub proof fn lemma_de_morgan(fs: Seq<FilterModel>, m: Seq<(Seq<char>, ValueModel)>)
    ensures
        eval::satisfied(FilterModel::Not(Box::new(FilterModel::And(fs))), m) == eval::satisfied(
            FilterModel::Or(negations(fs)),
            m,
        ),
        eval::satisfied(FilterModel::Not(Box::new(FilterModel::Or(fs))), m) == eval::satisfied(
            FilterModel::And(negations(fs)),
            m,
        ),
{
    lemma_negated_lists(fs, m);
    assert(eval::satisfied(FilterModel::And(fs), m) == eval::satisfied_all(fs, m));
    assert(eval::satisfied(FilterModel::Or(fs), m) == eval::satisfied_any(fs, m));
}

proof fn lemma_negated_lists(fs: Seq<FilterModel>, m: Seq<(Seq<char>, ValueModel)>)
    ensures
        eval::satisfied_any(negations(fs), m) == !eval::satisfied_all(fs, m),
        eval::satisfied_all(negations(fs), m) == !eval::satisfied_any(fs, m),
    decreases fs.len(),
{
    if fs.len() > 0 {
        let front = fs.drop_last();
        let f = FilterModel::Not(Box::new(fs.last()));
        lemma_negated_lists(front, m);
        assert(negations(fs) =~= negations(front).push(f));
        lemma_one_more(negations(front), f, m);
        assert(eval::satisfied(f, m) == !eval::satisfied(fs.last(), m));
    }
}

/// `and` requires both filters and `or` either of them, however the first was built.
pub proof fn lemma_combined(a: FilterModel, b: FilterModel, m: Seq<(Seq<char>, ValueModel)>)
    ensures
        eval::satisfied(filter::both(a, b), m) == (eval::satisfied(a, m) && eval::satisfied(b, m)),
        eval::satisfied(filter::either(a, b), m) == (eval::satisfied(a, m) || eval::satisfied(
            b,
            m,
        )),
{
    let none = Seq::<FilterModel>::empty();
    lemma_one_more(none, a, m);
    lemma_one_more(none.push(a), b, m);
    assert(none.push(a).push(b) =~= seq![a, b]);
    match a {
        FilterModel::And(fs) => {
            lemma_one_more(fs, b, m);
        },
        FilterModel::Or(fs) => {
            lemma_one_more(fs, b, m);
        },
        _ => {},
    }
}

/// A chain of `and` calls grows in width, not in depth: one more conjunct adds its own nodes,
/// and nests no deeper than it would directly below the root. The same holds of `or`.
pub proof fn lemma_chains_stay_flat(fs: Seq<FilterModel>, b: FilterModel)
    ensures
        filter::nodes_of(filter::both(FilterModel::And(fs), b)) == filter::nodes_of(
            FilterModel::And(fs),
        ) + filter::nodes_of(b),
        filter::depth_of(filter::both(FilterModel::And(fs), b)) == larger(
            filter::depth_of(FilterModel::And(fs)),
            1 + filter::depth_of(b),
        ),
        filter::nodes_of(filter::either(FilterModel::Or(fs), b)) == filter::nodes_of(
            FilterModel::Or(fs),
        ) + filter::nodes_of(b),
        filter::depth_of(filter::either(FilterModel::Or(fs), b)) == larger(
            filter::depth_of(FilterModel::Or(fs)),
            1 + filter::depth_of(b),
        ),
{
    let gs = fs.push(b);
    assert(gs.drop_last() =~= fs);
    assert(gs.last() == b);
    assert(filter::nodes_all(gs) == filter::nodes_all(fs) + filter::nodes_of(b));
    assert(filter::depth_all(gs) == larger(filter::depth_all(fs), filter::depth_of(b)));
}

/// The larger of two numbers.
pub open spec fn larger(a: nat, b: nat) -> nat {
    if a > b {
        a
    } else {
        b
    }
}

/// The order comparisons of one field and value, taken together: where an order is defined,
/// exactly one of `Lt` and `Gte` holds, and exactly one of `Gt` and `Lte`; where none is, all
/// four are false, so they are not negations of one another.
pub proof fn lemma_order_comparisons(
    p: Seq<char>,
    v: ValueModel,
    m: Seq<(Seq<char>, ValueModel)>,
)
    ensures
        ({
            let lt = eval::satisfied(FilterModel::Lt(p, v), m);
            let lte = eval::satisfied(FilterModel::Lte(p, v), m);
            let gt = eval::satisfied(FilterModel::Gt(p, v), m);
            let gte = eval::satisfied(FilterModel::Gte(p, v), m);
            if eval::field_order(metadata::field_value(m, p), v) is Some {
                lt == !gte && gt == !lte && !(lt && gt)
            } else {
                !lt && !lte && !gt && !gte
            }
        }),
{
    if let Some(o) = eval::field_order(metadata::field_value(m, p), v) {
        assert(o == Order::Less || o == Order::Equal || o == Order::Greater);
    }
}

/// Values of different kinds are never equal and never ordered, but for integers and floats.
pub proof fn lemma_mismatched_kinds(s: Seq<char>, x: i64, b: bool)
    ensures
        !eval::same_value(ValueModel::Str(s), ValueModel::I64(x)),
        !eval::same_value(ValueModel::I64(x), ValueModel::Str(s)),
        !eval::same_value(ValueModel::Bool(b), ValueModel::I64(x)),
        !eval::same_value(ValueModel::Str(s), ValueModel::Bool(b)),
        eval::value_order(ValueModel::Str(s), ValueModel::I64(x)) is None,
        eval::value_order(ValueModel::I64(x), ValueModel::Str(s)) is None,
        eval::value_order(ValueModel::Bool(b), ValueModel::I64(x)) is None,
        eval::value_order(ValueModel::Str(s), ValueModel::Bool(b)) is None,
{
}

/// A field that is not there equals null and nothing else, is null, is not present, has no
/// order, begins with nothing and contains nothing.
pub proof fn lemma_absent_field(
    p: Seq<char>,
    v: ValueModel,
    s: Seq<char>,
    m: Seq<(Seq<char>, ValueModel)>,
)
    requires
        metadata::field_value(m, p) is None,
    ensures
        eval::satisfied(FilterModel::Eq(p, v), m) == (v is Null),
        !eval::satisfied(FilterModel::Exists(p), m),
        eval::satisfied(FilterModel::IsNull(p), m),
        !eval::satisfied(FilterModel::Gt(p, v), m),
        !eval::satisfied(FilterModel::Gte(p, v), m),
        !eval::satisfied(FilterModel::Lt(p, v), m),
        !eval::satisfied(FilterModel::Lte(p, v), m),
        !eval::satisfied(FilterModel::StartsWith(p, s), m),
        !eval::satisfied(FilterModel::Contains(p, v), m),
{
}

/// Being one of a single value is being equal to it.
pub proof fn lemma_in_one(p: Seq<char>, v: ValueModel, m: Seq<(Seq<char>, ValueModel)>)
    ensures
        eval::satisfied(FilterModel::In(p, seq![v]), m) == eval::satisfied(
            FilterModel::Eq(p, v),
            m,
        ),
{
    assert(seq![v][0] == v);
}

/// Equality of values is symmetric.
pub proof fn lemma_same_value_symmetric(a: ValueModel, b: ValueModel)
    ensures
        eval::same_value(a, b) == eval::same_value(b, a),
    decreases a,
{
    match (a, b) {
        (ValueModel::Array(x), ValueModel::Array(y)) => {
            lemma_same_values_symmetric(x, y);
        },
        (ValueModel::Object(x), ValueModel::Object(y)) => {
            lemma_same_pairs_symmetric(x, y);
        },
        _ => {},
    }
}

proof fn lemma_same_values_symmetric(x: Seq<ValueModel>, y: Seq<ValueModel>)
    ensures
        eval::same_values(x, y) == eval::same_values(y, x),
    decreases x,
{
    if x.len() > 0 && y.len() > 0 {
        lemma_same_values_symmetric(x.drop_last(), y.drop_last());
        lemma_same_value_symmetric(x.last(), y.last());
    }
}

proof fn lemma_same_pairs_symmetric(
    x: Seq<(Seq<char>, ValueModel)>,
    y: Seq<(Seq<char>, ValueModel)>,
)
    ensures
        eval::same_pairs(x, y) == eval::same_pairs(y, x),
    decreases x,
{
    if x.len() > 0 && y.len() > 0 {
        lemma_same_pairs_symmetric(x.drop_last(), y.drop_last());
        lemma_same_value_symmetric(x.last().1, y.last().1);
    }
}

/// Where two values are ordered, they are equal exactly where neither comes first, and turning
/// them round turns the order round.
pub proof fn lemma_order_agrees_with_equality(a: ValueModel, b: ValueModel)
    requires
        eval::value_order(a, b) is Some,
    ensures
        eval::same_value(a, b) == (eval::value_order(a, b) == Some(Order::Equal)),
        (eval::value_order(a, b) == Some(Order::Less)) == (eval::value_order(b, a) == Some(
            Order::Greater,
        )),
{
    match (a, b) {
        (ValueModel::Str(x), ValueModel::Str(y)) => {
            bytes::lemma_utf8_injective(x, y);
            bytes::lemma_lex_total(vstd::utf8::encode_utf8(x), vstd::utf8::encode_utf8(y));
        },
        (ValueModel::Bytes(x), ValueModel::Bytes(y)) => {
            bytes::lemma_lex_total(x, y);
        },
        _ => {},
    }
}

} // verus!
