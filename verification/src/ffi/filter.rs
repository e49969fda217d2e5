//! Building a filter across the boundary.
//!
//! # Why a postfix builder
//!
//! A filter is a tree, and C has no good way to receive one. The obvious options are both bad: a
//! function per operator per value type is thirty-odd functions and still cannot nest, and an
//! encoded payload means every binding reimplements the encoding and one of them gets it wrong.
//!
//! So the builder is a stack. Leaves are pushed; a combinator pops several and pushes one. A few
//! functions express every filter the engine has, at any depth. The cost is that a malformed
//! sequence (combining more nodes than were pushed) is a runtime error rather than a compile-time
//! one, so the stack depth is checked on every operation and again at the end.
use vstd::prelude::*;

use crate::ffi::Boundary;
use crate::filter;
use crate::filter::{Filter, FilterModel};
use crate::format::value::{Value, ValueModel};

verus! {

/// The field equals the value.
pub const OP_EQ: i32 = 1;

/// The field does not equal the value.
pub const OP_NE: i32 = 2;

/// The field is greater than the value.
pub const OP_GT: i32 = 3;

/// The field is at least the value.
pub const OP_GTE: i32 = 4;

/// The field is less than the value.
pub const OP_LT: i32 = 5;

/// The field is at most the value.
pub const OP_LTE: i32 = 6;

/// The field starts with the text.
pub const OP_STARTS_WITH: i32 = 7;

/// The field is an array containing the value.
pub const OP_CONTAINS: i32 = 8;

/// The field is present.
pub const UNARY_EXISTS: i32 = 1;

/// The field is absent or null.
pub const UNARY_IS_NULL: i32 = 2;

/// Every operand must match.
pub const COMBINE_AND: i32 = 1;

/// At least one operand must match.
pub const COMBINE_OR: i32 = 2;

/// The operand must not match.
pub const COMBINE_NOT: i32 = 3;

/// The comparison that an operator makes, if there is one. A prefix test on a number is not a
/// coercion question, it is a mistake, and saying so is better than matching nothing forever.
pub open spec fn compared(field: Seq<char>, op: i32, value: ValueModel) -> Option<FilterModel> {
    if op == 1 {
        Some(FilterModel::Eq(field, value))
    } else if op == 2 {
        Some(FilterModel::Ne(field, value))
    } else if op == 3 {
        Some(FilterModel::Gt(field, value))
    } else if op == 4 {
        Some(FilterModel::Gte(field, value))
    } else if op == 5 {
        Some(FilterModel::Lt(field, value))
    } else if op == 6 {
        Some(FilterModel::Lte(field, value))
    } else if op == 7 {
        match value {
            ValueModel::Str(prefix) => Some(FilterModel::StartsWith(field, prefix)),
            _ => None,
        }
    } else if op == 8 {
        Some(FilterModel::Contains(field, value))
    } else {
        None
    }
}

/// The predicate that a discriminant makes, if there is one.
pub open spec fn tested(field: Seq<char>, predicate: i32) -> Option<FilterModel> {
    if predicate == 1 {
        Some(FilterModel::Exists(field))
    } else if predicate == 2 {
        Some(FilterModel::IsNull(field))
    } else {
        None
    }
}

/// The combination that a discriminant makes of operands, if there is one.
pub open spec fn combined(combinator: i32, operands: Seq<FilterModel>) -> Option<FilterModel> {
    if combinator == 1 {
        Some(FilterModel::And(operands))
    } else if combinator == 2 {
        Some(FilterModel::Or(operands))
    } else if combinator == 3 && operands.len() == 1 {
        Some(FilterModel::Not(Box::new(operands[0])))
    } else {
        None
    }
}

/// A filter under construction: a stack of partially-built expressions.
#[derive(Debug)]
pub struct VdbFilter {
    stack: Vec<Filter>,
}

impl View for VdbFilter {
    type V = Seq<FilterModel>;

    closed spec fn view(&self) -> Seq<FilterModel> {
        filter::filter_models(self.stack@)
    }
}

impl Default for VdbFilter {
    fn default() -> (r: Self)
        ensures
            r@ == Seq::<FilterModel>::empty(),
    {
        let r = VdbFilter { stack: Vec::new() };
        assert(r@ =~= Seq::<FilterModel>::empty());
        r
    }
}

impl VdbFilter {
    /// The finished filter, or `None` if the sequence did not build exactly one.
    pub fn finish(&self) -> (r: Option<&Filter>)
        ensures
            if self@.len() == 1 {
                r matches Some(f) && f@ == self@[0]
            } else {
                r is None
            },
    {
        proof {
            filter::lemma_filter_models(self.stack@);
        }
        if self.stack.len() == 1 {
            Some(&self.stack[0])
        } else {
            None
        }
    }

    /// How many expressions are on the stack. A finished filter has exactly one.
    pub fn depth(&self) -> (r: usize)
        ensures
            r == self@.len(),
    {
        proof {
            filter::lemma_filter_models(self.stack@);
        }
        self.stack.len()
    }

    fn push(&mut self, f: Filter)
        ensures
            final(self)@ == old(self)@.push(f@),
    {
        let ghost m = f@;
        let ghost before = self.stack@;
        self.stack.push(f);
        assert(self.stack@.drop_last() =~= before);
        assert(self@ == old(self)@.push(m));
    }

    /// Push a comparison.
    ///
    /// # Errors
    /// [`Boundary::InvalidArgument`] for an unknown operator, or a prefix that is no text.
    pub fn push_compare(&mut self, field: &str, op: i32, value: Value) -> (r: Result<
        (),
        Boundary,
    >)
        ensures
            match compared(field@, op, value@) {
                Some(f) => r is Ok && final(self)@ == old(self)@.push(f),
                None => r == Err::<(), Boundary>(Boundary::InvalidArgument) && final(self)@
                    == old(self)@,
            },
    {
        let built: Filter = if op == OP_EQ {
            Filter::eq(field, value)
        } else if op == OP_NE {
            Filter::ne(field, value)
        } else if op == OP_GT {
            Filter::gt(field, value)
        } else if op == OP_GTE {
            Filter::gte(field, value)
        } else if op == OP_LT {
            Filter::lt(field, value)
        } else if op == OP_LTE {
            Filter::lte(field, value)
        } else if op == OP_CONTAINS {
            Filter::contains(field, value)
        } else if op == OP_STARTS_WITH {
            match value {
                Value::Str(prefix) => Filter::starts_with(field, prefix.as_str()),
                _ => {
                    return Err(Boundary::InvalidArgument);
                },
            }
        } else {
            return Err(Boundary::InvalidArgument);
        };
        self.push(built);
        Ok(())
    }

    /// Push a unary predicate.
    ///
    /// # Errors
    /// [`Boundary::InvalidArgument`] for an unknown predicate.
    pub fn push_unary(&mut self, field: &str, predicate: i32) -> (r: Result<(), Boundary>)
        ensures
            match tested(field@, predicate) {
                Some(f) => r is Ok && final(self)@ == old(self)@.push(f),
                None => r == Err::<(), Boundary>(Boundary::InvalidArgument) && final(self)@
                    == old(self)@,
            },
    {
        let built: Filter = if predicate == UNARY_EXISTS {
            Filter::present(field)
        } else if predicate == UNARY_IS_NULL {
            Filter::is_null(field)
        } else {
            return Err(Boundary::InvalidArgument);
        };
        self.push(built);
        Ok(())
    }

    /// Pop `count` expressions and push their combination.
    ///
    /// A negation takes exactly one; the others take any number. Combining more than were pushed
    /// is refused rather than silently producing a smaller filter: a filter that quietly drops a
    /// clause returns documents the caller asked to exclude. An unknown combinator is refused
    /// too, once the operands have been popped.
    ///
    /// # Errors
    /// [`Boundary::InvalidArgument`] for any of these.
    pub fn combine(&mut self, combinator: i32, count: usize) -> (r: Result<(), Boundary>)
        ensures
            ({
                let n = old(self)@.len();
                if count == 0 || count > n || (combinator == 3 && count != 1) {
                    &&& r == Err::<(), Boundary>(Boundary::InvalidArgument)
                    &&& final(self)@ == old(self)@
                } else {
                    let kept = old(self)@.take(n - count);
                    match combined(combinator, old(self)@.skip(n - count)) {
                        Some(f) => r is Ok && final(self)@ == kept.push(f),
                        None => r == Err::<(), Boundary>(Boundary::InvalidArgument)
                            && final(self)@ == kept,
                    }
                }
            }),
    {
        proof {
            filter::lemma_filter_models(self.stack@);
        }
        if count == 0 || count > self.stack.len() {
            return Err(Boundary::InvalidArgument);
        }
        if combinator == COMBINE_NOT && count != 1 {
            return Err(Boundary::InvalidArgument);
        }
        let keep: usize = self.stack.len() - count;
        let ghost all = self@;
        let mut operands: Vec<Filter> = self.stack.split_off(keep);
        proof {
            filter::lemma_filter_models(self.stack@);
            filter::lemma_filter_models(operands@);
        }
        assert(self@ =~= all.take(keep as int));
        assert(filter::filter_models(operands@) =~= all.skip(keep as int));
        let built: Filter = if combinator == COMBINE_AND {
            Filter::all(operands)
        } else if combinator == COMBINE_OR {
            Filter::any(operands)
        } else if combinator == COMBINE_NOT {
            match operands.pop() {
                Some(only) => Filter::negate(only),
                None => {
                    return Err(Boundary::InvalidArgument);
                },
            }
        } else {
            return Err(Boundary::InvalidArgument);
        };
        self.push(built);
        Ok(())
    }
}

/// A balanced sequence builds exactly one filter: operands pushed onto an empty builder and then
/// combined leave one expression, which holds every one of them in order.
pub proof fn lemma_combining_everything(operands: Seq<FilterModel>)
    requires
        operands.len() > 0,
    ensures
        ({
            let n = operands.len();
            let kept = operands.take(n - operands.len());
            &&& kept.push(combined(1, operands.skip(n - operands.len()))->0) == seq![
                FilterModel::And(operands),
            ]
            &&& kept.push(combined(2, operands.skip(n - operands.len()))->0) == seq![
                FilterModel::Or(operands),
            ]
        }),
{
    assert(operands.take(0) =~= Seq::<FilterModel>::empty());
    assert(operands.skip(0) =~= operands);
}

/// What is asked for by number is asked: of an integer field and an integer, operators 1 to 6 are
/// equal, not equal, above, at least, below and at most, and no other number is an operator but 7, a
/// text's beginning, and 8, a list's item.
pub proof fn lemma_operators_by_number(
    field: Seq<char>,
    op: i32,
    x: i64,
    y: i64,
    m: Seq<(Seq<char>, ValueModel)>,
)
    requires
        crate::metadata::field_value(m, field) == Some(ValueModel::I64(x)),
    ensures
        compared(field, op, ValueModel::I64(y)) is Some <==> (1 <= op <= 6 || op == 8),
        compared(field, op, ValueModel::I64(y)) matches Some(f) ==> crate::filter::eval::satisfied(
            f,
            m,
        ) == if op == 1 {
            x == y
        } else if op == 2 {
            x != y
        } else if op == 3 {
            x > y
        } else if op == 4 {
            x >= y
        } else if op == 5 {
            x < y
        } else if op == 6 {
            x <= y
        } else {
            false
        },
{
    crate::filter::meaning::lemma_integers_compare(field, x, y, m);
    crate::filter::meaning::lemma_membership(field, ValueModel::I64(y), Seq::empty(), m);
}

/// Whatever the value is, an operator's number stands for the comparison of that field with it.
pub proof fn lemma_operators_keep_their_operands(field: Seq<char>, op: i32, v: ValueModel)
    ensures
        op == 1 ==> compared(field, op, v) == Some(FilterModel::Eq(field, v)),
        op == 2 ==> compared(field, op, v) == Some(FilterModel::Ne(field, v)),
        op == 3 ==> compared(field, op, v) == Some(FilterModel::Gt(field, v)),
        op == 4 ==> compared(field, op, v) == Some(FilterModel::Gte(field, v)),
        op == 5 ==> compared(field, op, v) == Some(FilterModel::Lt(field, v)),
        op == 6 ==> compared(field, op, v) == Some(FilterModel::Lte(field, v)),
        op == 7 && v is Str ==> compared(field, op, v) == Some(
            FilterModel::StartsWith(field, v->Str_0),
        ),
        op == 7 && !(v is Str) ==> compared(field, op, v) is None,
        op == 8 ==> compared(field, op, v) == Some(FilterModel::Contains(field, v)),
        op < 1 || op > 8 ==> compared(field, op, v) is None,
        tested(field, 1) == Some(FilterModel::Exists(field)),
        tested(field, 2) == Some(FilterModel::IsNull(field)),
        op < 1 || op > 2 ==> tested(field, op) is None,
{
}

/// What is combined by number: 1 asks for all of the operands, 2 for one of them at least, and 3 for
/// the opposite of the only one.
pub proof fn lemma_combinators_by_number(
    fs: Seq<FilterModel>,
    combinator: i32,
    m: Seq<(Seq<char>, ValueModel)>,
)
    ensures
        combined(combinator, fs) is Some <==> combinator == 1 || combinator == 2 || (combinator == 3
            && fs.len() == 1),
        combined(1, fs) matches Some(f) && crate::filter::eval::satisfied(f, m) == (forall|i: int|
            0 <= i < fs.len() ==> crate::filter::eval::satisfied(#[trigger] fs[i], m)),
        combined(2, fs) matches Some(f) && crate::filter::eval::satisfied(f, m) == (exists|i: int|
            0 <= i < fs.len() && crate::filter::eval::satisfied(#[trigger] fs[i], m)),
        fs.len() == 1 ==> combined(3, fs) is Some && crate::filter::eval::satisfied(
            combined(3, fs)->0,
            m,
        ) == !crate::filter::eval::satisfied(fs[0], m),
{
    crate::filter::meaning::lemma_connectives(fs, m);
}

} // verus!
