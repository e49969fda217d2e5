//! The metadata value model and its canonical encoding.
//!
//! # Canonical encoding
//!
//! One logical value has exactly one byte representation. Map keys are sorted, varints are
//! minimally encoded, and there is no redundant framing. Decoders enforce canonicality rather
//! than merely tolerating it: unsorted or duplicated map keys are an error.
//!
//! # Depth
//!
//! Decoding is recursive, so hostile input could otherwise nest deeply enough to overflow the
//! stack. Depth is therefore checked on the way *down*, before recursing, and capped at
//! [`MAX_VALUE_DEPTH`].
//!
//! ```text
//! tag  type      payload
//!   0  Null
//!   1  Bool      false
//!   2  Bool      true            (the value is in the tag: booleans cost one byte)
//!   3  I64       zigzag varint
//!   4  F64       8 bytes LE
//!   5  Str       varint len + UTF-8
//!   6  Bytes     varint len + raw
//!   7  Array     varint count + values
//!   8  Object    varint count + (string, value) pairs, keys strictly ascending
//! ```
use vstd::prelude::*;
use vstd::slice::slice_to_vec;
use vstd::utf8::*;

use crate::bytes;
use crate::bytes::Order;
use crate::count;
use crate::float;
use crate::format::cursor;
use crate::format::cursor::{Cursor, Reader, Writer};
use crate::format::error::{FormatError, MalformedKind};
use crate::format::le;
use crate::format::varint;

verus! {

/// Deepest permitted nesting of arrays and maps.
pub const MAX_VALUE_DEPTH: usize = 16;

const TAG_NULL: u8 = 0;

const TAG_FALSE: u8 = 1;

const TAG_TRUE: u8 = 2;

const TAG_I64: u8 = 3;

const TAG_F64: u8 = 4;

const TAG_STR: u8 = 5;

const TAG_BYTES: u8 = 6;

const TAG_ARRAY: u8 = 7;

pub(crate) const TAG_OBJECT: u8 = 8;

/// What a metadata value is, independent of how it is held in memory.
pub enum ValueModel {
    Null,
    Bool(bool),
    I64(i64),
    F64(u64),
    Str(Seq<char>),
    Bytes(Seq<u8>),
    Array(Seq<ValueModel>),
    Object(Seq<(Seq<char>, ValueModel)>),
}

/// A metadata value.
#[derive(Debug, PartialEq)]
pub enum Value {
    /// Absent or explicitly null.
    Null,
    /// A boolean.
    Bool(bool),
    /// A signed 64-bit integer.
    I64(i64),
    /// A 64-bit float, as its bits. NaN and infinities are not storable.
    F64(u64),
    /// A UTF-8 string.
    Str(String),
    /// Opaque bytes.
    Bytes(Vec<u8>),
    /// An ordered list.
    Array(Vec<Value>),
    /// A string-keyed map, kept sorted.
    Object(ValueMap),
}

/// A string-keyed map whose entries ascend by key, so that iteration order, and therefore the
/// encoded bytes, is a function of the logical value.
#[derive(Debug, PartialEq)]
pub struct ValueMap {
    entries: Vec<(String, Value)>,
}

impl Value {
    /// The value held.
    pub open spec fn model(self) -> ValueModel
        decreases self,
    {
        match self {
            Value::Null => ValueModel::Null,
            Value::Bool(b) => ValueModel::Bool(b),
            Value::I64(v) => ValueModel::I64(v),
            Value::F64(v) => ValueModel::F64(v),
            Value::Str(s) => ValueModel::Str(s@),
            Value::Bytes(b) => ValueModel::Bytes(b@),
            Value::Array(items) => ValueModel::Array(models(items@)),
            Value::Object(m) => ValueModel::Object(m.pairs()),
        }
    }
}

impl View for Value {
    type V = ValueModel;

    open spec fn view(&self) -> ValueModel {
        self.model()
    }
}

impl ValueMap {
    /// The keys and values held, in order.
    pub closed spec fn pairs(self) -> Seq<(Seq<char>, ValueModel)>
        decreases self,
    {
        pair_models(self.entries@)
    }

    #[verifier::type_invariant]
    spec fn sorted(self) -> bool {
        keys_ascend(self.pairs())
    }
}

impl View for ValueMap {
    type V = Seq<(Seq<char>, ValueModel)>;

    open spec fn view(&self) -> Seq<(Seq<char>, ValueModel)> {
        self.pairs()
    }
}

/// The values held by a list.
pub open spec fn models(items: Seq<Value>) -> Seq<ValueModel>
    decreases items,
{
    if items.len() == 0 {
        Seq::empty()
    } else {
        models(items.drop_last()).push(items.last().model())
    }
}

/// The keys and values held by a list of entries.
spec fn pair_models(entries: Seq<(String, Value)>) -> Seq<(Seq<char>, ValueModel)>
    decreases entries,
{
    if entries.len() == 0 {
        Seq::empty()
    } else {
        pair_models(entries.drop_last()).push((entries.last().0@, entries.last().1.model()))
    }
}

/// Whether `a` comes before `b` among map keys.
pub open spec fn key_lt(a: Seq<char>, b: Seq<char>) -> bool {
    bytes::lex_lt(encode_utf8(a), encode_utf8(b))
}

/// Whether keys are strictly ascending.
pub open spec fn keys_ascend(ps: Seq<(Seq<char>, ValueModel)>) -> bool {
    forall|i: int, j: int| 0 <= i < j < ps.len() ==> key_lt(#[trigger] ps[i].0, #[trigger] ps[j].0)
}

/// The encoding of a value.
pub open spec fn encoding(v: ValueModel) -> Seq<u8>
    decreases v,
{
    match v {
        ValueModel::Null => seq![0u8],
        ValueModel::Bool(b) => seq![if b {
            2u8
        } else {
            1u8
        }],
        ValueModel::I64(x) => seq![3u8] + cursor::varint_i64_bytes(x),
        ValueModel::F64(bits) => seq![4u8] + le::le(bits as nat, 8),
        ValueModel::Str(s) => seq![5u8] + cursor::string_bytes(s),
        ValueModel::Bytes(b) => seq![6u8] + cursor::blob_bytes(b),
        ValueModel::Array(xs) => seq![7u8] + varint::varint(xs.len()) + encoding_all(xs),
        ValueModel::Object(ps) => seq![8u8] + varint::varint(ps.len()) + encoding_pairs(ps),
    }
}

/// The encodings of a list of values, one after the other.
pub open spec fn encoding_all(xs: Seq<ValueModel>) -> Seq<u8>
    decreases xs,
{
    if xs.len() == 0 {
        Seq::empty()
    } else {
        encoding_all(xs.drop_last()) + encoding(xs.last())
    }
}

/// The encodings of a map's entries, one after the other.
pub open spec fn encoding_pairs(ps: Seq<(Seq<char>, ValueModel)>) -> Seq<u8>
    decreases ps,
{
    if ps.len() == 0 {
        Seq::empty()
    } else {
        encoding_pairs(ps.drop_last()) + (cursor::string_bytes(ps.last().0) + encoding(ps.last().1))
    }
}

/// Whether a value at depth `d` can be stored: every float finite, every map sorted, and nothing
/// nested too deeply.
pub open spec fn storable(v: ValueModel, d: nat) -> bool
    decreases v,
{
    &&& d <= MAX_VALUE_DEPTH
    &&& match v {
        ValueModel::F64(bits) => float::finite64(bits),
        ValueModel::Array(xs) => storable_all(xs, d + 1),
        ValueModel::Object(ps) => keys_ascend(ps) && storable_pairs(ps, d + 1),
        _ => true,
    }
}

/// Whether every value of a list at depth `d` can be stored.
pub open spec fn storable_all(xs: Seq<ValueModel>, d: nat) -> bool
    decreases xs,
{
    xs.len() == 0 || (storable_all(xs.drop_last(), d) && storable(xs.last(), d))
}

/// Whether every value of a map at depth `d` can be stored.
pub open spec fn storable_pairs(ps: Seq<(Seq<char>, ValueModel)>, d: nat) -> bool
    decreases ps,
{
    ps.len() == 0 || (storable_pairs(ps.drop_last(), d) && storable(ps.last().1, d))
}

/// How deeply a value nests. A scalar is depth 1.
pub open spec fn depth_of(v: ValueModel) -> nat
    decreases v,
{
    match v {
        ValueModel::Array(xs) => 1 + depth_all(xs),
        ValueModel::Object(ps) => 1 + depth_pairs(ps),
        _ => 1,
    }
}

/// The depth of the deepest value of a list, or 0 for an empty one.
pub open spec fn depth_all(xs: Seq<ValueModel>) -> nat
    decreases xs,
{
    if xs.len() == 0 {
        0
    } else if depth_of(xs.last()) > depth_all(xs.drop_last()) {
        depth_of(xs.last())
    } else {
        depth_all(xs.drop_last())
    }
}

/// The depth of the deepest value of a map, or 0 for an empty one.
pub open spec fn depth_pairs(ps: Seq<(Seq<char>, ValueModel)>) -> nat
    decreases ps,
{
    if ps.len() == 0 {
        0
    } else if depth_of(ps.last().1) > depth_pairs(ps.drop_last()) {
        depth_of(ps.last().1)
    } else {
        depth_pairs(ps.drop_last())
    }
}

/// The error for a value nested too deeply.
pub open spec fn too_deep(offset: u64) -> FormatError {
    FormatError::Malformed {
        offset,
        kind: MalformedKind::DepthExceeded { max: MAX_VALUE_DEPTH },
    }
}

/// What writing a value at depth `d` behind `at` bytes appends, or why it is refused: the first
/// offending value in the order they are written.
pub open spec fn written(v: ValueModel, d: nat, at: nat) -> Result<Seq<u8>, FormatError>
    decreases v,
{
    if d > MAX_VALUE_DEPTH {
        Err(too_deep(at as u64))
    } else {
        match v {
            ValueModel::F64(bits) => if float::finite64(bits) {
                Ok(encoding(v))
            } else {
                Err(
                    FormatError::Malformed {
                        offset: at as u64,
                        kind: MalformedKind::NonFiniteFloat,
                    },
                )
            },
            ValueModel::Array(xs) => {
                let head = seq![7u8] + varint::varint(xs.len());
                match written_all(xs, d + 1, at + head.len()) {
                    Ok(s) => Ok(head + s),
                    Err(e) => Err(e),
                }
            },
            ValueModel::Object(ps) => {
                let head = seq![8u8] + varint::varint(ps.len());
                match written_pairs(ps, d + 1, at + head.len()) {
                    Ok(s) => Ok(head + s),
                    Err(e) => Err(e),
                }
            },
            _ => Ok(encoding(v)),
        }
    }
}

/// What writing a list of values appends, or why it is refused.
pub open spec fn written_all(xs: Seq<ValueModel>, d: nat, at: nat) -> Result<Seq<u8>, FormatError>
    decreases xs,
{
    if xs.len() == 0 {
        Ok(Seq::empty())
    } else {
        match written_all(xs.drop_last(), d, at) {
            Ok(s) => match written(xs.last(), d, at + s.len()) {
                Ok(t) => Ok(s + t),
                Err(e) => Err(e),
            },
            Err(e) => Err(e),
        }
    }
}

/// What writing a map's entries appends, or why it is refused.
pub open spec fn written_pairs(ps: Seq<(Seq<char>, ValueModel)>, d: nat, at: nat) -> Result<
    Seq<u8>,
    FormatError,
>
    decreases ps,
{
    if ps.len() == 0 {
        Ok(Seq::empty())
    } else {
        match written_pairs(ps.drop_last(), d, at) {
            Ok(s) => {
                let key = cursor::string_bytes(ps.last().0);
                match written(ps.last().1, d, at + s.len() + key.len()) {
                    Ok(t) => Ok(s + (key + t)),
                    Err(e) => Err(e),
                }
            },
            Err(e) => Err(e),
        }
    }
}

/// What a write that is refused has appended by then.
pub open spec fn spilled(v: ValueModel, d: nat, at: nat) -> Seq<u8>
    decreases v,
{
    if d > MAX_VALUE_DEPTH {
        Seq::empty()
    } else {
        match v {
            ValueModel::Array(xs) => {
                let head = seq![7u8] + varint::varint(xs.len());
                head + spilled_all(xs, d + 1, at + head.len())
            },
            ValueModel::Object(ps) => {
                let head = seq![8u8] + varint::varint(ps.len());
                head + spilled_pairs(ps, d + 1, at + head.len())
            },
            _ => Seq::empty(),
        }
    }
}

/// What a write of a list of values that is refused has appended by then.
pub open spec fn spilled_all(xs: Seq<ValueModel>, d: nat, at: nat) -> Seq<u8>
    decreases xs,
{
    if xs.len() == 0 {
        Seq::empty()
    } else {
        match written_all(xs.drop_last(), d, at) {
            Ok(s) => s + spilled(xs.last(), d, at + s.len()),
            Err(_) => spilled_all(xs.drop_last(), d, at),
        }
    }
}

/// What a write of a map's entries that is refused has appended by then.
pub open spec fn spilled_pairs(ps: Seq<(Seq<char>, ValueModel)>, d: nat, at: nat) -> Seq<u8>
    decreases ps,
{
    if ps.len() == 0 {
        Seq::empty()
    } else {
        match written_pairs(ps.drop_last(), d, at) {
            Ok(s) => {
                let key = cursor::string_bytes(ps.last().0);
                s + (key + spilled(ps.last().1, d, at + s.len() + key.len()))
            },
            Err(_) => spilled_pairs(ps.drop_last(), d, at),
        }
    }
}

/// A container count, refused where the input could not possibly hold that many elements.
pub open spec fn bounded(claimed: u64, most: int, at: u64) -> Result<nat, FormatError> {
    if claimed > most {
        Err(FormatError::LengthExceedsInput { offset: at, claimed, available: most as u64 })
    } else {
        Ok(claimed as nat)
    }
}

/// Read a container count of elements that take at least `size` bytes each.
pub open spec fn counted(c: Cursor, size: int) -> Result<(nat, Cursor), FormatError> {
    match c.varint() {
        Ok((n, c1)) => match bounded(n, c1.left() / size, c.offset()) {
            Ok(k) => Ok((k, c1)),
            Err(e) => Err(e),
        },
        Err(e) => Err(e),
    }
}

/// The value at a cursor at depth `d`, or why there is none.
pub open spec fn parsed(c: Cursor, d: nat) -> Result<(ValueModel, Cursor), FormatError>
    decreases MAX_VALUE_DEPTH + 1 - d, 0nat,
{
    if d > MAX_VALUE_DEPTH {
        Err(too_deep(c.offset()))
    } else {
        match c.u8() {
            Ok((t, c1)) => if t == 0 {
                Ok((ValueModel::Null, c1))
            } else if t == 1 {
                Ok((ValueModel::Bool(false), c1))
            } else if t == 2 {
                Ok((ValueModel::Bool(true), c1))
            } else if t == 3 {
                match c1.varint_i64() {
                    Ok((v, c2)) => Ok((ValueModel::I64(v), c2)),
                    Err(e) => Err(e),
                }
            } else if t == 4 {
                match c1.float64() {
                    Ok((v, c2)) => Ok((ValueModel::F64(v), c2)),
                    Err(e) => Err(e),
                }
            } else if t == 5 {
                match c1.string() {
                    Ok((v, c2)) => Ok((ValueModel::Str(v), c2)),
                    Err(e) => Err(e),
                }
            } else if t == 6 {
                match c1.blob() {
                    Ok((v, c2)) => Ok((ValueModel::Bytes(v), c2)),
                    Err(e) => Err(e),
                }
            } else if t == 7 {
                match counted(c1, 1) {
                    Ok((n, c2)) => match parsed_all(c2, n, d + 1) {
                        Ok((xs, c3)) => Ok((ValueModel::Array(xs), c3)),
                        Err(e) => Err(e),
                    },
                    Err(e) => Err(e),
                }
            } else if t == 8 {
                match counted(c1, 2) {
                    Ok((n, c2)) => match parsed_pairs(c2, n, d + 1) {
                        Ok((ps, c3)) => Ok((ValueModel::Object(ps), c3)),
                        Err(e) => Err(e),
                    },
                    Err(e) => Err(e),
                }
            } else {
                Err(c.malformed(MalformedKind::UnknownValueTag(t)))
            },
            Err(e) => Err(e),
        }
    }
}

/// The `n` values at a cursor, or why there are not as many.
pub open spec fn parsed_all(c: Cursor, n: nat, d: nat) -> Result<
    (Seq<ValueModel>, Cursor),
    FormatError,
>
    decreases MAX_VALUE_DEPTH + 1 - d, n,
{
    if n == 0 {
        Ok((Seq::empty(), c))
    } else {
        match parsed_all(c, (n - 1) as nat, d) {
            Ok((xs, c1)) => match parsed(c1, d) {
                Ok((x, c2)) => Ok((xs.push(x), c2)),
                Err(e) => Err(e),
            },
            Err(e) => Err(e),
        }
    }
}

/// The key at a cursor, which must come after the last of `ps`.
pub open spec fn next_key(c: Cursor, ps: Seq<(Seq<char>, ValueModel)>) -> Result<
    (Seq<char>, Cursor),
    FormatError,
> {
    match c.string() {
        Ok((key, c1)) => if ps.len() == 0 || key_lt(ps.last().0, key) {
            Ok((key, c1))
        } else if key == ps.last().0 {
            Err(c.malformed(MalformedKind::DuplicateKey))
        } else {
            Err(c.malformed(MalformedKind::KeysNotSorted))
        },
        Err(e) => Err(e),
    }
}

/// The `n` entries at a cursor, or why there are not as many.
pub open spec fn parsed_pairs(c: Cursor, n: nat, d: nat) -> Result<
    (Seq<(Seq<char>, ValueModel)>, Cursor),
    FormatError,
>
    decreases MAX_VALUE_DEPTH + 1 - d, n,
{
    if n == 0 {
        Ok((Seq::empty(), c))
    } else {
        match parsed_pairs(c, (n - 1) as nat, d) {
            Ok((ps, c1)) => match next_key(c1, ps) {
                Ok((key, c2)) => match parsed(c2, d) {
                    Ok((x, c3)) => Ok((ps.push((key, x)), c3)),
                    Err(e) => Err(e),
                },
                Err(e) => Err(e),
            },
            Err(e) => Err(e),
        }
    }
}

/// Where a read of a container count that fails stands.
pub open spec fn count_halt(c: Cursor) -> Cursor {
    match c.varint() {
        Ok((_, c1)) => c1,
        Err(_) => c,
    }
}

/// Where a read of a key that fails stands.
pub open spec fn key_halt(c: Cursor) -> Cursor {
    match c.string() {
        Ok((_, c1)) => c1,
        Err(_) => c.string_halt(),
    }
}

/// Where a read of a value that fails stands.
pub open spec fn halted(c: Cursor, d: nat) -> Cursor
    decreases MAX_VALUE_DEPTH + 1 - d, 0nat,
{
    if d > MAX_VALUE_DEPTH {
        c
    } else {
        match c.u8() {
            Ok((t, c1)) => if t == 4 {
                c1.bytes_halt(8)
            } else if t == 5 {
                c1.string_halt()
            } else if t == 6 {
                c1.blob_halt()
            } else if t == 7 {
                match counted(c1, 1) {
                    Ok((n, c2)) => halted_all(c2, n, d + 1),
                    Err(_) => count_halt(c1),
                }
            } else if t == 8 {
                match counted(c1, 2) {
                    Ok((n, c2)) => halted_pairs(c2, n, d + 1),
                    Err(_) => count_halt(c1),
                }
            } else {
                c1
            },
            Err(_) => c,
        }
    }
}

/// Where a read of `n` values that fails stands.
pub open spec fn halted_all(c: Cursor, n: nat, d: nat) -> Cursor
    decreases MAX_VALUE_DEPTH + 1 - d, n,
{
    if n == 0 {
        c
    } else {
        match parsed_all(c, (n - 1) as nat, d) {
            Ok((_, c1)) => halted(c1, d),
            Err(_) => halted_all(c, (n - 1) as nat, d),
        }
    }
}

/// Where a read of `n` entries that fails stands.
pub open spec fn halted_pairs(c: Cursor, n: nat, d: nat) -> Cursor
    decreases MAX_VALUE_DEPTH + 1 - d, n,
{
    if n == 0 {
        c
    } else {
        match parsed_pairs(c, (n - 1) as nat, d) {
            Ok((ps, c1)) => match next_key(c1, ps) {
                Ok((_, c2)) => halted(c2, d),
                Err(_) => key_halt(c1),
            },
            Err(_) => halted_pairs(c, (n - 1) as nat, d),
        }
    }
}

/// The value that all of `b` encodes, or why there is none.
pub open spec fn decoded(b: Seq<u8>) -> Result<ValueModel, FormatError> {
    match parsed(Cursor { data: b, pos: 0, base: 0 }, 1) {
        Ok((v, c)) => match c.end("value") {
            Ok(()) => Ok(v),
            Err(e) => Err(e),
        },
        Err(e) => Err(e),
    }
}

/// The model of a list has the list's length and holds the model of each item.
pub proof fn lemma_models(items: Seq<Value>)
    ensures
        models(items).len() == items.len(),
        forall|i: int| 0 <= i < items.len() ==> #[trigger] models(items)[i] == items[i].model(),
    decreases items.len(),
{
    if items.len() > 0 {
        lemma_models(items.drop_last());
    }
}

proof fn lemma_pair_models(entries: Seq<(String, Value)>)
    ensures
        pair_models(entries).len() == entries.len(),
        forall|i: int|
            0 <= i < entries.len() ==> #[trigger] pair_models(entries)[i] == (
                entries[i].0@,
                entries[i].1.model(),
            ),
    decreases entries.len(),
{
    if entries.len() > 0 {
        lemma_pair_models(entries.drop_last());
    }
}

proof fn lemma_models_take(items: Seq<Value>, i: int)
    requires
        0 <= i < items.len(),
    ensures
        models(items.take(i + 1)) == models(items.take(i)).push(items[i].model()),
        models(items).take(i + 1).drop_last() == models(items).take(i),
        models(items).take(i) == models(items.take(i)),
{
    assert(items.take(i + 1).drop_last() =~= items.take(i));
    lemma_models(items);
    lemma_models(items.take(i));
    assert(models(items).take(i) =~= models(items.take(i)));
    assert(models(items).take(i + 1).drop_last() =~= models(items).take(i));
}

proof fn lemma_pair_models_take(entries: Seq<(String, Value)>, i: int)
    requires
        0 <= i < entries.len(),
    ensures
        pair_models(entries.take(i + 1)) == pair_models(entries.take(i)).push(
            (entries[i].0@, entries[i].1.model()),
        ),
        pair_models(entries).take(i + 1).drop_last() == pair_models(entries).take(i),
        pair_models(entries).take(i) == pair_models(entries.take(i)),
{
    assert(entries.take(i + 1).drop_last() =~= entries.take(i));
    lemma_pair_models(entries);
    lemma_pair_models(entries.take(i));
    assert(pair_models(entries).take(i) =~= pair_models(entries.take(i)));
    assert(pair_models(entries).take(i + 1).drop_last() =~= pair_models(entries).take(i));
}

/// Once an element cannot be written, neither can a longer list.
proof fn lemma_written_all_err(xs: Seq<ValueModel>, k: int, d: nat, at: nat)
    requires
        0 <= k <= xs.len(),
        written_all(xs.take(k), d, at) is Err,
    ensures
        written_all(xs, d, at) == written_all(xs.take(k), d, at),
        spilled_all(xs, d, at) == spilled_all(xs.take(k), d, at),
    decreases xs.len(),
{
    if k == xs.len() {
        assert(xs.take(k) =~= xs);
    } else {
        assert(xs.drop_last().take(k) =~= xs.take(k));
        lemma_written_all_err(xs.drop_last(), k, d, at);
    }
}

proof fn lemma_written_pairs_err(ps: Seq<(Seq<char>, ValueModel)>, k: int, d: nat, at: nat)
    requires
        0 <= k <= ps.len(),
        written_pairs(ps.take(k), d, at) is Err,
    ensures
        written_pairs(ps, d, at) == written_pairs(ps.take(k), d, at),
        spilled_pairs(ps, d, at) == spilled_pairs(ps.take(k), d, at),
    decreases ps.len(),
{
    if k == ps.len() {
        assert(ps.take(k) =~= ps);
    } else {
        assert(ps.drop_last().take(k) =~= ps.take(k));
        lemma_written_pairs_err(ps.drop_last(), k, d, at);
    }
}

/// Once an element cannot be read, neither can a longer list.
proof fn lemma_parsed_all_err(c: Cursor, k: nat, n: nat, d: nat)
    requires
        k <= n,
        parsed_all(c, k, d) is Err,
    ensures
        parsed_all(c, n, d) == parsed_all(c, k, d),
        halted_all(c, n, d) == halted_all(c, k, d),
    decreases n,
{
    if k < n {
        lemma_parsed_all_err(c, k, (n - 1) as nat, d);
    }
}

proof fn lemma_parsed_pairs_err(c: Cursor, k: nat, n: nat, d: nat)
    requires
        k <= n,
        parsed_pairs(c, k, d) is Err,
    ensures
        parsed_pairs(c, n, d) == parsed_pairs(c, k, d),
        halted_pairs(c, n, d) == halted_pairs(c, k, d),
    decreases n,
{
    if k < n {
        lemma_parsed_pairs_err(c, k, (n - 1) as nat, d);
    }
}

/// What writing did: the output grew by exactly what was expected, or the error is the expected
/// one and the output grew by what had been written by then.
pub open spec fn did_write(
    before: Seq<u8>,
    after: Seq<u8>,
    result: Result<(), FormatError>,
    expected: Result<Seq<u8>, FormatError>,
    refused: Seq<u8>,
) -> bool {
    match expected {
        Ok(s) => result == Ok::<(), FormatError>(()) && after == before + s,
        Err(e) => result == Err::<(), FormatError>(e) && after == before + refused,
    }
}

impl Value {
    /// A short, stable name for the variant, for error messages and filter type diagnostics.
    pub fn kind_name(&self) -> (r: &'static str)
        ensures
            r@ == (match *self {
                Value::Null => "null"@,
                Value::Bool(_) => "bool"@,
                Value::I64(_) => "i64"@,
                Value::F64(_) => "f64"@,
                Value::Str(_) => "string"@,
                Value::Bytes(_) => "bytes"@,
                Value::Array(_) => "array"@,
                Value::Object(_) => "map"@,
            }),
    {
        match self {
            Value::Null => "null",
            Value::Bool(_) => "bool",
            Value::I64(_) => "i64",
            Value::F64(_) => "f64",
            Value::Str(_) => "string",
            Value::Bytes(_) => "bytes",
            Value::Array(_) => "array",
            Value::Object(_) => "map",
        }
    }

    /// Encode to bytes.
    ///
    /// # Errors
    /// [`MalformedKind::NonFiniteFloat`] for a NaN or infinite `F64`, and
    /// [`MalformedKind::DepthExceeded`] beyond [`MAX_VALUE_DEPTH`]. Encoding is fallible so
    /// that encode and decode are exact inverses: anything this accepts, the decoder accepts.
    pub fn encode(&self) -> (r: Result<Vec<u8>, FormatError>)
        ensures
            match written(self@, 1, 0) {
                Ok(s) => r matches Ok(b) && b@ == s,
                Err(e) => r == Err::<Vec<u8>, FormatError>(e),
            },
            r is Ok ==> sorted_throughout(self@),
    {
        let mut w = Writer::new();
        match self.write_to(&mut w) {
            Ok(()) => {
                proof {
                    let s = written(self@, 1, 0)->Ok_0;
                    assert(Seq::<u8>::empty() + s =~= s);
                }
                Ok(w.finish())
            },
            Err(e) => Err(e),
        }
    }

    /// Append this value to a writer.
    ///
    /// # Errors
    /// As [`Value::encode`].
    pub fn write_to(&self, w: &mut Writer) -> (r: Result<(), FormatError>)
        ensures
            did_write(
                old(w)@,
                final(w)@,
                r,
                written(self@, 1, old(w)@.len()),
                spilled(self@, 1, old(w)@.len()),
            ),
            r is Ok ==> sorted_throughout(self@),
    {
        self.write_at_depth(w, 1)
    }

    fn write_at_depth(&self, w: &mut Writer, depth: usize) -> (r: Result<(), FormatError>)
        requires
            depth <= MAX_VALUE_DEPTH + 1,
        ensures
            did_write(
                old(w)@,
                final(w)@,
                r,
                written(self@, depth as nat, old(w)@.len()),
                spilled(self@, depth as nat, old(w)@.len()),
            ),
            r is Ok ==> sorted_throughout(self@),
        decreases MAX_VALUE_DEPTH + 1 - depth, 0int,
    {
        let at: u64 = w.len() as u64;
        let ghost before = w@;
        assert(before + Seq::<u8>::empty() =~= before);
        if depth > MAX_VALUE_DEPTH {
            return Err(
                FormatError::Malformed {
                    offset: at,
                    kind: MalformedKind::DepthExceeded { max: MAX_VALUE_DEPTH },
                },
            );
        }
        match self {
            Value::Null => {
                w.u8(TAG_NULL);
            },
            Value::Bool(false) => {
                w.u8(TAG_FALSE);
            },
            Value::Bool(true) => {
                w.u8(TAG_TRUE);
            },
            Value::I64(v) => {
                w.u8(TAG_I64);
                w.varint_i64(*v);
            },
            Value::F64(v) => {
                if !float::is_finite64(*v) {
                    return Err(
                        FormatError::Malformed { offset: at, kind: MalformedKind::NonFiniteFloat },
                    );
                }
                w.u8(TAG_F64);
                w.u64(*v);
            },
            Value::Str(s) => {
                w.u8(TAG_STR);
                w.string(s.as_str());
            },
            Value::Bytes(b) => {
                w.u8(TAG_BYTES);
                w.blob(b.as_slice());
            },
            Value::Array(items) => {
                w.u8(TAG_ARRAY);
                w.varint(items.len() as u64);
                let ghost head = seq![7u8] + varint::varint(items@.len());
                proof {
                    lemma_models(items@);
                    assert(w@ =~= before + head);
                }
                match write_items(items, w, depth + 1) {
                    Ok(()) => {
                        proof {
                            let s = written_all(
                                models(items@),
                                (depth + 1) as nat,
                                before.len() + head.len(),
                            )->Ok_0;
                            assert(before + head + s =~= before + (head + s));
                        }
                    },
                    Err(e) => {
                        proof {
                            let s = spilled_all(
                                models(items@),
                                (depth + 1) as nat,
                                before.len() + head.len(),
                            );
                            assert(before + head + s =~= before + (head + s));
                        }
                        return Err(e);
                    },
                }
            },
            Value::Object(m) => {
                w.u8(TAG_OBJECT);
                w.varint(m.entries.len() as u64);
                let ghost head = seq![8u8] + varint::varint(m.entries@.len());
                proof {
                    use_type_invariant(m);
                    lemma_pair_models(m.entries@);
                    assert(w@ =~= before + head);
                }
                match write_entries(&m.entries, w, depth + 1) {
                    Ok(()) => {
                        proof {
                            let s = written_pairs(
                                m@,
                                (depth + 1) as nat,
                                before.len() + head.len(),
                            )->Ok_0;
                            assert(before + head + s =~= before + (head + s));
                        }
                    },
                    Err(e) => {
                        proof {
                            let s = spilled_pairs(
                                m@,
                                (depth + 1) as nat,
                                before.len() + head.len(),
                            );
                            assert(before + head + s =~= before + (head + s));
                        }
                        return Err(e);
                    },
                }
            },
        }
        assert(w@ =~= before + written(self@, depth as nat, before.len())->Ok_0);
        Ok(())
    }
}

/// Whether every map in a value is sorted.
pub open spec fn sorted_throughout(v: ValueModel) -> bool
    decreases v,
{
    match v {
        ValueModel::Array(xs) => sorted_all(xs),
        ValueModel::Object(ps) => keys_ascend(ps) && sorted_pairs(ps),
        _ => true,
    }
}

/// Whether every map in a list of values is sorted.
pub open spec fn sorted_all(xs: Seq<ValueModel>) -> bool
    decreases xs,
{
    xs.len() == 0 || (sorted_all(xs.drop_last()) && sorted_throughout(xs.last()))
}

/// Whether every map in a map's values is sorted.
pub open spec fn sorted_pairs(ps: Seq<(Seq<char>, ValueModel)>) -> bool
    decreases ps,
{
    ps.len() == 0 || (sorted_pairs(ps.drop_last()) && sorted_throughout(ps.last().1))
}

fn write_items(items: &Vec<Value>, w: &mut Writer, depth: usize) -> (r: Result<(), FormatError>)
    requires
        depth <= MAX_VALUE_DEPTH + 1,
    ensures
        did_write(
            old(w)@,
            final(w)@,
            r,
            written_all(models(items@), depth as nat, old(w)@.len()),
            spilled_all(models(items@), depth as nat, old(w)@.len()),
        ),
        r is Ok ==> sorted_all(models(items@)),
    decreases MAX_VALUE_DEPTH + 1 - depth, 1int,
{
    let ghost before = w@;
    let ghost xs = models(items@);
    let mut i: usize = 0;
    proof {
        lemma_models(items@);
        assert(xs.take(0) =~= Seq::<ValueModel>::empty());
        assert(before + Seq::<u8>::empty() =~= before);
    }
    while i < items.len()
        invariant
            i <= items@.len(),
            depth <= MAX_VALUE_DEPTH + 1,
            before == old(w)@,
            xs == models(items@),
            xs.len() == items@.len(),
            sorted_all(xs.take(i as int)),
            written_all(xs.take(i as int), depth as nat, before.len()) is Ok,
            w@ == before + written_all(xs.take(i as int), depth as nat, before.len())->Ok_0,
        decreases items.len() - i,
    {
        let ghost sofar = w@;
        let ghost done = written_all(xs.take(i as int), depth as nat, before.len())->Ok_0;
        proof {
            lemma_models(items@);
            assert(xs.take(i + 1).drop_last() =~= xs.take(i as int));
            assert(xs.take(i + 1).last() == items@[i as int].model());
        }
        match items[i].write_at_depth(w, depth) {
            Ok(()) => {
                proof {
                    let t = written(xs[i as int], depth as nat, sofar.len())->Ok_0;
                    assert(before + done + t =~= before + (done + t));
                }
            },
            Err(e) => {
                proof {
                    lemma_written_all_err(xs, i + 1, depth as nat, before.len());
                    let t = spilled(xs[i as int], depth as nat, sofar.len());
                    assert(before + done + t =~= before + (done + t));
                }
                return Err(e);
            },
        }
        i += 1;
    }
    assert(xs.take(i as int) =~= xs);
    Ok(())
}

fn write_entries(entries: &Vec<(String, Value)>, w: &mut Writer, depth: usize) -> (r: Result<
    (),
    FormatError,
>)
    requires
        depth <= MAX_VALUE_DEPTH + 1,
    ensures
        did_write(
            old(w)@,
            final(w)@,
            r,
            written_pairs(pair_models(entries@), depth as nat, old(w)@.len()),
            spilled_pairs(pair_models(entries@), depth as nat, old(w)@.len()),
        ),
        r is Ok ==> sorted_pairs(pair_models(entries@)),
    decreases MAX_VALUE_DEPTH + 1 - depth, 1int,
{
    let ghost before = w@;
    let ghost ps = pair_models(entries@);
    let mut i: usize = 0;
    proof {
        lemma_pair_models(entries@);
        assert(ps.take(0) =~= Seq::<(Seq<char>, ValueModel)>::empty());
        assert(before + Seq::<u8>::empty() =~= before);
    }
    while i < entries.len()
        invariant
            i <= entries@.len(),
            depth <= MAX_VALUE_DEPTH + 1,
            before == old(w)@,
            ps == pair_models(entries@),
            ps.len() == entries@.len(),
            sorted_pairs(ps.take(i as int)),
            written_pairs(ps.take(i as int), depth as nat, before.len()) is Ok,
            w@ == before + written_pairs(ps.take(i as int), depth as nat, before.len())->Ok_0,
        decreases entries.len() - i,
    {
        let ghost sofar = w@;
        let ghost done = written_pairs(ps.take(i as int), depth as nat, before.len())->Ok_0;
        proof {
            lemma_pair_models(entries@);
            assert(ps.take(i + 1).drop_last() =~= ps.take(i as int));
            assert(ps.take(i + 1).last() == (entries@[i as int].0@, entries@[i as int].1.model()));
        }
        w.string(entries[i].0.as_str());
        let ghost key = cursor::string_bytes(ps[i as int].0);
        match entries[i].1.write_at_depth(w, depth) {
            Ok(()) => {
                proof {
                    let t = written(ps[i as int].1, depth as nat, (sofar + key).len())->Ok_0;
                    assert(before + done + key + t =~= before + (done + (key + t)));
                }
            },
            Err(e) => {
                proof {
                    lemma_written_pairs_err(ps, i + 1, depth as nat, before.len());
                    let t = spilled(ps[i as int].1, depth as nat, (sofar + key).len());
                    assert(before + done + key + t =~= before + (done + (key + t)));
                }
                return Err(e);
            },
        }
        i += 1;
    }
    assert(ps.take(i as int) =~= ps);
    Ok(())
}

/// What reading a value did: it returned what `expected` says and moved the reader there, or to
/// where it failed.
pub open spec fn did_parse(
    before: Cursor,
    after: Cursor,
    value: Result<Value, FormatError>,
    expected: Result<(ValueModel, Cursor), FormatError>,
    halt: Cursor,
) -> bool {
    &&& after.valid()
    &&& after.data == before.data
    &&& after.base == before.base
    &&& before.pos <= after.pos
    &&& match expected {
        Ok((m, c)) => value matches Ok(v) && v@ == m && after == c,
        Err(e) => value == Err::<Value, FormatError>(e) && after == halt,
    }
}

/// What moving past something did: the reader stands where `expected` says, or where it failed.
pub open spec fn did_skip<T>(
    before: Cursor,
    after: Cursor,
    result: Result<(), FormatError>,
    expected: Result<(T, Cursor), FormatError>,
    halt: Cursor,
) -> bool {
    &&& after.valid()
    &&& after.data == before.data
    &&& after.base == before.base
    &&& before.pos <= after.pos
    &&& match expected {
        Ok((_, c)) => result == Ok::<(), FormatError>(()) && after == c,
        Err(e) => result == Err::<(), FormatError>(e) && after == halt,
    }
}

/// Reject a container count that could not possibly be satisfied by the bytes left.
///
/// Without this, reserving room for an attacker-chosen count is an out-of-memory crash from a
/// handful of input bytes.
fn bounded_count(claimed: u64, max_possible: usize, at: u64) -> (r: Result<usize, FormatError>)
    ensures
        match bounded(claimed, max_possible as int, at) {
            Ok(n) => r == Ok::<usize, FormatError>(n as usize) && n <= max_possible,
            Err(e) => r == Err::<usize, FormatError>(e),
        },
{
    let available: u64 = max_possible as u64;
    if claimed > available {
        return Err(FormatError::LengthExceedsInput { offset: at, claimed, available });
    }
    Ok(claimed as usize)
}

/// Read a container count of elements that take at least `size` bytes each.
pub(crate) fn read_count(r: &mut Reader<'_>, size: usize) -> (res: Result<usize, FormatError>)
    requires
        old(r)@.valid(),
        size > 0,
    ensures
        final(r)@.valid(),
        final(r)@.data == old(r)@.data,
        final(r)@.base == old(r)@.base,
        old(r)@.pos <= final(r)@.pos,
        match counted(old(r)@, size as int) {
            Ok((n, c)) => res == Ok::<usize, FormatError>(n as usize) && n <= usize::MAX
                && final(r)@ == c,
            Err(e) => res == Err::<usize, FormatError>(e) && final(r)@ == count_halt(old(r)@),
        },
{
    let at: u64 = r.offset();
    let n: u64 = match r.varint() {
        Ok(n) => n,
        Err(e) => {
            return Err(e);
        },
    };
    bounded_count(n, r.remaining() / size, at)
}

impl Value {
    /// Decode a value from bytes, requiring the whole input to be consumed.
    ///
    /// # Errors
    /// Any [`FormatError`]; in particular [`MalformedKind::UnknownValueTag`],
    /// [`MalformedKind::KeysNotSorted`], [`MalformedKind::DuplicateKey`] and
    /// [`MalformedKind::DepthExceeded`].
    pub fn decode(bytes: &[u8]) -> (r: Result<Self, FormatError>)
        ensures
            match decoded(bytes@) {
                Ok(m) => r matches Ok(v) && v@ == m,
                Err(e) => r == Err::<Value, FormatError>(e),
            },
    {
        let mut r = Reader::new(bytes);
        let v = match Self::read_from(&mut r) {
            Ok(v) => v,
            Err(e) => {
                return Err(e);
            },
        };
        match r.expect_end("value") {
            Ok(()) => Ok(v),
            Err(e) => Err(e),
        }
    }

    /// Read one value from a reader, leaving anything after it.
    ///
    /// # Errors
    /// As [`Value::decode`].
    pub fn read_from(r: &mut Reader<'_>) -> (res: Result<Self, FormatError>)
        requires
            old(r)@.valid(),
        ensures
            did_parse(old(r)@, final(r)@, res, parsed(old(r)@, 1), halted(old(r)@, 1)),
    {
        Self::read_at_depth(r, 1)
    }

    fn read_at_depth(r: &mut Reader<'_>, depth: usize) -> (res: Result<Self, FormatError>)
        requires
            old(r)@.valid(),
            depth <= MAX_VALUE_DEPTH + 1,
        ensures
            did_parse(
                old(r)@,
                final(r)@,
                res,
                parsed(old(r)@, depth as nat),
                halted(old(r)@, depth as nat),
            ),
        decreases MAX_VALUE_DEPTH + 1 - depth, 0int,
    {
        let at: u64 = r.offset();
        // Checked before recursing, not after: the point is to never make the recursive call.
        if depth > MAX_VALUE_DEPTH {
            return Err(
                FormatError::Malformed {
                    offset: at,
                    kind: MalformedKind::DepthExceeded { max: MAX_VALUE_DEPTH },
                },
            );
        }
        let t: u8 = match r.u8() {
            Ok(t) => t,
            Err(e) => {
                return Err(e);
            },
        };
        if t == TAG_NULL {
            Ok(Value::Null)
        } else if t == TAG_FALSE {
            Ok(Value::Bool(false))
        } else if t == TAG_TRUE {
            Ok(Value::Bool(true))
        } else if t == TAG_I64 {
            match r.varint_i64() {
                Ok(v) => Ok(Value::I64(v)),
                Err(e) => Err(e),
            }
        } else if t == TAG_F64 {
            match r.float64() {
                Ok(v) => Ok(Value::F64(v)),
                Err(e) => Err(e),
            }
        } else if t == TAG_STR {
            match r.string() {
                Ok(s) => Ok(Value::Str(s.to_owned())),
                Err(e) => Err(e),
            }
        } else if t == TAG_BYTES {
            match r.blob() {
                Ok(b) => Ok(Value::Bytes(slice_to_vec(b))),
                Err(e) => Err(e),
            }
        } else if t == TAG_ARRAY {
            // One byte per element is the theoretical floor (a Null), so a count larger than
            // the bytes remaining cannot be honest.
            match read_count(r, 1) {
                Ok(n) => match read_items(r, n, depth + 1) {
                    Ok(items) => Ok(Value::Array(items)),
                    Err(e) => Err(e),
                },
                Err(e) => Err(e),
            }
        } else if t == TAG_OBJECT {
            // A pair is at minimum a one-byte key length, zero key bytes and a one-byte value
            // tag: two bytes.
            match read_count(r, 2) {
                Ok(n) => match read_entries(r, n, depth + 1) {
                    Ok(m) => Ok(Value::Object(m)),
                    Err(e) => Err(e),
                },
                Err(e) => Err(e),
            }
        } else {
            Err(FormatError::Malformed { offset: at, kind: MalformedKind::UnknownValueTag(t) })
        }
    }
}

fn read_items(r: &mut Reader<'_>, n: usize, depth: usize) -> (res: Result<Vec<Value>, FormatError>)
    requires
        old(r)@.valid(),
        depth <= MAX_VALUE_DEPTH + 1,
    ensures
        final(r)@.valid(),
        final(r)@.data == old(r)@.data,
        final(r)@.base == old(r)@.base,
        old(r)@.pos <= final(r)@.pos,
        match parsed_all(old(r)@, n as nat, depth as nat) {
            Ok((xs, c)) => res matches Ok(items) && models(items@) == xs && final(r)@ == c,
            Err(e) => res == Err::<Vec<Value>, FormatError>(e) && final(r)@ == halted_all(
                old(r)@,
                n as nat,
                depth as nat,
            ),
        },
    decreases MAX_VALUE_DEPTH + 1 - depth, 1int,
{
    let ghost start = r@;
    let mut items: Vec<Value> = Vec::new();
    let mut i: usize = 0;
    while i < n
        invariant
            i <= n,
            depth <= MAX_VALUE_DEPTH + 1,
            start == old(r)@,
            r@.valid(),
            r@.data == start.data,
            r@.base == start.base,
            start.pos <= r@.pos,
            parsed_all(start, i as nat, depth as nat) == Ok::<
                (Seq<ValueModel>, Cursor),
                FormatError,
            >((models(items@), r@)),
        decreases n - i,
    {
        let ghost before = items@;
        match Value::read_at_depth(r, depth) {
            Ok(v) => {
                items.push(v);
                assert(items@.drop_last() =~= before);
            },
            Err(e) => {
                proof {
                    lemma_parsed_all_err(start, (i + 1) as nat, n as nat, depth as nat);
                }
                return Err(e);
            },
        }
        i += 1;
    }
    Ok(items)
}

/// Adding a key after the last one keeps the keys ascending.
pub proof fn lemma_keys_push(ps: Seq<(Seq<char>, ValueModel)>, key: Seq<char>, x: ValueModel)
    requires
        keys_ascend(ps),
        ps.len() == 0 || key_lt(ps.last().0, key),
    ensures
        keys_ascend(ps.push((key, x))),
{
    let qs = ps.push((key, x));
    assert forall|i: int, j: int| 0 <= i < j < qs.len() implies key_lt(
        #[trigger] qs[i].0,
        #[trigger] qs[j].0,
    ) by {
        if j == ps.len() && i < ps.len() - 1 {
            assert(key_lt(ps[i].0, ps[ps.len() - 1].0));
            bytes::lemma_lex_transitive(
                encode_utf8(ps[i].0),
                encode_utf8(ps.last().0),
                encode_utf8(key),
            );
        }
    }
}

/// Read a key, which must come after the last of `entries`.
fn read_key<'a>(r: &mut Reader<'a>, entries: &Vec<(String, Value)>) -> (res: Result<
    &'a str,
    FormatError,
>)
    requires
        old(r)@.valid(),
    ensures
        final(r)@.valid(),
        final(r)@.data == old(r)@.data,
        final(r)@.base == old(r)@.base,
        old(r)@.pos <= final(r)@.pos,
        match next_key(old(r)@, pair_models(entries@)) {
            Ok((key, c)) => res matches Ok(k) && k@ == key && final(r)@ == c,
            Err(e) => res == Err::<&'a str, FormatError>(e) && final(r)@ == key_halt(old(r)@),
        },
{
    let at: u64 = r.offset();
    let key = match r.string() {
        Ok(k) => k,
        Err(e) => {
            return Err(e);
        },
    };
    proof {
        lemma_pair_models(entries@);
    }
    if entries.len() > 0 {
        let last = entries[entries.len() - 1].0.as_str();
        proof {
            bytes::lemma_lex_total(encode_utf8(last@), encode_utf8(key@));
        }
        match bytes::compare_str(key, last) {
            Order::Greater => {},
            Order::Equal => {
                return Err(
                    FormatError::Malformed { offset: at, kind: MalformedKind::DuplicateKey },
                );
            },
            Order::Less => {
                return Err(
                    FormatError::Malformed { offset: at, kind: MalformedKind::KeysNotSorted },
                );
            },
        }
    }
    Ok(key)
}

fn read_entries(r: &mut Reader<'_>, n: usize, depth: usize) -> (res: Result<ValueMap, FormatError>)
    requires
        old(r)@.valid(),
        depth <= MAX_VALUE_DEPTH + 1,
    ensures
        final(r)@.valid(),
        final(r)@.data == old(r)@.data,
        final(r)@.base == old(r)@.base,
        old(r)@.pos <= final(r)@.pos,
        match parsed_pairs(old(r)@, n as nat, depth as nat) {
            Ok((ps, c)) => res matches Ok(m) && m@ == ps && final(r)@ == c,
            Err(e) => res == Err::<ValueMap, FormatError>(e) && final(r)@ == halted_pairs(
                old(r)@,
                n as nat,
                depth as nat,
            ),
        },
    decreases MAX_VALUE_DEPTH + 1 - depth, 1int,
{
    let ghost start = r@;
    let mut entries: Vec<(String, Value)> = Vec::new();
    let mut i: usize = 0;
    while i < n
        invariant
            i <= n,
            depth <= MAX_VALUE_DEPTH + 1,
            start == old(r)@,
            r@.valid(),
            r@.data == start.data,
            r@.base == start.base,
            start.pos <= r@.pos,
            keys_ascend(pair_models(entries@)),
            parsed_pairs(start, i as nat, depth as nat) == Ok::<
                (Seq<(Seq<char>, ValueModel)>, Cursor),
                FormatError,
            >((pair_models(entries@), r@)),
        decreases n - i,
    {
        let ghost before = entries@;
        let key = match read_key(r, &entries) {
            Ok(k) => k,
            Err(e) => {
                proof {
                    lemma_parsed_pairs_err(start, (i + 1) as nat, n as nat, depth as nat);
                }
                return Err(e);
            },
        };
        match Value::read_at_depth(r, depth) {
            Ok(v) => {
                proof {
                    lemma_keys_push(pair_models(before), key@, v@);
                }
                entries.push((key.to_owned(), v));
                assert(entries@.drop_last() =~= before);
            },
            Err(e) => {
                proof {
                    lemma_parsed_pairs_err(start, (i + 1) as nat, n as nat, depth as nat);
                }
                return Err(e);
            },
        }
        i += 1;
    }
    Ok(ValueMap { entries })
}

/// Walk past one encoded value without materialising it.
///
/// The point of the whole lazy-lookup path: a filter that reads one field out of six should pay
/// for one.
///
/// # Errors
/// Any [`FormatError`], with the same strictness as a full decode: a value that cannot be
/// skipped is one that cannot be trusted.
pub fn skip_value(r: &mut Reader<'_>) -> (res: Result<(), FormatError>)
    requires
        old(r)@.valid(),
    ensures
        did_skip(old(r)@, final(r)@, res, parsed(old(r)@, 1), halted(old(r)@, 1)),
{
    skip_at_depth(r, 1)
}

fn skip_at_depth(r: &mut Reader<'_>, depth: usize) -> (res: Result<(), FormatError>)
    requires
        old(r)@.valid(),
        depth <= MAX_VALUE_DEPTH + 1,
    ensures
        did_skip(
            old(r)@,
            final(r)@,
            res,
            parsed(old(r)@, depth as nat),
            halted(old(r)@, depth as nat),
        ),
    decreases MAX_VALUE_DEPTH + 1 - depth, 0int,
{
    let at: u64 = r.offset();
    if depth > MAX_VALUE_DEPTH {
        return Err(
            FormatError::Malformed {
                offset: at,
                kind: MalformedKind::DepthExceeded { max: MAX_VALUE_DEPTH },
            },
        );
    }
    let t: u8 = match r.u8() {
        Ok(t) => t,
        Err(e) => {
            return Err(e);
        },
    };
    if t == TAG_NULL || t == TAG_FALSE || t == TAG_TRUE {
        Ok(())
    } else if t == TAG_I64 {
        match r.varint_i64() {
            Ok(_) => Ok(()),
            Err(e) => Err(e),
        }
    } else if t == TAG_F64 {
        match r.float64() {
            Ok(_) => Ok(()),
            Err(e) => Err(e),
        }
    } else if t == TAG_STR {
        match r.string() {
            Ok(_) => Ok(()),
            Err(e) => Err(e),
        }
    } else if t == TAG_BYTES {
        match r.blob() {
            Ok(_) => Ok(()),
            Err(e) => Err(e),
        }
    } else if t == TAG_ARRAY {
        match read_count(r, 1) {
            Ok(n) => skip_items(r, n, depth + 1),
            Err(e) => Err(e),
        }
    } else if t == TAG_OBJECT {
        match read_count(r, 2) {
            Ok(n) => skip_entries(r, n, depth + 1),
            Err(e) => Err(e),
        }
    } else {
        Err(FormatError::Malformed { offset: at, kind: MalformedKind::UnknownValueTag(t) })
    }
}

fn skip_items(r: &mut Reader<'_>, n: usize, depth: usize) -> (res: Result<(), FormatError>)
    requires
        old(r)@.valid(),
        depth <= MAX_VALUE_DEPTH + 1,
    ensures
        did_skip(
            old(r)@,
            final(r)@,
            res,
            parsed_all(old(r)@, n as nat, depth as nat),
            halted_all(old(r)@, n as nat, depth as nat),
        ),
    decreases MAX_VALUE_DEPTH + 1 - depth, 1int,
{
    let ghost start = r@;
    let mut i: usize = 0;
    while i < n
        invariant
            i <= n,
            depth <= MAX_VALUE_DEPTH + 1,
            start == old(r)@,
            did_skip(start, r@, Ok(()), parsed_all(start, i as nat, depth as nat), start),
        decreases n - i,
    {
        match skip_at_depth(r, depth) {
            Ok(()) => {},
            Err(e) => {
                proof {
                    lemma_parsed_all_err(start, (i + 1) as nat, n as nat, depth as nat);
                }
                return Err(e);
            },
        }
        i += 1;
    }
    Ok(())
}

fn skip_entries(r: &mut Reader<'_>, n: usize, depth: usize) -> (res: Result<(), FormatError>)
    requires
        old(r)@.valid(),
        depth <= MAX_VALUE_DEPTH + 1,
    ensures
        did_skip(
            old(r)@,
            final(r)@,
            res,
            parsed_pairs(old(r)@, n as nat, depth as nat),
            halted_pairs(old(r)@, n as nat, depth as nat),
        ),
    decreases MAX_VALUE_DEPTH + 1 - depth, 1int,
{
    let ghost start = r@;
    let mut previous: Option<&str> = None;
    let mut i: usize = 0;
    while i < n
        invariant
            i <= n,
            depth <= MAX_VALUE_DEPTH + 1,
            start == old(r)@,
            did_skip(start, r@, Ok(()), parsed_pairs(start, i as nat, depth as nat), start),
            match previous {
                Some(k) => i > 0 && parsed_pairs(start, i as nat, depth as nat)->Ok_0.0.len() > 0
                    && parsed_pairs(start, i as nat, depth as nat)->Ok_0.0.last().0 == k@,
                None => i == 0,
            },
        decreases n - i,
    {
        let at: u64 = r.offset();
        let ghost ps = parsed_pairs(start, i as nat, depth as nat)->Ok_0.0;
        proof {
            if next_key(r@, ps) is Err || parsed(next_key(r@, ps)->Ok_0.1, depth as nat) is Err {
                lemma_parsed_pairs_err(start, (i + 1) as nat, n as nat, depth as nat);
            }
        }
        let key = match r.string() {
            Ok(k) => k,
            Err(e) => {
                return Err(e);
            },
        };
        if let Some(last) = previous {
            proof {
                bytes::lemma_lex_total(encode_utf8(last@), encode_utf8(key@));
            }
            match bytes::compare_str(key, last) {
                Order::Greater => {},
                Order::Equal => {
                    return Err(
                        FormatError::Malformed { offset: at, kind: MalformedKind::DuplicateKey },
                    );
                },
                Order::Less => {
                    return Err(
                        FormatError::Malformed { offset: at, kind: MalformedKind::KeysNotSorted },
                    );
                },
            }
        }
        match skip_at_depth(r, depth) {
            Ok(()) => {},
            Err(e) => {
                return Err(e);
            },
        }
        previous = Some(key);
        i += 1;
    }
    Ok(())
}

/// The value stored under `key`, if there is one.
pub open spec fn value_of_key(ps: Seq<(Seq<char>, ValueModel)>, key: Seq<char>) -> Option<ValueModel> {
    if exists|i: int| 0 <= i < ps.len() && (#[trigger] ps[i]).0 == key {
        Some(ps[choose|i: int| 0 <= i < ps.len() && (#[trigger] ps[i]).0 == key].1)
    } else {
        None
    }
}

/// Among ascending keys, the value stored under a key is the one at its only position.
pub proof fn lemma_value_of_key(ps: Seq<(Seq<char>, ValueModel)>, i: int)
    requires
        keys_ascend(ps),
        0 <= i < ps.len(),
    ensures
        value_of_key(ps, ps[i].0) == Some(ps[i].1),
{
    let key = ps[i].0;
    let j = choose|j: int| 0 <= j < ps.len() && (#[trigger] ps[j]).0 == key;
    bytes::lemma_lex_total(encode_utf8(key), encode_utf8(key));
    if i < j {
        assert(key_lt(ps[i].0, ps[j].0));
    } else if j < i {
        assert(key_lt(ps[j].0, ps[i].0));
    }
}

impl ValueMap {
    /// An empty map.
    pub fn new() -> (r: Self)
        ensures
            r@.len() == 0,
    {
        let entries: Vec<(String, Value)> = Vec::new();
        ValueMap { entries }
    }

    /// How many entries there are. Their keys ascend.
    pub fn len(&self) -> (r: usize)
        ensures
            r == self@.len(),
            keys_ascend(self@),
    {
        proof {
            use_type_invariant(self);
            lemma_pair_models(self.entries@);
        }
        self.entries.len()
    }

    /// Whether there are no entries.
    pub fn is_empty(&self) -> (r: bool)
        ensures
            r == (self@.len() == 0),
    {
        self.len() == 0
    }

    /// The key of entry `i`, in ascending order.
    pub fn key_at(&self, i: usize) -> (r: &str)
        requires
            i < self@.len(),
        ensures
            r@ == self@[i as int].0,
    {
        proof {
            lemma_pair_models(self.entries@);
        }
        self.entries[i].0.as_str()
    }

    /// The value of entry `i`, in ascending order of keys.
    pub fn value_at(&self, i: usize) -> (r: &Value)
        requires
            i < self@.len(),
        ensures
            r@ == self@[i as int].1,
            decreases_to!(self => r),
    {
        proof {
            lemma_pair_models(self.entries@);
        }
        &self.entries[i].1
    }

    /// The first position whose key does not come before `key`.
    fn position(&self, key: &str) -> (r: usize)
        ensures
            r <= self@.len(),
            forall|j: int| 0 <= j < r ==> key_lt(#[trigger] self@[j].0, key@),
            forall|j: int| r <= j < self@.len() ==> !key_lt(#[trigger] self@[j].0, key@),
    {
        proof {
            use_type_invariant(self);
            lemma_pair_models(self.entries@);
        }
        let mut i: usize = 0;
        while i < self.entries.len()
            invariant
                i <= self@.len(),
                self@.len() == self.entries@.len(),
                keys_ascend(self@),
                self@ == pair_models(self.entries@),
                forall|j: int| 0 <= j < i ==> key_lt(#[trigger] self@[j].0, key@),
            decreases self.entries.len() - i,
        {
            proof {
                lemma_pair_models(self.entries@);
                bytes::lemma_lex_total(encode_utf8(self@[i as int].0), encode_utf8(key@));
            }
            match bytes::compare_str(self.entries[i].0.as_str(), key) {
                Order::Less => {},
                _ => {
                    proof {
                        assert forall|j: int| i <= j < self@.len() implies !key_lt(
                            #[trigger] self@[j].0,
                            key@,
                        ) by {
                            if i < j && key_lt(self@[j].0, key@) {
                                assert(key_lt(self@[i as int].0, self@[j].0));
                                bytes::lemma_lex_transitive(
                                    encode_utf8(self@[i as int].0),
                                    encode_utf8(self@[j].0),
                                    encode_utf8(key@),
                                );
                            }
                        }
                    }
                    return i;
                },
            }
            i += 1;
        }
        i
    }

    /// The value stored under `key`.
    pub fn get(&self, key: &str) -> (r: Option<&Value>)
        ensures
            match value_of_key(self@, key@) {
                Some(m) => r matches Some(v) && v@ == m,
                None => r is None,
            },
    {
        proof {
            use_type_invariant(self);
            lemma_pair_models(self.entries@);
        }
        let i: usize = self.position(key);
        if i < self.entries.len() && bytes::same_str(self.entries[i].0.as_str(), key) {
            proof {
                lemma_value_of_key(self@, i as int);
            }
            return Some(&self.entries[i].1);
        }
        proof {
            bytes::lemma_lex_total(encode_utf8(key@), encode_utf8(key@));
            assert forall|j: int| 0 <= j < self@.len() implies (#[trigger] self@[j]).0 != key@ by {
                if j > i && self@[j].0 == key@ {
                    assert(key_lt(self@[i as int].0, self@[j].0));
                }
            }
        }
        None
    }

    /// The value stored under the key whose UTF-8 bytes are `key`.
    pub fn get_bytes(&self, key: &[u8]) -> (r: Option<&Value>)
        ensures
            match r {
                Some(v) => exists|i: int|
                    0 <= i < self@.len() && encode_utf8((#[trigger] self@[i]).0) == key@
                        && self@[i].1 == v@,
                None => forall|i: int|
                    0 <= i < self@.len() ==> encode_utf8((#[trigger] self@[i]).0) != key@,
            },
            keys_ascend(self@),
    {
        proof {
            use_type_invariant(self);
            lemma_pair_models(self.entries@);
        }
        let mut i: usize = 0;
        while i < self.entries.len()
            invariant
                i <= self@.len(),
                self@.len() == self.entries@.len(),
                self@ == pair_models(self.entries@),
                keys_ascend(self@),
                forall|j: int| 0 <= j < i ==> encode_utf8((#[trigger] self@[j]).0) != key@,
            decreases self.entries.len() - i,
        {
            proof {
                lemma_pair_models(self.entries@);
            }
            if bytes::same_bytes(self.entries[i].0.as_str().as_bytes(), key) {
                assert(encode_utf8(self@[i as int].0) == key@);
                return Some(&self.entries[i].1);
            }
            i += 1;
        }
        None
    }

    /// Store `value` under `key`, replacing what was there.
    pub fn insert(&mut self, key: String, value: Value)
        ensures
            keys_ascend(final(self)@),
            forall|k: Seq<char>| #[trigger]
                value_of_key(final(self)@, k) == if k == key@ {
                    Some(value@)
                } else {
                    value_of_key(old(self)@, k)
                },
    {
        proof {
            use_type_invariant(&*self);
            lemma_pair_models(self.entries@);
        }
        let i: usize = self.position(key.as_str());
        let ghost ps = self@;
        let ghost (k0, v0) = (key@, value@);
        let mut entries: Vec<(String, Value)> = Vec::new();
        std::mem::swap(&mut entries, &mut self.entries);
        let ghost es = entries@;
        let replace: bool = i < entries.len() && bytes::same_str(
            entries[i].0.as_str(),
            key.as_str(),
        );
        if replace {
            entries[i] = (key, value);
        } else {
            entries.insert(i, (key, value));
        }
        proof {
            lemma_pair_models(es);
            lemma_pair_models(entries@);
            let qs = pair_models(entries@);
            if replace {
                assert(qs =~= ps.update(i as int, (k0, v0)));
            } else {
                assert(qs =~= ps.insert(i as int, (k0, v0)));
            }
            lemma_insert_sorted(ps, i as int, k0, v0, replace, qs);
        }
        self.entries = entries;
    }
}

proof fn lemma_insert_sorted(
    ps: Seq<(Seq<char>, ValueModel)>,
    i: int,
    key: Seq<char>,
    v: ValueModel,
    replace: bool,
    qs: Seq<(Seq<char>, ValueModel)>,
)
    requires
        keys_ascend(ps),
        0 <= i <= ps.len(),
        forall|j: int| 0 <= j < i ==> key_lt(#[trigger] ps[j].0, key),
        forall|j: int| i <= j < ps.len() ==> !key_lt(#[trigger] ps[j].0, key),
        replace == (i < ps.len() && ps[i].0 == key),
        qs == if replace {
            ps.update(i, (key, v))
        } else {
            ps.insert(i, (key, v))
        },
    ensures
        keys_ascend(qs),
        forall|k: Seq<char>| #[trigger]
            value_of_key(qs, k) == if k == key {
                Some(v)
            } else {
                value_of_key(ps, k)
            },
{
    assert forall|j: int| i <= j < ps.len() && !(replace && i == j) implies key_lt(
        key,
        #[trigger] ps[j].0,
    ) by {
        bytes::lemma_lex_total(encode_utf8(ps[j].0), encode_utf8(key));
        bytes::lemma_utf8_injective(ps[j].0, key);
        bytes::lemma_lex_total(encode_utf8(ps[i].0), encode_utf8(key));
        if ps[j].0 == key {
            assert(i < j);
            assert(key_lt(ps[i].0, ps[j].0));
        }
    }
    assert forall|a: int, b: int| 0 <= a < b < qs.len() implies key_lt(
        #[trigger] qs[a].0,
        #[trigger] qs[b].0,
    ) by {
        if replace {
            assert(qs[a].0 == ps[a].0 && qs[b].0 == ps[b].0);
        } else {
            let (x, y) = (if a > i {
                a - 1
            } else {
                a
            }, if b > i {
                b - 1
            } else {
                b
            });
            assert(a != i ==> qs[a] == ps[x]);
            assert(b != i ==> qs[b] == ps[y]);
        }
    }
    assert forall|k: Seq<char>| #[trigger]
        value_of_key(qs, k) == if k == key {
            Some(v)
        } else {
            value_of_key(ps, k)
        } by {
        if k == key {
            lemma_value_of_key(qs, i);
        } else if exists|j: int| 0 <= j < ps.len() && (#[trigger] ps[j]).0 == k {
            let j = choose|j: int| 0 <= j < ps.len() && (#[trigger] ps[j]).0 == k;
            lemma_value_of_key(ps, j);
            let y = if replace || j < i {
                j
            } else {
                j + 1
            };
            assert(qs[y] == ps[j]);
            lemma_value_of_key(qs, y);
        } else {
            assert forall|y: int| 0 <= y < qs.len() implies (#[trigger] qs[y]).0 != k by {
                if y != i {
                    let j = if replace || y < i {
                        y
                    } else {
                        y - 1
                    };
                    assert(qs[y] == ps[j]);
                }
            }
        }
    }
}

impl Clone for Value {
    fn clone(&self) -> (r: Self)
        ensures
            r@ == self@,
        decreases self,
    {
        match self {
            Value::Null => Value::Null,
            Value::Bool(b) => Value::Bool(*b),
            Value::I64(v) => Value::I64(*v),
            Value::F64(v) => Value::F64(*v),
            Value::Str(s) => Value::Str(s.as_str().to_owned()),
            Value::Bytes(b) => Value::Bytes(slice_to_vec(b.as_slice())),
            Value::Array(items) => Value::Array(copy_items(items)),
            Value::Object(m) => Value::Object(m.clone()),
        }
    }
}

impl Clone for ValueMap {
    fn clone(&self) -> (r: Self)
        ensures
            r@ == self@,
        decreases self,
    {
        proof {
            use_type_invariant(self);
        }
        let mut entries: Vec<(String, Value)> = Vec::new();
        let mut i: usize = 0;
        while i < self.entries.len()
            invariant
                i <= self.entries@.len(),
                pair_models(entries@) == pair_models(self.entries@.take(i as int)),
            decreases self.entries.len() - i,
        {
            let ghost before = entries@;
            proof {
                lemma_pair_models_take(self.entries@, i as int);
            }
            let value = self.entries[i].1.clone();
            entries.push((self.entries[i].0.as_str().to_owned(), value));
            assert(entries@.drop_last() =~= before);
            i += 1;
        }
        assert(self.entries@.take(i as int) =~= self.entries@);
        ValueMap { entries }
    }
}

/// A copy of a list of values.
pub fn copy_items(items: &Vec<Value>) -> (r: Vec<Value>)
    ensures
        models(r@) == models(items@),
    decreases items,
{
    let mut out: Vec<Value> = Vec::new();
    let mut i: usize = 0;
    while i < items.len()
        invariant
            i <= items@.len(),
            models(out@) == models(items@.take(i as int)),
        decreases items.len() - i,
    {
        let ghost before = out@;
        proof {
            lemma_models_take(items@, i as int);
        }
        let value = items[i].clone();
        out.push(value);
        assert(out@.drop_last() =~= before);
        i += 1;
    }
    assert(items@.take(i as int) =~= items@);
    out
}

impl Value {
    /// How deeply this value nests. A scalar is depth 1.
    pub fn depth(&self) -> (r: usize)
        ensures
            r == count::capped(depth_of(self@)),
        decreases self,
    {
        match self {
            Value::Array(items) => depth_of_items(items).saturating_add(1),
            Value::Object(m) => m.depth().saturating_add(1),
            _ => 1,
        }
    }
}

fn depth_of_items(items: &Vec<Value>) -> (r: usize)
    ensures
        r == count::capped(depth_all(models(items@))),
    decreases items,
{
    let mut deepest: usize = 0;
    let mut i: usize = 0;
    while i < items.len()
        invariant
            i <= items@.len(),
            deepest == count::capped(depth_all(models(items@).take(i as int))),
        decreases items.len() - i,
    {
        proof {
            lemma_models(items@);
            lemma_models_take(items@, i as int);
        }
        let d: usize = items[i].depth();
        if d > deepest {
            deepest = d;
        }
        i += 1;
    }
    proof {
        lemma_models(items@);
        assert(models(items@).take(i as int) =~= models(items@));
    }
    deepest
}

impl ValueMap {
    /// The depth of the deepest value, or 0 for an empty map.
    pub fn depth(&self) -> (r: usize)
        ensures
            r == count::capped(depth_pairs(self@)),
        decreases self,
    {
        let mut deepest: usize = 0;
        let mut i: usize = 0;
        while i < self.entries.len()
            invariant
                i <= self.entries@.len(),
                deepest == count::capped(depth_pairs(self@.take(i as int))),
            decreases self.entries.len() - i,
        {
            proof {
                lemma_pair_models(self.entries@);
                lemma_pair_models_take(self.entries@, i as int);
            }
            let d: usize = self.entries[i].1.depth();
            if d > deepest {
                deepest = d;
            }
            i += 1;
        }
        proof {
            lemma_pair_models(self.entries@);
            assert(self@.take(i as int) =~= self@);
        }
        deepest
    }
}

} // verus!
