//! A document's metadata: a map from field names to values.
use vstd::prelude::*;
use vstd::slice::slice_subrange;
use vstd::utf8::*;

use crate::count;
use crate::error;
use crate::error::convert;
use crate::error::convert::from_format;
use crate::error::{DbError, ErrorModel, ValidationError, ValidationModel};
use crate::format::error::{FormatError, MalformedKind};
use crate::format::lookup;
use crate::format::lookup::segment_end;
use crate::format::value;
use crate::format::value::{Value, ValueMap, ValueModel, MAX_VALUE_DEPTH};
use crate::path;
use crate::validation::MAX_METADATA_BYTES;

verus! {

/// A document's metadata.
#[derive(Debug, PartialEq)]
pub struct Metadata {
    map: ValueMap,
}

impl View for Metadata {
    type V = Seq<(Seq<char>, ValueModel)>;

    closed spec fn view(&self) -> Seq<(Seq<char>, ValueModel)> {
        self.map@
    }
}

/// What an optional piece of metadata holds.
pub open spec fn option_metadata(m: Option<Metadata>) -> Option<Seq<(Seq<char>, ValueModel)>> {
    match m {
        Some(m) => Some(m@),
        None => None,
    }
}

/// The value at a dotted path. An empty path names nothing.
#[verifier::opaque]
pub open spec fn field_value(m: Seq<(Seq<char>, ValueModel)>, path: Seq<char>) -> Option<
    ValueModel,
> {
    if path.len() == 0 {
        None
    } else {
        lookup::value_at_path(ValueModel::Object(m), encode_utf8(path))
    }
}

/// What encoding metadata gives: the canonical bytes of the map.
pub open spec fn encoded(m: Seq<(Seq<char>, ValueModel)>) -> Result<Seq<u8>, FormatError> {
    value::written(ValueModel::Object(m), 1, 0)
}

/// Why metadata is refused, if it is.
pub open spec fn refused(m: Seq<(Seq<char>, ValueModel)>) -> Option<ErrorModel> {
    if value::depth_of(ValueModel::Object(m)) > MAX_VALUE_DEPTH {
        Some(
            ErrorModel::Validation(
                ValidationModel::MetadataDepthExceeded {
                    depth: count::capped(value::depth_of(ValueModel::Object(m))),
                    max: MAX_VALUE_DEPTH,
                },
            ),
        )
    } else {
        match encoded(m) {
            Err(e) => Some(convert::reported(e, path::root_text())),
            Ok(b) => if b.len() > MAX_METADATA_BYTES {
                Some(
                    ErrorModel::Validation(
                        ValidationModel::MetadataTooLarge {
                            field: "<document>"@,
                            size: b.len() as usize,
                            max: MAX_METADATA_BYTES,
                        },
                    ),
                )
            } else {
                None
            },
        }
    }
}

impl Metadata {
    /// No fields.
    pub fn new() -> (r: Self)
        ensures
            r@.len() == 0,
    {
        Metadata { map: ValueMap::new() }
    }

    /// Set a field, replacing what was there.
    pub fn insert(&mut self, key: &str, value: Value)
        ensures
            value::keys_ascend(final(self)@),
            forall|k: Seq<char>| #[trigger]
                value::value_of_key(final(self)@, k) == if k == key@ {
                    Some(value@)
                } else {
                    value::value_of_key(old(self)@, k)
                },
    {
        self.map.insert(key.to_owned(), value);
    }

    /// A top-level field.
    pub fn get(&self, key: &str) -> (r: Option<&Value>)
        ensures
            match value::value_of_key(self@, key@) {
                Some(m) => r matches Some(v) && v@ == m,
                None => r is None,
            },
    {
        self.map.get(key)
    }

    /// The value at a dotted path, each segment naming a key of the map reached so far.
    pub fn get_path(&self, path: &str) -> (r: Option<&Value>)
        ensures
            match field_value(self@, path@) {
                Some(m) => r matches Some(v) && v@ == m,
                None => r is None,
            },
    {
        proof {
            reveal(field_value);
        }
        if path.is_empty() {
            return None;
        }
        let p = path.as_bytes();
        let mut map: &ValueMap = &self.map;
        let mut start: usize = 0;
        let ghost whole = lookup::value_at_path(ValueModel::Object(self@), p@);
        assert(p@.skip(0) =~= p@);
        loop
            invariant
                start <= p@.len(),
                path@.len() != 0,
                whole == lookup::value_at_path(ValueModel::Object(self@), encode_utf8(path@)),
                whole == lookup::value_at_path(ValueModel::Object(map@), p@.skip(start as int)),
            decreases p.len() - start,
        {
            let end: usize = segment_end(p, start);
            let seg = slice_subrange(p, start, end);
            proof {
                reveal(field_value);
                let q = p@.skip(start as int);
                assert(q.take(lookup::segment_len(q) as int) =~= seg@);
                if end < p@.len() {
                    assert(q.skip(lookup::segment_len(q) as int + 1) =~= p@.skip(end + 1));
                }
            }
            let found = map.get_bytes(seg);
            proof {
                if let Some(v) = found {
                    let i = choose|i: int|
                        0 <= i < map@.len() && encode_utf8((#[trigger] map@[i]).0) == seg@
                            && map@[i].1 == v@;
                    lookup::lemma_only_key(map@, i, seg@);
                }
            }
            let v = match found {
                Some(v) => v,
                None => {
                    return None;
                },
            };
            if end == p.len() {
                return Some(v);
            }
            match v {
                Value::Object(m) => {
                    map = m;
                },
                _ => {
                    assert(lookup::value_at_path(v@, p@.skip(end + 1)) is None);
                    return None;
                },
            }
            start = end + 1;
        }
    }

    /// How many fields there are. Their names ascend.
    pub fn len(&self) -> (r: usize)
        ensures
            r == self@.len(),
            value::keys_ascend(self@),
    {
        self.map.len()
    }

    /// Whether there are no fields.
    pub fn is_empty(&self) -> (r: bool)
        ensures
            r == (self@.len() == 0),
    {
        self.map.is_empty()
    }

    /// The fields.
    pub fn as_map(&self) -> (r: &ValueMap)
        ensures
            r@ == self@,
    {
        &self.map
    }

    /// Metadata from a map of fields.
    pub fn from_map(map: ValueMap) -> (r: Self)
        ensures
            r@ == map@,
    {
        Metadata { map }
    }

    /// The canonical bytes.
    ///
    /// # Errors
    /// Damage reports for values that cannot be stored: a float that is not finite, or nesting
    /// that is too deep.
    pub fn encode(&self) -> (r: Result<Vec<u8>, DbError>)
        ensures
            r is Ok ==> value::sorted_throughout(ValueModel::Object(self@)),
            match encoded(self@) {
                Ok(b) => r matches Ok(v) && v@ == b,
                Err(e) => error::failed(r, convert::reported(e, path::root_text())),
            },
    {
        match Value::Object(self.map.clone()).encode() {
            Ok(b) => Ok(b),
            Err(e) => Err(from_format(e)),
        }
    }

    /// Rebuild from the canonical bytes.
    ///
    /// # Errors
    /// Damage reports for bytes that are not a canonical value, or not a map.
    pub fn decode(bytes: &[u8]) -> (r: Result<Self, DbError>)
        ensures
            match value::decoded(bytes@) {
                Ok(ValueModel::Object(m)) => r matches Ok(v) && v@ == m,
                Ok(_) => error::failed(r, convert::reported(not_a_map(), path::root_text())),
                Err(e) => error::failed(r, convert::reported(e, path::root_text())),
            },
    {
        match Value::decode(bytes) {
            Ok(Value::Object(m)) => Ok(Metadata { map: m }),
            Ok(_) => Err(
                from_format(
                    FormatError::Malformed {
                        offset: 0,
                        kind: MalformedKind::Inconsistent { field: "metadata" },
                    },
                ),
            ),
            Err(e) => Err(from_format(e)),
        }
    }

    /// Check the metadata against the engine's limits.
    ///
    /// # Errors
    /// [`ValidationError::MetadataDepthExceeded`] or [`ValidationError::MetadataTooLarge`], or a
    /// damage report for a float that is not finite.
    pub fn validate(&self) -> (r: Result<(), DbError>)
        ensures
            match refused(self@) {
                Some(e) => error::failed(r, e),
                None => r is Ok,
            },
    {
        let depth: usize = self.map.depth().saturating_add(1);
        if depth > MAX_VALUE_DEPTH {
            return Err(
                DbError::Validation(
                    ValidationError::MetadataDepthExceeded { depth, max: MAX_VALUE_DEPTH },
                ),
            );
        }
        let b = match self.encode() {
            Ok(b) => b,
            Err(e) => {
                return Err(e);
            },
        };
        if b.len() > MAX_METADATA_BYTES {
            return Err(
                DbError::Validation(
                    ValidationError::MetadataTooLarge {
                        field: "<document>".to_owned(),
                        size: b.len(),
                        max: MAX_METADATA_BYTES,
                    },
                ),
            );
        }
        Ok(())
    }
}

/// The error for encoded metadata that is not a map.
pub open spec fn not_a_map() -> FormatError {
    FormatError::Malformed { offset: 0, kind: MalformedKind::Inconsistent { field: "metadata" } }
}

impl Default for Metadata {
    fn default() -> (r: Self)
        ensures
            r@.len() == 0,
    {
        Metadata::new()
    }
}

impl Clone for Metadata {
    fn clone(&self) -> (r: Self)
        ensures
            r@ == self@,
    {
        Metadata { map: self.map.clone() }
    }
}

/// A copy of optional metadata.
pub fn copy_metadata(m: &Option<Metadata>) -> (r: Option<Metadata>)
    ensures
        option_metadata(r) == option_metadata(*m),
{
    match m {
        Some(m) => Some(m.clone()),
        None => None,
    }
}

} // verus!
