//! How a database is opened and what a collection is made of.
use vstd::prelude::*;
use vstd::utf8::*;

use crate::error;
use crate::error::{
    ConfigError, ConfigModel, DbError, ErrorModel, ValidationError, ValidationModel,
};
use crate::format::catalog::{Catalog, CatalogModel, IdKind, IndexSpec, Metric, VectorDType};
use crate::persistence::Durability;
use crate::validation;
use crate::validation::{check_collection_name, MAX_DIMENSION, MAX_DOC_ID_LEN};

verus! {

/// The memtable size at which it is folded into a segment, unless another is asked for.
pub const DEFAULT_FLUSH_THRESHOLD_BYTES: usize = 8_388_608;

/// How a database is opened.
#[derive(Debug, Clone, Copy, PartialEq, Eq, Structural)]
pub struct DatabaseConfig {
    /// Create the database where there is none.
    pub create_if_missing: bool,
    /// Never write.
    pub read_only: bool,
    /// How aggressively writes are made durable.
    pub durability: Durability,
    /// The memtable size at which it is folded into a segment.
    pub flush_threshold_bytes: usize,
}

impl Default for DatabaseConfig {
    fn default() -> (r: Self)
        ensures
            r == (DatabaseConfig {
                create_if_missing: true,
                read_only: false,
                durability: Durability::Batch,
                flush_threshold_bytes: DEFAULT_FLUSH_THRESHOLD_BYTES,
            }),
    {
        DatabaseConfig {
            create_if_missing: true,
            read_only: false,
            durability: Durability::default(),
            flush_threshold_bytes: DEFAULT_FLUSH_THRESHOLD_BYTES,
        }
    }
}

impl DatabaseConfig {
    /// Whether to create the database where there is none.
    #[must_use]
    pub fn create_if_missing(self, create: bool) -> (r: Self)
        ensures
            r == (DatabaseConfig { create_if_missing: create, ..self }),
    {
        DatabaseConfig { create_if_missing: create, ..self }
    }

    /// Whether to open read-only. A read-only handle creates nothing.
    #[must_use]
    pub fn read_only(self, read_only: bool) -> (r: Self)
        ensures
            r == (DatabaseConfig {
                read_only,
                create_if_missing: self.create_if_missing && !read_only,
                ..self
            }),
    {
        DatabaseConfig {
            read_only,
            create_if_missing: self.create_if_missing && !read_only,
            ..self
        }
    }

    /// How aggressively writes are made durable.
    #[must_use]
    pub fn durability(self, durability: Durability) -> (r: Self)
        ensures
            r == (DatabaseConfig { durability, ..self }),
    {
        DatabaseConfig { durability, ..self }
    }

    /// The memtable size at which it is folded into a segment.
    #[must_use]
    pub fn flush_threshold_bytes(self, bytes: usize) -> (r: Self)
        ensures
            r == (DatabaseConfig { flush_threshold_bytes: bytes, ..self }),
    {
        DatabaseConfig { flush_threshold_bytes: bytes, ..self }
    }

    /// Whether the settings agree with each other.
    ///
    /// # Errors
    /// [`ConfigError::InvalidField`] for a read-only handle that is also told to create.
    pub fn validate(&self) -> (r: Result<(), DbError>)
        ensures
            if self.read_only && self.create_if_missing {
                error::failed(r, creates_read_only())
            } else {
                r is Ok
            },
    {
        if self.read_only && self.create_if_missing {
            return Err(
                DbError::Config(
                    ConfigError::InvalidField {
                        field: "create_if_missing",
                        value: "true".to_owned(),
                        constraint: "must be false on a read-only handle",
                    },
                ),
            );
        }
        Ok(())
    }
}

/// The error for a read-only handle that is also told to create.
pub open spec fn creates_read_only() -> ErrorModel {
    ErrorModel::Config(
        ConfigModel::InvalidField {
            field: "create_if_missing",
            value: "true"@,
            constraint: "must be false on a read-only handle",
        },
    )
}

/// What a collection is made of.
#[derive(Debug, PartialEq)]
pub struct CollectionSpec {
    /// The collection's name.
    pub name: String,
    /// Components in every vector.
    pub dimension: u32,
    /// How similarity is measured.
    pub metric: Metric,
    /// How components are stored.
    pub dtype: VectorDType,
    /// How documents are identified.
    pub id_kind: IdKind,
    /// Which index it is searched with.
    pub index: IndexSpec,
}

/// What a collection is made of, independent of how it is held in memory.
pub struct SpecModel {
    pub name: Seq<char>,
    pub dimension: u32,
    pub metric: Metric,
    pub dtype: VectorDType,
    pub id_kind: IdKind,
    pub index: IndexSpec,
}

impl View for CollectionSpec {
    type V = SpecModel;

    open spec fn view(&self) -> SpecModel {
        SpecModel {
            name: self.name@,
            dimension: self.dimension,
            metric: self.metric,
            dtype: self.dtype,
            id_kind: self.id_kind,
            index: self.index,
        }
    }
}

impl SpecModel {
    /// Why no such collection can be made, if none can.
    pub open spec fn refused(self) -> Option<ErrorModel> {
        match validation::name_rejected(encode_utf8(self.name)) {
            Some(reason) => Some(
                ErrorModel::Validation(
                    ValidationModel::InvalidCollectionName { name: self.name, reason },
                ),
            ),
            None => if self.dimension == 0 || self.dimension > MAX_DIMENSION {
                Some(
                    ErrorModel::Validation(
                        ValidationModel::InvalidDimension {
                            dimension: self.dimension,
                            max: MAX_DIMENSION,
                        },
                    ),
                )
            } else {
                None
            },
        }
    }

    /// The catalog of a collection made now.
    pub open spec fn catalog(self, created_at_ms: u64) -> CatalogModel {
        CatalogModel {
            name: self.name,
            dimension: self.dimension,
            metric: self.metric,
            dtype: self.dtype,
            id_kind: self.id_kind,
            index: self.index,
            created_at_ms,
        }
    }

    /// Whether a collection has the shape that is asked for.
    pub open spec fn matches(self, c: CatalogModel) -> bool {
        &&& c.dimension == self.dimension
        &&& c.metric == self.metric
        &&& c.dtype == self.dtype
        &&& c.id_kind == self.id_kind
    }
}

impl CollectionSpec {
    /// A collection of string-identified documents with 32-bit float vectors, searched by an
    /// exact scan.
    pub fn new(name: &str, dimension: u32, metric: Metric) -> (r: Self)
        ensures
            r@ == (SpecModel {
                name: name@,
                dimension,
                metric,
                dtype: VectorDType::F32,
                id_kind: IdKind::Str { max_len: MAX_DOC_ID_LEN as u32 },
                index: IndexSpec::Flat,
            }),
    {
        CollectionSpec {
            name: name.to_owned(),
            dimension,
            metric,
            dtype: VectorDType::F32,
            id_kind: IdKind::Str { max_len: MAX_DOC_ID_LEN as u32 },
            index: IndexSpec::Flat,
        }
    }

    /// Identify documents by 64-bit integers.
    #[must_use]
    pub fn with_u64_ids(self) -> (r: Self)
        ensures
            r@ == (SpecModel { id_kind: IdKind::U64, ..self@ }),
    {
        CollectionSpec { id_kind: IdKind::U64, ..self }
    }

    /// Whether such a collection can be made.
    ///
    /// # Errors
    /// [`ValidationError::InvalidCollectionName`] or [`ValidationError::InvalidDimension`].
    pub fn validate(&self) -> (r: Result<(), DbError>)
        ensures
            match self@.refused() {
                Some(e) => error::failed(r, e),
                None => r is Ok,
            },
    {
        match check_collection_name(self.name.as_str()) {
            Ok(()) => {},
            Err(e) => {
                return Err(e);
            },
        }
        if self.dimension == 0 || self.dimension > MAX_DIMENSION {
            return Err(
                DbError::Validation(
                    ValidationError::InvalidDimension {
                        dimension: self.dimension,
                        max: MAX_DIMENSION,
                    },
                ),
            );
        }
        Ok(())
    }

    /// The catalog of a collection made now.
    pub fn catalog(&self, created_at_ms: u64) -> (r: Catalog)
        ensures
            r@ == self@.catalog(created_at_ms),
    {
        Catalog {
            name: self.name.clone(),
            dimension: self.dimension,
            metric: self.metric,
            dtype: self.dtype,
            id_kind: self.id_kind,
            index: self.index,
            created_at_ms,
        }
    }

    /// Whether a collection has the shape that is asked for.
    pub fn matches(&self, catalog: &Catalog) -> (r: bool)
        ensures
            r == self@.matches(catalog@),
    {
        catalog.dimension == self.dimension && catalog.metric == self.metric && catalog.dtype
            == self.dtype && catalog.id_kind == self.id_kind
    }
}

} // verus!
