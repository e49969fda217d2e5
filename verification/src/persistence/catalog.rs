//! Reading and writing a collection's specification.
use vstd::prelude::*;

use crate::bytes;
use crate::error;
use crate::error::convert;
use crate::error::convert::from_format_at;
use crate::error::{CorruptionError, DbError, ErrorModel};
use crate::format::block;
use crate::format::catalog;
use crate::format::catalog::{Catalog, CatalogModel};
use crate::format::header::FileKind;
use crate::path::DbPath;
use crate::persistence::layout;
use crate::persistence::segment;

verus! {

/// A specification that is ready to be written.
#[derive(Debug)]
pub struct PendingCatalog {
    /// The directory to create first.
    pub dir: DbPath,
    /// The file to overwrite.
    pub path: DbPath,
    /// What to write into it.
    pub bytes: Vec<u8>,
}

/// A specification that is ready to be written, independent of how it is held in memory.
pub struct PendingModel {
    pub dir: Seq<char>,
    pub path: Seq<char>,
    pub bytes: Seq<u8>,
}

impl View for PendingCatalog {
    type V = PendingModel;

    open spec fn view(&self) -> PendingModel {
        PendingModel { dir: self.dir@, path: self.path@, bytes: self.bytes@ }
    }
}

/// What writing a collection's specification writes, or why it cannot be written.
pub open spec fn written(c: CatalogModel) -> Result<PendingModel, ErrorModel> {
    match layout::path_of(layout::catalog_text(c.name)) {
        Err(e) => Err(e),
        Ok(path) => match layout::path_of(layout::collection_text(c.name)) {
            Err(e) => Err(e),
            Ok(dir) => match catalog::checked(c) {
                Err(e) => Err(convert::reported(e, path)),
                Ok(_) => Ok(
                    PendingModel {
                        dir,
                        path,
                        bytes: block::block_bytes(FileKind::Catalog, catalog::catalog_bytes(c)),
                    },
                ),
            },
        },
    }
}

/// What writing a collection's specification writes. Called once, when the collection is
/// created.
///
/// # Errors
/// Any format error, or a name that makes no path.
pub fn write_catalog(catalog: &Catalog) -> (r: Result<PendingCatalog, DbError>)
    ensures
        match written(catalog@) {
            Ok(m) => r matches Ok(p) && p@ == m,
            Err(e) => error::failed(r, e),
        },
{
    let path = match layout::catalog(catalog.name.as_str()) {
        Ok(p) => p,
        Err(e) => {
            return Err(e);
        },
    };
    let dir = match layout::collection_dir(catalog.name.as_str()) {
        Ok(p) => p,
        Err(e) => {
            return Err(e);
        },
    };
    match catalog.encode() {
        Ok(bytes) => Ok(PendingCatalog { dir, path, bytes }),
        Err(e) => Err(from_format_at(e, &path)),
    }
}

/// The specification that a collection's file holds, or why there is none.
pub open spec fn read(name: Seq<char>, contents: Option<Seq<u8>>) -> Result<
    CatalogModel,
    ErrorModel,
> {
    match layout::path_of(layout::catalog_text(name)) {
        Err(e) => Err(e),
        Ok(path) => match contents {
            None => Err(segment::missing(name, 0)),
            Some(b) => match catalog::decoded(b) {
                Ok(m) => Ok(m),
                Err(e) => Err(convert::reported(e, path)),
            },
        },
    }
}

/// Read a collection's specification, `contents` being what its file holds where there is one.
///
/// # Errors
/// [`CorruptionError`] if the file is damaged. A missing catalog for a collection the manifest
/// names is corruption, not an absence: the manifest promised it.
pub fn read_catalog(name: &str, contents: &Option<Vec<u8>>) -> (r: Result<Catalog, DbError>)
    ensures
        match read(name@, bytes::option_bytes(*contents)) {
            Ok(m) => r matches Ok(c) && c@ == m,
            Err(e) => error::failed(r, e),
        },
{
    let path = match layout::catalog(name) {
        Ok(p) => p,
        Err(e) => {
            return Err(e);
        },
    };
    match contents {
        None => Err(
            DbError::Corruption(
                CorruptionError::MissingSegment { collection: name.to_owned(), segment: 0 },
            ),
        ),
        Some(b) => match Catalog::decode(b.as_slice()) {
            Ok(c) => Ok(c),
            Err(e) => Err(from_format_at(e, &path)),
        },
    }
}

} // verus!
