//! The public interface: batches, searches, collections and databases.
pub mod access;
pub mod batch;
pub mod collection;
pub mod compact;
pub mod config;
pub mod database;
pub mod database_laws;
pub mod search;
pub mod uuid;
pub mod verify;
