//! An append-only event store: time-ordered identifiers, partitioned record
//! files, a tolerant record reader and bucketed counts over the records,
//! together with the short-link helpers of the service that writes them.

pub mod ulid;
pub mod id_generator;
pub mod utils;
pub mod record;
pub mod writer;
pub mod reader;
pub mod views;
pub mod url_dao;
pub mod auth;
