//! A search engine for the files of one directory.
//!
//! The store ([`model::Model`]) holds a document for every indexed file and,
//! for every term, the number of documents that hold it. Files come in
//! through [`document::Document::new`], changes to them through
//! [`model::Model::update`]. A query is answered in two steps: the store
//! hands out the integers that each score is made of
//! ([`model::Model::query`]), and once the scores are computed,
//! [`rank::QueryResult::ranked`] puts the documents in order.

pub mod digest;
pub mod document;
pub mod event;
pub mod model;
pub mod path;
pub mod rank;
pub mod snapshot;
pub mod store;
pub mod strmap;
pub mod templates;
pub mod text;
