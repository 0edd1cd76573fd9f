//! Verified core of the digital twin service: the data model, the
//! element tree, request identifiers, query text, credentials and the
//! answers the HTTP routes give.

pub mod auth;
pub mod db;
pub mod deletion;
pub mod ids;
pub mod models;
pub mod order;
pub mod replies;
pub mod settling;
pub mod text;
pub mod tree;
