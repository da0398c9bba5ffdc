//! Persistence and query core for a chat-style application.
//!
//! Three entity kinds — users, conversations, and messages — are kept in
//! indexed repositories: a primary store per entity plus one secondary
//! ordered index that answers "most recent N after cursor C" queries by a
//! bounded range scan over composite keys. Every write keeps each index
//! consistent with its primary store, and the paginated reads walk the
//! index first, then dereference full entities from primary storage.

pub mod conversation;
pub mod entities;
pub mod index;
pub mod keyset;
pub mod message;
pub mod repository;
pub mod service;
pub mod tokens;
pub mod user;
