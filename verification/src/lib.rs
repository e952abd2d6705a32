//! Membership consistency and credential engine for a group movie-night
//! service.
//!
//! Users and groups are persisted as serialized documents in two key-value
//! tables with no relational integrity between them; the coordinator
//! operations in [`new_db_stuff`] keep the two sides consistent through
//! their write ordering.

pub mod auth;
pub mod codec;
pub mod db_structs;
pub mod error_handling;
pub mod new_db_stuff;
pub mod session;
pub mod store;
pub mod sys;
