//! Dynamic search rules: rules that pin documents to positions in the results of a search, while
//! the conditions of a rule hold.
//!
//! - `search` answers which documents are pinned for a query; `active` finds the rules whose
//!   conditions hold and `pins` turns their actions into pins. `resolution_laws` says which
//!   documents these are, from the query, the fields of the rules and what the reads find.
//! - `store` keeps the rules of an instance, `scheduler` makes the tasks that change them and
//!   says what an update makes of a rule, and `routes` decides what HTTP requests get.
//!
//! Whatever reads or writes a database does so between two calls of this library: a call says
//! what to read or write, and the next one takes what came back.
pub mod text;
pub mod bitmap;
pub mod combinations;
pub mod fields;
pub mod search_time;
pub mod satisfied;
pub mod active;
pub mod active_laws;
pub mod pins;
pub mod pins_laws;
pub mod search;
pub mod resolution_laws;
pub mod body;
pub mod rules;
pub mod store;
pub mod scheduler;
pub mod routes;
