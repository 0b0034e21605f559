//! A small watched-items library: a list of (name, url) entries with a cached
//! price string and a last-updated timestamp, a monotonically increasing id
//! counter, and a JSON text format for persisting the whole state.

pub mod clock;
pub mod codec;
pub mod control;
pub mod data;
pub mod json;
pub mod store;
pub mod text;
