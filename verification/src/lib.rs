//! Core of an embedded relational database with bitemporal (time-travel)
//! queries: an order-preserving tuple codec, a validity model that resolves
//! a key's visible version as of a logical time, an ordered key-value store
//! scoped by transaction contexts, and a chain of relational operators built
//! from a parsed expression.
pub mod codec;
pub mod db;
pub mod ops;
pub mod parser;
pub mod storage;
pub mod table;
pub mod validity;
pub mod value;

pub use value::Value;
