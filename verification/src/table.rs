//! Relation metadata: names, numeric ids, kinds, columns.
use vstd::prelude::*;

verus! {

/// What a relation is: a base table of rows, an edge linking two tables (an
/// association a join can follow), or a secondary index.
#[derive(Debug, Clone, Copy, PartialEq, Eq, Structural)]
pub enum TableKind {
    Base,
    Edge,
    Index,
}

/// A relation reference: its name and its numeric local id. A local id of
/// zero denotes a global/system table; user tables start at one. The id is
/// the leading component of every encoded key of the relation, so key
/// ranges of different relations never overlap.
#[derive(Debug)]
pub struct TableId {
    pub name: String,
    pub id: u32,
}

/// The declared schema of one relation: created at DDL time, immutable
/// afterwards. `headers` holds the key columns, then the validity column if
/// the relation is bitemporal, then the value columns.
#[derive(Debug)]
pub struct TableDef {
    pub name: String,
    pub id: u32,
    pub kind: TableKind,
    /// How many leading columns form the key.
    pub key_arity: usize,
    /// Whether a validity marker follows the key columns: a bitemporal
    /// relation holds many timestamped versions per key instead of one
    /// mutable cell.
    pub has_validity: bool,
    pub headers: Vec<String>,
    /// For an edge: the ids of the source and destination tables.
    pub src: u32,
    pub dst: u32,
}

} // verus!
