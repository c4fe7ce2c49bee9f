//! The database handle and the transaction scope of one statement.
//!
//! A `Db` owns the ordered store and the table catalog. One statement
//! executes against the live store after saving a snapshot; a failed
//! statement restores the snapshot, so no partial writes stay visible.
//! Read-only queries run against the store directly.
use vstd::prelude::*;

use crate::codec::{
    dec_tuple, decode_tuple_at, encode_key, encode_tuple, spec_key, table_prefix, CodecError,
    OwnTuple,
};
use crate::ops::{NamedRows, RaNode};
use crate::parser::{build_relational_expr, AlgebraParseError, Pair};
use crate::storage::{filter_prefix, lookup, resolve_at, Storage};
use crate::table::{TableDef, TableKind};
use crate::validity::Validity;
use crate::value::{copy_value, ValM, Value};

verus! {

/// Why a statement failed: a condition of the algebra (chain building,
/// argument shapes, conflicts), or corruption found while decoding stored
/// bytes — the latter fatal for the read, never retried.
#[derive(Debug)]
pub enum DbError {
    Algebra(AlgebraParseError),
    Corrupt(CodecError),
}

/// The database: one ordered store shared by all relations, and the table
/// catalog. Table ids start at one; zero denotes a global/system table.
#[derive(Debug)]
pub struct Db {
    pub storage: Storage,
    pub tables: Vec<TableDef>,
    pub next_id: u32,
}

impl Db {
    pub open spec fn wf(self) -> bool {
        self.storage.wf()
    }

    /// A fresh, empty database.
    pub fn new() -> (r: Db)
        ensures
            r.wf(),
            r.storage@.len() == 0,
            r.tables@.len() == 0,
    {
        Db { storage: Storage::new(), tables: Vec::new(), next_id: 1 }
    }

    /// Declares a table: its name, kind, key columns, optional validity
    /// column, value columns, and, for an edge, its endpoint table ids.
    /// Yields the id that every encoded key of the relation will lead with.
    pub fn create_table(
        &mut self,
        name: String,
        kind: TableKind,
        key_cols: Vec<String>,
        validity_col: Option<String>,
        val_cols: Vec<String>,
        src: u32,
        dst: u32,
    ) -> (r: u32)
        requires
            old(self).wf(),
            old(self).next_id < 0xFFFF_FFFFu32,
        ensures
            final(self).wf(),
            final(self).storage@ == old(self).storage@,
            final(self).tables@ == old(self).tables@.push(final(self).tables@.last()),
            final(self).next_id == old(self).next_id + 1,
            r == old(self).next_id,
            final(self).tables@.last().name@ == name@,
            final(self).tables@.last().id == r,
            final(self).tables@.last().kind == kind,
            final(self).tables@.last().key_arity == key_cols@.len(),
            final(self).tables@.last().has_validity == (validity_col is Some),
            final(self).tables@.last().headers@ == key_cols@ + (match validity_col {
                Some(vc) => seq![vc],
                None => Seq::<String>::empty(),
            }) + val_cols@,
            final(self).tables@.last().src == src,
            final(self).tables@.last().dst == dst,
    {
        let id = self.next_id;
        self.next_id = self.next_id + 1;
        let key_arity = key_cols.len();
        let has_validity = validity_col.is_some();
        let ghost kc = key_cols@;
        let ghost marker_col = if validity_col is Some {
            seq![validity_col->0]
        } else {
            Seq::<String>::empty()
        };
        let mut headers = key_cols;
        if let Some(vc) = validity_col {
            headers.push(vc);
        }
        proof {
            assert(headers@ =~= kc + marker_col);
        }
        let mut vals = val_cols;
        headers.append(&mut vals);
        proof {
            assert(headers@ =~= kc + marker_col + val_cols@);
        }
        self.tables.push(
            TableDef { name, id, kind, key_arity, has_validity, headers, src, dst },
        );
        id
    }
}

/// Whether some relation carries the name.
pub open spec fn some_table_named(tables: Seq<TableDef>, name: Seq<char>) -> bool {
    exists|i: int| 0 <= i < tables.len() && (#[trigger] tables[i]).name@ == name
}

/// Whether every relation carrying the name is of the kind.
pub open spec fn tables_named_have_kind(
    tables: Seq<TableDef>,
    name: Seq<char>,
    kind: TableKind,
) -> bool {
    forall|i: int|
        0 <= i < tables.len() && (#[trigger] tables[i]).name@ == name ==> tables[i].kind == kind
}

/// Whether no relation carrying the name is an index: a scan source must be
/// a base table or an edge.
pub open spec fn tables_named_not_index(tables: Seq<TableDef>, name: Seq<char>) -> bool {
    forall|i: int|
        0 <= i < tables.len() && (#[trigger] tables[i]).name@ == name ==> tables[i].kind
            != TableKind::Index
}

/// Whether at most one relation carries the name: the reference is
/// unambiguous.
pub open spec fn uniquely_named(tables: Seq<TableDef>, name: Seq<char>) -> bool {
    forall|i: int, j: int|
        0 <= i < tables.len() && 0 <= j < tables.len() && (#[trigger] tables[i]).name@ == name && (
        #[trigger] tables[j]).name@ == name ==> i == j
}

/// The catalog position of the table with the name, if any.
pub fn find_table(db: &Db, name: &String) -> (r: Option<usize>)
    ensures
        match r {
            Some(i) => i < db.tables@.len() && db.tables@[i as int].name@ == name@,
            None => forall|i: int| 0 <= i < db.tables@.len() ==> db.tables@[i].name@ != name@,
        },
{
    let n = db.tables.len();
    for i in 0..n
        invariant
            n == db.tables@.len(),
            forall|j: int| 0 <= j < i ==> db.tables@[j].name@ != name@,
    {
        if db.tables[i].name == *name {
            return Some(i);
        }
    }
    None
}

/// The catalog position of the table with the numeric id; a dangling id
/// fails `TableIdNotFound`.
pub fn resolve_table_id(db: &Db, id: u32) -> (r: Result<usize, AlgebraParseError>)
    ensures
        match r {
            Ok(i) => i < db.tables@.len() && db.tables@[i as int].id == id,
            Err(e) => (e matches AlgebraParseError::TableIdNotFound(t) && t.id == id) && forall|
                i: int,
            | 0 <= i < db.tables@.len() ==> db.tables@[i].id != id,
        },
{
    let n = db.tables.len();
    for i in 0..n
        invariant
            n == db.tables@.len(),
            forall|j: int| 0 <= j < i ==> db.tables@[j].id != id,
    {
        if db.tables[i].id == id {
            return Ok(i);
        }
    }
    Err(
        AlgebraParseError::TableIdNotFound(
            crate::table::TableId { name: String::new(), id },
        ),
    )
}

/// Writes one encoded row. Into a relation without a validity column and
/// without `upsert`, a present key is a conflict: the write fails
/// `KeyConflict` with the conflicting encoded tuple and changes nothing.
/// Otherwise the write lands: an upsert overwrites the cell, a versioned
/// write appends its version.
pub fn insert_encoded(
    storage: &mut Storage,
    key: Vec<u8>,
    valid: Option<Validity>,
    value: Vec<u8>,
    upsert: bool,
) -> (r: Result<(), AlgebraParseError>)
    requires
        old(storage).wf(),
    ensures
        final(storage).wf(),
        r is Ok <==> !(!upsert && valid is None && lookup(old(storage)@, key@, None) is Some),
        r is Ok ==> lookup(final(storage)@, key@, valid) == Some(value@) && (forall|
            k: Seq<u8>,
            v: Option<Validity>,
        |
            !(k == key@ && v == valid) ==> lookup(final(storage)@, k, v) == lookup(
                old(storage)@,
                k,
                v,
            )),
        r matches Err(e) ==> final(storage)@ == old(storage)@ && (e matches AlgebraParseError::KeyConflict(t)
            && t.data@ == key@),
{
    if !upsert && valid.is_none() {
        if storage.get(&key, &None).is_some() {
            return Err(AlgebraParseError::KeyConflict(OwnTuple { data: key }));
        }
    }
    storage.put(key, valid, value);
    Ok(())
}

/// The validity marker a literal cell stands for: a two-element sequence
/// of a timestamp and a flag, in its external representation.
pub open spec fn marker_of_cell(v: ValM) -> Option<Validity> {
    if v is List && v->List_0.len() == 2 && v->List_0[0] is Int && v->List_0[1] is Bool
        && i64::MIN <= v->List_0[0]->Int_0 <= i64::MAX {
        Some(Validity { ts: v->List_0[0]->Int_0 as i64, asserted: v->List_0[1]->Bool_0 })
    } else {
        None
    }
}

/// Whether a positional row fits the relation: full arity, and a
/// well-formed validity marker where the relation carries one.
pub open spec fn row_wf(def: TableDef, row: Seq<ValM>) -> bool {
    &&& row.len() == def.headers@.len()
    &&& def.key_arity <= row.len()
    &&& def.has_validity ==> (def.key_arity < row.len() && marker_of_cell(
        row[def.key_arity as int],
    ) is Some)
}

/// The encoded storage key of a row: the table prefix, then its key
/// values.
pub open spec fn row_key_bytes(def: TableDef, row: Seq<ValM>) -> Seq<u8> {
    spec_key(def.id as int, row.take(def.key_arity as int))
}

/// The validity marker of a row, if the relation carries one.
pub open spec fn row_marker(def: TableDef, row: Seq<ValM>) -> Option<Validity> {
    if def.has_validity {
        marker_of_cell(row[def.key_arity as int])
    } else {
        None
    }
}

/// The encoded value of a row: its value columns.
pub open spec fn row_value_bytes(def: TableDef, row: Seq<ValM>) -> Seq<u8> {
    crate::codec::enc_vals(
        row.skip(def.key_arity + (if def.has_validity {
            1int
        } else {
            0int
        })),
    )
}

/// Splits a positional row into key values, the validity marker if the
/// relation carries one, and value values. A marker must be a two-element
/// sequence of a timestamp and a flag — anything else is a `ValueError`
/// with the offending literal.
fn split_row(def: &TableDef, row: Vec<Value>) -> (r: Result<
    (Vec<Value>, Option<Validity>, Vec<Value>),
    AlgebraParseError,
>)
    ensures
        r is Ok <==> row_wf(*def, row.deep_view()),
        r matches Ok((k, m, v)) ==> ({
            let rv = row.deep_view();
            let vbit: int = if def.has_validity {
                1
            } else {
                0
            };
            &&& k.deep_view() == rv.take(def.key_arity as int)
            &&& m == row_marker(*def, rv)
            &&& v.deep_view() == rv.skip(def.key_arity + vbit)
        }),
{
    let ghost rv = row.deep_view();
    let mut row = row;
    let expected = def.headers.len();
    if row.len() != expected || def.key_arity > row.len() {
        return Err(AlgebraParseError::NotEnoughArguments(def.name.clone()));
    }
    let mut key: Vec<Value> = Vec::new();
    let mut i: usize = 0;
    while i < def.key_arity
        invariant
            i <= def.key_arity,
            def.key_arity <= rv.len(),
            row.deep_view() == rv.skip(i as int),
            key.deep_view() == rv.take(i as int),
        decreases def.key_arity - i,
    {
        proof {
            assert(rv.skip(i as int).len() > 0);
        }
        if row.len() == 0 {
            return Err(AlgebraParseError::NotEnoughArguments(def.name.clone()));
        }
        let ghost prev_key = key.deep_view();
        let ghost prevd = row.deep_view();
        let ghost prevv = row@;
        let c = row.remove(0);
        proof {
            assert(c@ == prevd[0]);
            assert(prevd[0] == rv[i as int]);
            assert(row.deep_view() =~= rv.skip(i + 1)) by {
                assert(forall|j: int| 0 <= j < row@.len() ==> row@[j] == prevv[j + 1]);
                assert(forall|j: int|
                    0 <= j < row.deep_view().len() ==> row.deep_view()[j] == prevd[j + 1]);
            }
        }
        key.push(c);
        proof {
            assert(key.deep_view() =~= prev_key.push(rv[i as int]));
            assert(key.deep_view() =~= rv.take(i + 1));
        }
        i = i + 1;
    }
    let valid: Option<Validity> = if def.has_validity {
        proof {
            assert(rv.skip(def.key_arity as int).len() == rv.len() - def.key_arity);
        }
        if row.len() == 0 {
            proof {
                assert(!row_wf(*def, rv));
            }
            return Err(AlgebraParseError::NotEnoughArguments(def.name.clone()));
        }
        let ghost prevd = row.deep_view();
        let ghost prevv = row@;
        let cell = row.remove(0);
        proof {
            assert(cell@ == prevd[0]);
            assert(prevd[0] == rv[def.key_arity as int]);
            assert(row.deep_view() =~= rv.skip(def.key_arity + 1)) by {
                assert(forall|j: int| 0 <= j < row@.len() ==> row@[j] == prevv[j + 1]);
                assert(forall|j: int|
                    0 <= j < row.deep_view().len() ==> row.deep_view()[j] == prevd[j + 1]);
            }
        }
        let parsed: Option<Validity> = match &cell {
            Value::List(l) => {
                if l.len() == 2 {
                    match (&l[0], &l[1]) {
                        (Value::Int(ts), Value::Bool(b)) => {
                            proof {
                                assert(cell@->List_0[0] == l[0 as int]@);
                                assert(cell@->List_0[1] == l[1 as int]@);
                            }
                            Some(Validity { ts: *ts, asserted: *b })
                        },
                        _ => {
                            proof {
                                assert(cell@->List_0[0] == l[0 as int]@);
                                assert(cell@->List_0[1] == l[1 as int]@);
                            }
                            None
                        },
                    }
                } else {
                    proof {
                        assert(cell@->List_0.len() == l@.len());
                    }
                    None
                }
            },
            _ => None,
        };
        proof {
            assert(parsed == marker_of_cell(rv[def.key_arity as int]));
        }
        match parsed {
            Some(v) => Some(v),
            None => {
                return Err(AlgebraParseError::ValueError(cell));
            },
        }
    } else {
        None
    };
    Ok((key, valid, row))
}

/// Whether two rows of the relation address the same stored version.
pub open spec fn same_slot(def: TableDef, a: Seq<ValM>, b: Seq<ValM>) -> bool {
    row_key_bytes(def, a) == row_key_bytes(def, b) && row_marker(def, a) == row_marker(def, b)
}

/// Writes the rows of a transport table into a relation, positionally, in
/// order. On success every row was well formed and, where no later row
/// addresses the same version, a lookup of its key and marker yields its
/// encoded value — the last write wins. Versions no row addresses are
/// untouched, also on failure.
fn write_rows(db: &mut Db, table: usize, upsert: bool, nr: &NamedRows) -> (r: Result<
    (),
    AlgebraParseError,
>)
    requires
        old(db).wf(),
        table < old(db).tables@.len(),
    ensures
        final(db).wf(),
        final(db).tables == old(db).tables,
        ({
            let def = old(db).tables@[table as int];
            let rows = nr.rows.deep_view();
            &&& (r is Ok ==> forall|i: int|
                0 <= i < rows.len() ==> row_wf(def, #[trigger] rows[i]))
            &&& (r is Ok ==> forall|i: int|
                0 <= i < rows.len() && (forall|j: int|
                    i < j < rows.len() ==> !same_slot(def, #[trigger] rows[j], rows[i]))
                    ==> lookup(
                    final(db).storage@,
                    row_key_bytes(def, #[trigger] rows[i]),
                    row_marker(def, rows[i]),
                ) == Some(row_value_bytes(def, rows[i])))
            &&& (forall|k: Seq<u8>, v: Option<Validity>|
                (forall|i: int|
                    0 <= i < rows.len() ==> !(k == row_key_bytes(def, #[trigger] rows[i]) && v
                        == row_marker(def, rows[i]))) ==> #[trigger] lookup(
                    final(db).storage@,
                    k,
                    v,
                ) == lookup(old(db).storage@, k, v))
            &&& ((upsert && forall|i: int|
                0 <= i < rows.len() ==> row_wf(def, #[trigger] rows[i])) ==> r is Ok)
            &&& ((r is Ok && !upsert) ==> forall|i: int|
                0 <= i < rows.len() && row_marker(def, #[trigger] rows[i]) is None ==> lookup(
                    old(db).storage@,
                    row_key_bytes(def, rows[i]),
                    None,
                ) is None)
            &&& (((forall|i: int| 0 <= i < rows.len() ==> row_wf(def, #[trigger] rows[i])) && r
                is Err) ==> r matches Err(AlgebraParseError::KeyConflict(_)))
        }),
{
    let ghost def0 = old(db).tables@[table as int];
    let ghost rows = nr.rows.deep_view();
    let n = nr.rows.len();
    for i in 0..n
        invariant
            db.wf(),
            db.tables == old(db).tables,
            n == nr.rows@.len(),
            table < db.tables@.len(),
            def0 == db.tables@[table as int],
            rows == nr.rows.deep_view(),
            forall|x: int| 0 <= x < i ==> row_wf(def0, #[trigger] rows[x]),
            forall|x: int|
                0 <= x < i ==> lookup(
                    db.storage@,
                    row_key_bytes(def0, #[trigger] rows[x]),
                    row_marker(def0, rows[x]),
                ) is Some,
            !upsert ==> forall|x: int|
                0 <= x < i && row_marker(def0, #[trigger] rows[x]) is None ==> lookup(
                    old(db).storage@,
                    row_key_bytes(def0, rows[x]),
                    None,
                ) is None,
            forall|x: int|
                0 <= x < i && (forall|j: int|
                    x < j < i ==> !same_slot(def0, #[trigger] rows[j], rows[x])) ==> lookup(
                    db.storage@,
                    row_key_bytes(def0, #[trigger] rows[x]),
                    row_marker(def0, rows[x]),
                ) == Some(row_value_bytes(def0, rows[x])),
            forall|k: Seq<u8>, v: Option<Validity>|
                (forall|x: int|
                    0 <= x < i ==> !(k == row_key_bytes(def0, #[trigger] rows[x]) && v
                        == row_marker(def0, rows[x]))) ==> #[trigger] lookup(db.storage@, k, v)
                    == lookup(old(db).storage@, k, v),
    {
        let row = crate::value::copy_values(&nr.rows[i]);
        proof {
            assert(row.deep_view() == rows[i as int]);
        }
        let def = &db.tables[table];
        let tid = def.id;
        let (key_vals, valid, val_vals) = match split_row(def, row) {
            Ok(x) => x,
            Err(e) => {
                proof {
                    assert(!row_wf(def0, rows[i as int]));
                }
                return Err(e);
            },
        };
        let key = encode_key(tid, &key_vals);
        let mut value: Vec<u8> = Vec::new();
        encode_tuple(&val_vals, &mut value);
        proof {
            assert(key@ == row_key_bytes(def0, rows[i as int]));
            assert(valid == row_marker(def0, rows[i as int]));
            assert(value@ == row_value_bytes(def0, rows[i as int]));
        }
        let ghost pre = db.storage@;
        if let Err(e) = insert_encoded(&mut db.storage, key, valid, value, upsert) {
            return Err(e);
        }
        proof {
            if !upsert && row_marker(def0, rows[i as int]) is None {
                assert(lookup(pre, row_key_bytes(def0, rows[i as int]), None) is None);
                if exists|x: int|
                    0 <= x < i && row_key_bytes(def0, #[trigger] rows[x]) == row_key_bytes(
                        def0,
                        rows[i as int],
                    ) && row_marker(def0, rows[x]) == row_marker(def0, rows[i as int]) {
                    let x = choose|x: int|
                        0 <= x < i && row_key_bytes(def0, #[trigger] rows[x]) == row_key_bytes(
                            def0,
                            rows[i as int],
                        ) && row_marker(def0, rows[x]) == row_marker(def0, rows[i as int]);
                    assert(lookup(pre, row_key_bytes(def0, rows[x]), row_marker(def0, rows[x]))
                        is Some);
                    assert(false);
                }
                assert(lookup(old(db).storage@, row_key_bytes(def0, rows[i as int]), None)
                    is None);
            }
        }
    }
    Ok(())
}

/// Writes field-named records: each declared column is matched against the
/// record's headers by name; a missing column fails `NotEnoughArguments`.
/// The position of the first record field carrying the wanted column
/// name.
pub open spec fn field_pos(headers: Seq<Seq<char>>, want: Seq<char>) -> Option<int>
    decreases headers.len(),
{
    if headers.len() == 0 {
        None
    } else if headers[0] == want {
        Some(0int)
    } else {
        match field_pos(headers.skip(1), want) {
            Some(p) => Some(p + 1),
            None => None,
        }
    }
}

proof fn lemma_field_pos_first(headers: Seq<Seq<char>>, want: Seq<char>, q: int)
    requires
        0 <= q < headers.len(),
        headers[q] == want,
        forall|x: int| 0 <= x < q ==> headers[x] != want,
    ensures
        field_pos(headers, want) == Some(q),
    decreases headers.len(),
{
    if q > 0 {
        assert(forall|x: int| 0 <= x < q - 1 ==> headers.skip(1)[x] == headers[x + 1]);
        lemma_field_pos_first(headers.skip(1), want, q - 1);
    }
}

proof fn lemma_field_pos_none(headers: Seq<Seq<char>>, want: Seq<char>)
    requires
        forall|x: int| 0 <= x < headers.len() ==> headers[x] != want,
    ensures
        field_pos(headers, want) is None,
    decreases headers.len(),
{
    if headers.len() > 0 {
        assert(forall|x: int|
            0 <= x < headers.skip(1).len() ==> headers.skip(1)[x] == headers[x + 1]);
        lemma_field_pos_none(headers.skip(1), want);
    }
}

/// A record reordered to the relation's declared columns: each column
/// takes the value of the first record field carrying its name.
pub open spec fn tagged_mapped_row(
    def: TableDef,
    headers: Seq<Seq<char>>,
    row: Seq<ValM>,
) -> Seq<ValM> {
    Seq::new(def.headers@.len(), |j: int| row[field_pos(headers, def.headers@[j]@)->0])
}

/// The records of a transport table reordered to the relation's declared
/// columns.
pub open spec fn tagged_rows(def: TableDef, nr: NamedRows) -> Seq<Seq<ValM>> {
    Seq::new(
        nr.rows.deep_view().len(),
        |i: int| tagged_mapped_row(def, nr.headers.deep_view(), nr.rows.deep_view()[i]),
    )
}

/// Writes field-named records: each declared column is matched against the
/// record's headers by name; a missing column fails `NotEnoughArguments`.
/// On success every declared column had a field, and the reordered records
/// obey the same lookup and frame facts as positional writes.
/// Writes field-named records: each declared column is matched against the
/// record's headers by name — the first field carrying the name feeds the
/// column — and a missing column fails `NotEnoughArguments`. Rows reach
/// the store through the same split, encode and insert path as positional
/// writes.
fn write_tagged(db: &mut Db, table: usize, upsert: bool, nr: &NamedRows) -> (r: Result<
    (),
    AlgebraParseError,
>)
    requires
        old(db).wf(),
        table < old(db).tables@.len(),
    ensures
        final(db).wf(),
        final(db).tables == old(db).tables,
        r is Ok ==> forall|j: int|
            0 <= j < old(db).tables@[table as int].headers@.len() ==> field_pos(
                nr.headers.deep_view(),
                (#[trigger] old(db).tables@[table as int].headers@[j])@,
            ) is Some,
{
    let ghost def0 = old(db).tables@[table as int];
    let ncols = db.tables[table].headers.len();
    let mut mapping: Vec<usize> = Vec::new();
    for j in 0..ncols
        invariant
            db.wf(),
            db.tables == old(db).tables,
            db.storage == old(db).storage,
            ncols == db.tables@[table as int].headers@.len(),
            table < db.tables@.len(),
            def0 == db.tables@[table as int],
            mapping@.len() == j,
            forall|x: int|
                0 <= x < mapping@.len() ==> Some(#[trigger] mapping@[x] as int) == field_pos(
                    nr.headers.deep_view(),
                    def0.headers@[x]@,
                ) && mapping@[x] < nr.headers@.len(),
    {
        let want = &db.tables[table].headers[j];
        let mut found: Option<usize> = None;
        let m = nr.headers.len();
        for p in 0..m
            invariant
                m == nr.headers@.len(),
                match found {
                    Some(q) => q < nr.headers@.len() && nr.headers.deep_view()[q as int] == want@
                        && (forall|x: int|
                        0 <= x < q ==> nr.headers.deep_view()[x] != want@),
                    None => forall|x: int| 0 <= x < p ==> nr.headers.deep_view()[x] != want@,
                },
        {
            if found.is_none() && nr.headers[p] == *want {
                proof {
                    assert(nr.headers.deep_view()[p as int] == want@);
                }
                found = Some(p);
            }
            proof {
                if found is None {
                    assert(nr.headers@[p as int]@ == nr.headers.deep_view()[p as int]);
                }
            }
        }
        match found {
            Some(p) => {
                proof {
                    lemma_field_pos_first(nr.headers.deep_view(), want@, p as int);
                }
                mapping.push(p);
            },
            None => {
                proof {
                    lemma_field_pos_none(nr.headers.deep_view(), want@);
                }
                return Err(
                    AlgebraParseError::NotEnoughArguments(db.tables[table].name.clone()),
                );
            },
        }
    }
    let n = nr.rows.len();
    for i in 0..n
        invariant
            db.wf(),
            db.tables == old(db).tables,
            n == nr.rows@.len(),
            table < db.tables@.len(),
            def0 == db.tables@[table as int],
            mapping@.len() == def0.headers@.len(),
            forall|x: int|
                0 <= x < mapping@.len() ==> Some(#[trigger] mapping@[x] as int) == field_pos(
                    nr.headers.deep_view(),
                    def0.headers@[x]@,
                ) && mapping@[x] < nr.headers@.len(),
    {
        let src_row = &nr.rows[i];
        let mut row: Vec<Value> = Vec::new();
        let k = mapping.len();
        let mut ok = true;
        for j in 0..k
            invariant
                k == mapping@.len(),
                forall|x: int|
                    0 <= x < mapping@.len() ==> Some(#[trigger] mapping@[x] as int) == field_pos(
                        nr.headers.deep_view(),
                        def0.headers@[x]@,
                    ) && mapping@[x] < nr.headers@.len(),
        {
            let p = mapping[j];
            if p < src_row.len() {
                row.push(copy_value(&src_row[p]));
            } else {
                ok = false;
            }
        }
        if !ok {
            return Err(AlgebraParseError::NotEnoughArguments(db.tables[table].name.clone()));
        }
        let def = &db.tables[table];
        let tid = def.id;
        let (key_vals, valid, val_vals) = match split_row(def, row) {
            Ok(x) => x,
            Err(e) => {
                return Err(e);
            },
        };
        let key = encode_key(tid, &key_vals);
        let mut value: Vec<u8> = Vec::new();
        encode_tuple(&val_vals, &mut value);
        if let Err(e) = insert_encoded(&mut db.storage, key, valid, value, upsert) {
            return Err(e);
        }
    }
    proof {
        assert forall|j: int|
            0 <= j < def0.headers@.len() implies field_pos(
            nr.headers.deep_view(),
            (#[trigger] def0.headers@[j])@,
        ) is Some by {
            assert(Some(mapping@[j] as int) == field_pos(nr.headers.deep_view(), def0.headers@[j]@));
        }
    }
    Ok(())
}

fn copy_strings(v: &Vec<String>) -> (r: Vec<String>)
    ensures
        r.deep_view() == v.deep_view(),
{
    let mut r: Vec<String> = Vec::new();
    let n = v.len();
    for i in 0..n
        invariant
            n == v.len(),
            r.deep_view() == v.deep_view().subrange(0, i as int),
    {
        let c = v[i].clone();
        proof {
            assert(c@ == v.deep_view()[i as int]);
            assert(v.deep_view().subrange(0, i + 1) =~= v.deep_view().subrange(0, i as int).push(
                v.deep_view()[i as int],
            ));
        }
        let ghost prev = r.deep_view();
        r.push(c);
        proof {
            assert(r.deep_view() =~= prev.push(v.deep_view()[i as int]));
        }
    }
    proof {
        assert(v.deep_view().subrange(0, n as int) =~= v.deep_view());
    }
    r
}

/// The validity marker of a stored entry in its external shape: a
/// two-element sequence of timestamp and flag, or nothing for a plain row.
pub open spec fn marker_vals(v: Option<Validity>) -> Seq<ValM> {
    match v {
        Some(w) => seq![ValM::List(seq![ValM::Int(w.ts as int), ValM::Bool(w.asserted)])],
        None => Seq::empty(),
    }
}

/// The decoded row of a stored entry: its key values, then the marker if
/// present, then its value values — or nothing if either part is corrupt.
pub open spec fn entry_row(e: (Seq<u8>, Option<Validity>, Seq<u8>)) -> Option<Seq<ValM>> {
    match (dec_tuple(e.0.skip(4)), dec_tuple(e.2)) {
        (Some(kv), Some(vv)) => Some(kv + marker_vals(e.1) + vv),
        _ => None,
    }
}

/// Materializes all rows of one relation: decodes every entry under the
/// table's key prefix, in key order; a validity marker appears as a
/// two-element sequence column after the key.
fn scan_table(db: &Db, table: usize) -> (r: Result<NamedRows, DbError>)
    requires
        table < db.tables@.len(),
    ensures
        r matches Ok(nr) ==> ({
            let fents = filter_prefix(db.storage@, table_prefix(db.tables@[table as int].id as int));
            &&& nr.headers.deep_view() == db.tables@[table as int].headers.deep_view()
            &&& nr.rows.deep_view().len() == fents.len()
            &&& forall|i: int|
                0 <= i < fents.len() ==> Some(nr.rows.deep_view()[i]) == entry_row(#[trigger] fents[i])
        }),
        r is Err ==> ({
            let fents = filter_prefix(db.storage@, table_prefix(db.tables@[table as int].id as int));
            exists|i: int| 0 <= i < fents.len() && entry_row(#[trigger] fents[i]) is None
        }),
{
    let def = &db.tables[table];
    let mut prefix: Vec<u8> = Vec::new();
    crate::codec::push_prefix(def.id, &mut prefix);
    let ents = db.storage.scan_prefix(&prefix);
    let ghost fents = filter_prefix(db.storage@, table_prefix(def.id as int));
    let mut rows: Vec<Vec<Value>> = Vec::new();
    let n = ents.len();
    for i in 0..n
        invariant
            n == ents@.len(),
            table < db.tables@.len(),
            def.id == db.tables@[table as int].id,
            fents == filter_prefix(db.storage@, table_prefix(def.id as int)),
            crate::storage::entries_view(ents@) == fents,
            rows.deep_view().len() == i,
            forall|j: int|
                0 <= j < i ==> Some(rows.deep_view()[j]) == entry_row(#[trigger] fents[j]),
    {
        let e = &ents[i];
        proof {
            assert(e@ == fents[i as int]);
            crate::storage::lemma_filter_prefix_elems(db.storage@, table_prefix(def.id as int));
            crate::codec::lemma_table_prefix_len(def.id as int);
            assert(crate::storage::starts_with(fents[i as int].0, table_prefix(def.id as int)));
        }
        if e.key.len() < 4 {
            proof {
                assert(false);
            }
            return Err(DbError::Corrupt(CodecError::CorruptData));
        }
        let mut row = match decode_tuple_at(&e.key, 4) {
            Ok(vs) => vs,
            Err(c) => {
                proof {
                    assert(entry_row(fents[i as int]) is None);
                }
                return Err(DbError::Corrupt(c));
            },
        };
        let ghost kv = row.deep_view();
        if let Some(w) = e.valid {
            let mut parts: Vec<Value> = Vec::new();
            parts.push(Value::Int(w.ts));
            parts.push(Value::Bool(w.asserted));
            let marker = Value::List(parts);
            proof {
                reveal_with_fuel(crate::value::Value::model, 3);
                assert(marker@->List_0 =~= seq![ValM::Int(w.ts as int), ValM::Bool(w.asserted)]);
            }
            row.push(marker);
        }
        proof {
            assert(row.deep_view() =~= kv + marker_vals(e.valid));
        }
        proof {
            assert(e.value@.skip(0) =~= e.value@);
        }
        let mut vals = match decode_tuple_at(&e.value, 0) {
            Ok(vs) => vs,
            Err(c) => {
                proof {
                    assert(entry_row(fents[i as int]) is None);
                }
                return Err(DbError::Corrupt(c));
            },
        };
        let ghost vv = vals.deep_view();
        let ghost before = row.deep_view();
        row.append(&mut vals);
        proof {
            assert(row.deep_view() =~= before + vv);
            assert(row.deep_view() =~= kv + marker_vals(e.valid) + vv);
            assert(Some(row.deep_view()) == entry_row(fents[i as int]));
        }
        let ghost prev_rows = rows.deep_view();
        rows.push(row);
        proof {
            assert(rows.deep_view() =~= prev_rows.push(kv + marker_vals(e.valid) + vv));
        }
    }
    Ok(NamedRows { headers: copy_strings(&def.headers), rows })
}

/// Joins two relations through an edge: scans the association's key range
/// and resolves the two endpoint rows of each association key by point
/// lookups, not by a nested scan.
/// What one association entry contributes to a join: `None` means the
/// entry or an endpoint value is corrupt; `Some(None)` means an endpoint
/// row is absent and the entry is skipped; `Some(Some(row))` is the
/// concatenation of the left key, the left values, the right key and the
/// right values, the endpoints found by point lookups.
pub open spec fn join_row(
    storage: Seq<(Seq<u8>, Option<Validity>, Seq<u8>)>,
    ldef: TableDef,
    rdef: TableDef,
    e: (Seq<u8>, Option<Validity>, Seq<u8>),
) -> Option<Option<Seq<ValM>>> {
    if e.0.len() < 4 {
        None
    } else {
        match dec_tuple(e.0.skip(4)) {
            Some(kv) => if kv.len() >= ldef.key_arity {
                let lkey = kv.take(ldef.key_arity as int);
                let rkey = kv.skip(ldef.key_arity as int);
                match (lookup(storage, spec_key(ldef.id as int, lkey), None), lookup(
                    storage,
                    spec_key(rdef.id as int, rkey),
                    None,
                )) {
                    (Some(lv), Some(rv)) => match (dec_tuple(lv), dec_tuple(rv)) {
                        (Some(lvals), Some(rvals)) => Some(Some(lkey + lvals + rkey + rvals)),
                        _ => None,
                    },
                    _ => Some(None),
                }
            } else {
                None
            },
            None => None,
        }
    }
}

/// The rows a join yields over a sequence of association entries, in
/// order, or nothing if any entry is corrupt.
pub open spec fn join_rows(
    storage: Seq<(Seq<u8>, Option<Validity>, Seq<u8>)>,
    ldef: TableDef,
    rdef: TableDef,
    ents: Seq<(Seq<u8>, Option<Validity>, Seq<u8>)>,
) -> Option<Seq<Seq<ValM>>>
    decreases ents.len(),
{
    if ents.len() == 0 {
        Some(Seq::empty())
    } else {
        match join_rows(storage, ldef, rdef, ents.drop_last()) {
            Some(rs) => match join_row(storage, ldef, rdef, ents.last()) {
                Some(Some(row)) => Some(rs.push(row)),
                Some(None) => Some(rs),
                None => None,
            },
            None => None,
        }
    }
}

proof fn lemma_join_rows_bad(
    storage: Seq<(Seq<u8>, Option<Validity>, Seq<u8>)>,
    ldef: TableDef,
    rdef: TableDef,
    ents: Seq<(Seq<u8>, Option<Validity>, Seq<u8>)>,
    i: int,
)
    requires
        0 <= i < ents.len(),
        join_row(storage, ldef, rdef, ents[i]) is None,
    ensures
        join_rows(storage, ldef, rdef, ents) is None,
    decreases ents.len(),
{
    if i < ents.len() - 1 {
        assert(ents.drop_last()[i] == ents[i]);
        lemma_join_rows_bad(storage, ldef, rdef, ents.drop_last(), i);
    }
}

/// Joins two relations through an edge: scans the association's key range
/// and resolves the two endpoint rows of each association key by point
/// lookups, not by a nested scan. The result is exactly the joined rows of
/// the edge's entries, in key order.
fn join_tables(db: &Db, edge: usize, left: usize, right: usize) -> (r: Result<NamedRows, DbError>)
    requires
        db.wf(),
        edge < db.tables@.len(),
        left < db.tables@.len(),
        right < db.tables@.len(),
    ensures
        ({
            let ldef = db.tables@[left as int];
            let rdef = db.tables@[right as int];
            let fents = filter_prefix(db.storage@, table_prefix(db.tables@[edge as int].id as int));
            &&& (r matches Ok(nr) ==> Some(nr.rows.deep_view()) == join_rows(
                db.storage@,
                ldef,
                rdef,
                fents,
            ) && nr.headers.deep_view() == ldef.headers.deep_view() + rdef.headers.deep_view())
            &&& (r is Err ==> join_rows(db.storage@, ldef, rdef, fents) is None)
        }),
{
    let edef = &db.tables[edge];
    let ghost ldef = db.tables@[left as int];
    let ghost rdef = db.tables@[right as int];
    let mut prefix: Vec<u8> = Vec::new();
    crate::codec::push_prefix(edef.id, &mut prefix);
    let ents = db.storage.scan_prefix(&prefix);
    let ghost fents = filter_prefix(db.storage@, table_prefix(db.tables@[edge as int].id as int));
    let left_ka = db.tables[left].key_arity;
    let mut rows: Vec<Vec<Value>> = Vec::new();
    let n = ents.len();
    for i in 0..n
        invariant
            db.wf(),
            n == ents@.len(),
            left < db.tables@.len(),
            right < db.tables@.len(),
            ldef == db.tables@[left as int],
            rdef == db.tables@[right as int],
            left_ka == ldef.key_arity,
            edge < db.tables@.len(),
            fents == filter_prefix(db.storage@, table_prefix(db.tables@[edge as int].id as int)),
            crate::storage::entries_view(ents@) == fents,
            Some(rows.deep_view()) == join_rows(db.storage@, ldef, rdef, fents.take(i as int)),
    {
        let e = &ents[i];
        proof {
            assert(e@ == fents[i as int]);
            assert(fents.take(i + 1).drop_last() =~= fents.take(i as int));
            assert(fents.take(i + 1).last() == fents[i as int]);
        }
        if e.key.len() < 4 {
            proof {
                assert(join_row(db.storage@, ldef, rdef, fents[i as int]) is None);
                lemma_join_rows_bad(db.storage@, ldef, rdef, fents, i as int);
            }
            return Err(DbError::Corrupt(CodecError::CorruptData));
        }
        let mut kv = match decode_tuple_at(&e.key, 4) {
            Ok(vs) => vs,
            Err(c) => {
                proof {
                    assert(join_row(db.storage@, ldef, rdef, fents[i as int]) is None);
                    lemma_join_rows_bad(db.storage@, ldef, rdef, fents, i as int);
                }
                return Err(DbError::Corrupt(c));
            },
        };
        let ghost kvd = kv.deep_view();
        if kv.len() < left_ka {
            proof {
                assert(join_row(db.storage@, ldef, rdef, fents[i as int]) is None);
                lemma_join_rows_bad(db.storage@, ldef, rdef, fents, i as int);
            }
            return Err(DbError::Corrupt(CodecError::CorruptData));
        }
        let mut left_key: Vec<Value> = Vec::new();
        let mut j: usize = 0;
        proof {
            assert(kv.deep_view() =~= kvd.skip(0));
            assert(left_key.deep_view() =~= kvd.take(0));
        }
        while j < left_ka
            invariant
                j <= left_ka,
                left_ka <= kvd.len(),
                kv.deep_view() == kvd.skip(j as int),
                left_key.deep_view() == kvd.take(j as int),
            decreases left_ka - j,
        {
            proof {
                assert(kv.deep_view().len() == kvd.len() - j);
                assert(kv@.len() == kv.deep_view().len());
            }
            let ghost prevd = kv.deep_view();
            let ghost prevv = kv@;
            let ghost prevk = left_key.deep_view();
            let c = kv.remove(0);
            proof {
                assert(c@ == prevd[0]);
                assert(prevd[0] == kvd[j as int]);
                assert(kv.deep_view() =~= kvd.skip(j + 1)) by {
                    assert(forall|x: int| 0 <= x < kv@.len() ==> kv@[x] == prevv[x + 1]);
                    assert(forall|x: int|
                        0 <= x < kv.deep_view().len() ==> kv.deep_view()[x] == prevd[x + 1]);
                }
            }
            left_key.push(c);
            proof {
                assert(left_key.deep_view() =~= prevk.push(kvd[j as int]));
                assert(left_key.deep_view() =~= kvd.take(j + 1));
            }
            j = j + 1;
        }
        let right_key = kv;
        proof {
            assert(left_key.deep_view() == kvd.take(left_ka as int));
            assert(right_key.deep_view() == kvd.skip(left_ka as int));
        }
        let lk = encode_key(db.tables[left].id, &left_key);
        let rk = encode_key(db.tables[right].id, &right_key);
        let lval = db.storage.get(&lk, &None);
        let rval = db.storage.get(&rk, &None);
        if let (Some(lv), Some(rv)) = (lval, rval) {
            proof {
                assert(lv@.skip(0) =~= lv@);
                assert(rv@.skip(0) =~= rv@);
            }
            let mut row = left_key;
            let mut lvals = match decode_tuple_at(lv, 0) {
                Ok(vs) => vs,
                Err(c) => {
                    proof {
                        assert(join_row(db.storage@, ldef, rdef, fents[i as int]) is None);
                        lemma_join_rows_bad(db.storage@, ldef, rdef, fents, i as int);
                    }
                    return Err(DbError::Corrupt(c));
                },
            };
            let ghost lvd = lvals.deep_view();
            let ghost r0 = row.deep_view();
            row.append(&mut lvals);
            proof {
                assert(row.deep_view() =~= r0 + lvd);
            }
            let mut rkey = right_key;
            let ghost rkd = rkey.deep_view();
            let ghost r1 = row.deep_view();
            row.append(&mut rkey);
            proof {
                assert(row.deep_view() =~= r1 + rkd);
            }
            let mut rvals = match decode_tuple_at(rv, 0) {
                Ok(vs) => vs,
                Err(c) => {
                    proof {
                        assert(join_row(db.storage@, ldef, rdef, fents[i as int]) is None);
                        lemma_join_rows_bad(db.storage@, ldef, rdef, fents, i as int);
                    }
                    return Err(DbError::Corrupt(c));
                },
            };
            let ghost rvd = rvals.deep_view();
            let ghost r2 = row.deep_view();
            row.append(&mut rvals);
            proof {
                assert(row.deep_view() =~= r2 + rvd);
                assert(row.deep_view() =~= kvd.take(left_ka as int) + lvd + kvd.skip(
                    left_ka as int,
                ) + rvd);
                assert(join_row(db.storage@, ldef, rdef, fents[i as int]) == Some(
                    Some(row.deep_view()),
                ));
            }
            let ghost prev_rows = rows.deep_view();
            let ghost rowd = row.deep_view();
            rows.push(row);
            proof {
                assert(rows.deep_view() =~= prev_rows.push(rowd));
            }
        } else {
            proof {
                assert(join_row(db.storage@, ldef, rdef, fents[i as int]) == Some(
                    Option::<Seq<ValM>>::None,
                ));
            }
        }
    }
    proof {
        assert(fents.take(n as int) =~= fents);
    }
    let mut headers = copy_strings(&db.tables[left].headers);
    let mut rh = copy_strings(&db.tables[right].headers);
    let ghost hd = headers.deep_view();
    let ghost rhd = rh.deep_view();
    headers.append(&mut rh);
    proof {
        assert(headers.deep_view() =~= hd + rhd);
    }
    Ok(NamedRows { headers, rows })
}

/// Executes one operator: pulls the predecessor's rows, then reads or
/// writes. The result of a mutating operator is the rows it consumed. A
/// literal leaf yields exactly its rows; a write over a literal leaf lands
/// those rows per the insert rule, touching nothing else.
fn run_node(db: &mut Db, node: RaNode) -> (r: Result<NamedRows, DbError>)
    requires
        old(db).wf(),
    ensures
        final(db).wf(),
        final(db).tables == old(db).tables,
        node matches RaNode::Values { headers, rows } ==> (r matches Ok(out) && out.headers
            == headers && out.rows == rows && final(db).storage@ == old(db).storage@),
        ({
            &&& node is Scan
            &&& node->Scan_table < old(db).tables@.len()
        }) ==> ({
            let def = old(db).tables@[node->Scan_table as int];
            let fents = filter_prefix(old(db).storage@, table_prefix(def.id as int));
            &&& final(db).storage@ == old(db).storage@
            &&& (r matches Ok(out) ==> out.headers.deep_view() == def.headers.deep_view()
                && out.rows.deep_view().len() == fents.len() && (forall|i: int|
                0 <= i < fents.len() ==> Some(out.rows.deep_view()[i]) == entry_row(
                    #[trigger] fents[i],
                )))
            &&& (r is Err ==> exists|i: int|
                0 <= i < fents.len() && entry_row(#[trigger] fents[i]) is None)
        }),
        ({
            &&& node is Insert
            &&& (*node->Insert_prev) is Values
            &&& node->Insert_table < old(db).tables@.len()
        }) ==> ({
            let def = old(db).tables@[node->Insert_table as int];
            let rows = (*node->Insert_prev)->Values_rows.deep_view();
            &&& (r is Ok ==> forall|i: int|
                0 <= i < rows.len() ==> row_wf(def, #[trigger] rows[i]))
            &&& (r is Ok ==> forall|i: int|
                0 <= i < rows.len() && (forall|j: int|
                    i < j < rows.len() ==> !same_slot(def, #[trigger] rows[j], rows[i]))
                    ==> lookup(
                    final(db).storage@,
                    row_key_bytes(def, #[trigger] rows[i]),
                    row_marker(def, rows[i]),
                ) == Some(row_value_bytes(def, rows[i])))
            &&& (forall|k: Seq<u8>, v: Option<Validity>|
                (forall|i: int|
                    0 <= i < rows.len() ==> !(k == row_key_bytes(def, #[trigger] rows[i]) && v
                        == row_marker(def, rows[i]))) ==> #[trigger] lookup(
                    final(db).storage@,
                    k,
                    v,
                ) == lookup(old(db).storage@, k, v))
            &&& ((node->Insert_upsert && forall|i: int|
                0 <= i < rows.len() ==> row_wf(def, #[trigger] rows[i])) ==> r is Ok)
            &&& (r matches Ok(out) ==> out.rows.deep_view() == rows)
            &&& ((r is Ok && !node->Insert_upsert) ==> forall|i: int|
                0 <= i < rows.len() && row_marker(def, #[trigger] rows[i]) is None ==> lookup(
                    old(db).storage@,
                    row_key_bytes(def, rows[i]),
                    None,
                ) is None)
            &&& (((forall|i: int| 0 <= i < rows.len() ==> row_wf(def, #[trigger] rows[i])) && r
                is Err) ==> r matches Err(DbError::Algebra(AlgebraParseError::KeyConflict(_))))
        }),
    decreases node,
{
    match node {
        RaNode::Values { headers, rows } => Ok(NamedRows { headers, rows }),
        RaNode::Scan { table } => {
            if table >= db.tables.len() {
                return Err(
                    DbError::Algebra(
                        AlgebraParseError::Parse("dangling table reference".to_owned()),
                    ),
                );
            }
            scan_table(db, table)
        },
        RaNode::Join { edge, left, right } => {
            if edge >= db.tables.len() || left >= db.tables.len() || right >= db.tables.len() {
                return Err(
                    DbError::Algebra(
                        AlgebraParseError::Parse("dangling table reference".to_owned()),
                    ),
                );
            }
            join_tables(db, edge, left, right)
        },
        RaNode::Insert { upsert, table, prev } => {
            let input = match run_node(db, *prev) {
                Ok(nr) => nr,
                Err(e) => {
                    return Err(e);
                },
            };
            if table >= db.tables.len() {
                return Err(
                    DbError::Algebra(
                        AlgebraParseError::Parse("dangling table reference".to_owned()),
                    ),
                );
            }
            if let Err(e) = write_rows(db, table, upsert, &input) {
                return Err(DbError::Algebra(e));
            }
            Ok(input)
        },
        RaNode::TaggedInsert { upsert, targets } => {
            let mut targets = targets;
            while targets.len() > 0
                invariant
                    db.wf(),
                    db.tables == old(db).tables,
                    node is TaggedInsert,
                decreases targets.len(),
            {
                let (table, nr) = targets.remove(0);
                if table >= db.tables.len() {
                    return Err(
                        DbError::Algebra(
                            AlgebraParseError::Parse("dangling table reference".to_owned()),
                        ),
                    );
                }
                if let Err(e) = write_tagged(db, table, upsert, &nr) {
                    return Err(DbError::Algebra(e));
                }
            }
            Ok(NamedRows { headers: Vec::new(), rows: Vec::new() })
        },
    }
}

/// Builds and executes one statement in a fresh transaction scope: the
/// chain runs to completion against the store, and a failure restores the
/// saved snapshot, leaving no partial writes visible.
pub fn run_statement(db: &mut Db, ast: Pair) -> (r: Result<NamedRows, DbError>)
    requires
        old(db).wf(),
    ensures
        final(db).wf(),
        final(db).tables == old(db).tables,
        r is Err ==> final(db).storage@ == old(db).storage@,
        crate::parser::first_op_needs_prev(ast) ==> (r matches Err(DbError::Algebra(
            AlgebraParseError::Unchainable(_),
        )) && final(db).storage@ == old(db).storage@),
        ({
            &&& ast.children@.len() == 2
            &&& crate::parser::invokes(ast.children@[0], "Values"@)
            &&& (crate::parser::invokes(ast.children@[1], "Insert"@) || crate::parser::invokes(
                ast.children@[1],
                "Upsert"@,
            ))
            &&& crate::parser::chain_wf(old(db).tables@, ast)
        }) ==> ({
            let upsert = crate::parser::invokes(ast.children@[1], "Upsert"@);
            let rows = crate::ops::row_values(ast.children@[0].children@[2]);
            exists|t: int|
                {
                    &&& 0 <= t < old(db).tables@.len()
                    &&& (#[trigger] old(db).tables@[t]).name@
                        == ast.children@[1].children@[1].text@
                    &&& old(db).tables@[t].kind == TableKind::Base
                    &&& (r is Ok ==> forall|i: int|
                        0 <= i < rows.len() ==> row_wf(old(db).tables@[t], #[trigger] rows[i]))
                    &&& (r is Ok ==> forall|i: int|
                        0 <= i < rows.len() && (forall|j: int|
                            i < j < rows.len() ==> !same_slot(
                                old(db).tables@[t],
                                #[trigger] rows[j],
                                rows[i],
                            )) ==> lookup(
                            final(db).storage@,
                            row_key_bytes(old(db).tables@[t], #[trigger] rows[i]),
                            row_marker(old(db).tables@[t], rows[i]),
                        ) == Some(row_value_bytes(old(db).tables@[t], rows[i])))
                    &&& (forall|k: Seq<u8>, v: Option<Validity>|
                        (forall|i: int|
                            0 <= i < rows.len() ==> !(k == row_key_bytes(
                                old(db).tables@[t],
                                #[trigger] rows[i],
                            ) && v == row_marker(old(db).tables@[t], rows[i])))
                            ==> #[trigger] lookup(final(db).storage@, k, v) == lookup(
                            old(db).storage@,
                            k,
                            v,
                        ))
                    &&& ((upsert && forall|i: int|
                        0 <= i < rows.len() ==> row_wf(old(db).tables@[t], #[trigger] rows[i]))
                        ==> r is Ok)
                    &&& (r matches Ok(out) ==> out.rows.deep_view() == rows)
                    &&& ((r is Ok && !upsert) ==> forall|i: int|
                        0 <= i < rows.len() && row_marker(old(db).tables@[t], #[trigger] rows[i])
                            is None ==> lookup(
                            old(db).storage@,
                            row_key_bytes(old(db).tables@[t], rows[i]),
                            None,
                        ) is None)
                    &&& (((forall|i: int|
                        0 <= i < rows.len() ==> row_wf(old(db).tables@[t], #[trigger] rows[i]))
                        && r is Err) ==> r matches Err(DbError::Algebra(
                        AlgebraParseError::KeyConflict(_),
                    )))
                }
        }),
        ({
            &&& ast.children@.len() == 1
            &&& crate::parser::invokes(ast.children@[0], "From"@)
            &&& ast.children@[0].children@.len() == 2
            &&& crate::parser::chain_wf(old(db).tables@, ast)
        }) ==> ({
            &&& final(db).storage@ == old(db).storage@
            &&& exists|t: int|
                {
                    let fents = filter_prefix(
                        old(db).storage@,
                        table_prefix((#[trigger] old(db).tables@[t]).id as int),
                    );
                    &&& 0 <= t < old(db).tables@.len()
                    &&& old(db).tables@[t].name@
                        == ast.children@[0].children@[1].children@[1].text@
                    &&& old(db).tables@[t].kind != TableKind::Index
                    &&& (r matches Ok(out) ==> out.headers.deep_view() == old(db).tables@[
                        t
                    ].headers.deep_view() && out.rows.deep_view().len() == fents.len() && (forall|
                        j: int,
                    |
                        0 <= j < fents.len() ==> Some(out.rows.deep_view()[j]) == entry_row(
                            #[trigger] fents[j],
                        )))
                    &&& (r is Err ==> exists|j: int|
                        0 <= j < fents.len() && entry_row(#[trigger] fents[j]) is None)
                }
        }),
{
    let node = match build_relational_expr(db, ast) {
        Ok(n) => n,
        Err(e) => {
            return Err(DbError::Algebra(e));
        },
    };
    let saved = db.storage.duplicate();
    match run_node(db, node) {
        Ok(nr) => Ok(nr),
        Err(e) => {
            db.storage = saved;
            Err(e)
        },
    }
}

/// Whether one import batch fits the catalog: its relation is declared,
/// and under every relation of that name the headers match positionally
/// and every row is well formed.
pub open spec fn batch_wf(tables: Seq<TableDef>, name: String, nr: NamedRows) -> bool {
    &&& some_table_named(tables, name@)
    &&& forall|t: int|
        0 <= t < tables.len() && (#[trigger] tables[t]).name@ == name@ ==> (nr.headers@.len()
            == tables[t].headers@.len() && forall|i: int|
            0 <= i < nr.rows.deep_view().len() ==> row_wf(
                tables[t],
                #[trigger] nr.rows.deep_view()[i],
            ))
}

/// The relation an import batch targets, when exactly one relation
/// carries the batch's name.
pub open spec fn batch_def(tables: Seq<TableDef>, name: String) -> TableDef {
    tables[choose|t: int| 0 <= t < tables.len() && tables[t].name@ == name@]
}

/// The rows of one import batch.
pub open spec fn batch_rows(data: Seq<(String, NamedRows)>, b: int) -> Seq<Seq<ValM>> {
    data[b].1.rows.deep_view()
}

/// Whether a later row of the import addresses the same stored version as
/// row `i` of batch `b` — the later write would win.
pub open spec fn slot_reused_later(
    tables: Seq<TableDef>,
    data: Seq<(String, NamedRows)>,
    b: int,
    i: int,
) -> bool {
    exists|b2: int, j: int|
        {
            &&& 0 <= b2 < data.len()
            &&& 0 <= j < batch_rows(data, b2).len()
            &&& (b2 > b || (b2 == b && j > i))
            &&& row_key_bytes(batch_def(tables, data[b2].0), #[trigger] batch_rows(data, b2)[j])
                == row_key_bytes(batch_def(tables, data[b].0), batch_rows(data, b)[i])
            &&& row_marker(batch_def(tables, data[b2].0), batch_rows(data, b2)[j]) == row_marker(
                batch_def(tables, data[b].0),
                batch_rows(data, b)[i],
            )
        }
}

/// Whether any row of the import addresses the version `(k, v)`.
pub open spec fn slot_imported(
    tables: Seq<TableDef>,
    data: Seq<(String, NamedRows)>,
    k: Seq<u8>,
    v: Option<Validity>,
) -> bool {
    exists|b: int, j: int|
        {
            &&& 0 <= b < data.len()
            &&& 0 <= j < batch_rows(data, b).len()
            &&& row_key_bytes(batch_def(tables, data[b].0), #[trigger] batch_rows(data, b)[j])
                == k
            &&& row_marker(batch_def(tables, data[b].0), batch_rows(data, b)[j]) == v
        }
}

/// Bulk-loads transport tables into already-declared relations, writing
/// each row as an upsert. All or nothing: any missing relation, shape
/// mismatch or encoding failure restores the store unchanged. Batches that
/// fit the catalog always load, and on success every imported row whose
/// version no later row reuses is what a lookup of its encoded key and
/// marker yields; versions the import does not address are untouched.
pub fn import_relations(db: &mut Db, data: Vec<(String, NamedRows)>) -> (r: Result<(), DbError>)
    requires
        old(db).wf(),
    ensures
        final(db).wf(),
        final(db).tables == old(db).tables,
        r is Err ==> final(db).storage@ == old(db).storage@,
        (forall|b: int|
            0 <= b < data@.len() ==> batch_wf(
                old(db).tables@,
                (#[trigger] data@[b]).0,
                data@[b].1,
            )) ==> r is Ok,
        (r is Ok && (forall|b: int|
            0 <= b < data@.len() ==> uniquely_named(old(db).tables@, (#[trigger] data@[b]).0@)))
            ==> ({
            &&& forall|b: int, i: int|
                0 <= b < data@.len() && 0 <= i < batch_rows(data@, b).len() && !slot_reused_later(
                    old(db).tables@,
                    data@,
                    b,
                    i,
                ) ==> lookup(
                    final(db).storage@,
                    row_key_bytes(
                        batch_def(old(db).tables@, data@[b].0),
                        #[trigger] batch_rows(data@, b)[i],
                    ),
                    row_marker(batch_def(old(db).tables@, data@[b].0), batch_rows(data@, b)[i]),
                ) == Some(
                    row_value_bytes(
                        batch_def(old(db).tables@, data@[b].0),
                        batch_rows(data@, b)[i],
                    ),
                )
            &&& forall|kk: Seq<u8>, vv: Option<Validity>|
                !slot_imported(old(db).tables@, data@, kk, vv) ==> #[trigger] lookup(
                    final(db).storage@,
                    kk,
                    vv,
                ) == lookup(old(db).storage@, kk, vv)
        }),
{
    let ghost orig = data@;
    let ghost uniq = forall|b: int|
        0 <= b < orig.len() ==> uniquely_named(old(db).tables@, (#[trigger] orig[b]).0@);
    let saved = db.storage.duplicate();
    let mut rest = data;
    let ghost k: int = 0;
    while rest.len() > 0
        invariant
            db.wf(),
            db.tables == old(db).tables,
            saved@ == old(db).storage@,
            crate::storage::sorted(saved@),
            0 <= k <= orig.len(),
            rest@ == orig.skip(k),
            data@ == orig,
            uniq == (forall|b: int|
                0 <= b < orig.len() ==> uniquely_named(old(db).tables@, (#[trigger] orig[b]).0@)),
            uniq ==> forall|b: int, i: int|
                0 <= b < k && 0 <= i < batch_rows(orig, b).len() && !slot_reused_later(
                    old(db).tables@,
                    orig,
                    b,
                    i,
                ) ==> lookup(
                    db.storage@,
                    row_key_bytes(
                        batch_def(old(db).tables@, orig[b].0),
                        #[trigger] batch_rows(orig, b)[i],
                    ),
                    row_marker(batch_def(old(db).tables@, orig[b].0), batch_rows(orig, b)[i]),
                ) == Some(
                    row_value_bytes(batch_def(old(db).tables@, orig[b].0), batch_rows(orig, b)[i]),
                ),
            uniq ==> forall|kk: Seq<u8>, vv: Option<Validity>|
                !slot_imported(old(db).tables@, orig, kk, vv) ==> #[trigger] lookup(
                    db.storage@,
                    kk,
                    vv,
                ) == lookup(old(db).storage@, kk, vv),
        decreases rest.len(),
    {
        let ghost batch = rest@[0];
        let (name, nr) = rest.remove(0);
        proof {
            assert(batch == orig[k]);
            assert(rest@ =~= orig.skip(k + 1));
            assert(name == batch.0 && nr == batch.1);
        }
        let table = match find_table(db, &name) {
            Some(i) => i,
            None => {
                proof {
                    assert(!some_table_named(old(db).tables@, batch.0@));
                    assert(!batch_wf(old(db).tables@, orig[k].0, orig[k].1));
                }
                db.storage = saved;
                return Err(DbError::Algebra(AlgebraParseError::TableNotFound(name)));
            },
        };
        if nr.headers.len() != db.tables[table].headers.len() {
            proof {
                assert(!batch_wf(old(db).tables@, orig[k].0, orig[k].1));
            }
            db.storage = saved;
            return Err(DbError::Algebra(AlgebraParseError::NotEnoughArguments(name)));
        }
        let ghost pre_storage = db.storage@;
        let ghost def_k = db.tables@[table as int];
        proof {
            if uniq {
                let t0 = choose|t: int|
                    0 <= t < old(db).tables@.len() && old(db).tables@[t].name@ == orig[k].0@;
                assert(old(db).tables@[t0].name@ == orig[k].0@);
                assert(db.tables@[table as int].name@ == orig[k].0@);
                assert(uniquely_named(old(db).tables@, orig[k].0@));
                assert(t0 == table as int);
                assert(batch_def(old(db).tables@, orig[k].0) == def_k);
            }
        }
        if let Err(e) = write_rows(db, table, true, &nr) {
            proof {
                assert(!(forall|i: int|
                    0 <= i < nr.rows.deep_view().len() ==> row_wf(
                        db.tables@[table as int],
                        #[trigger] nr.rows.deep_view()[i],
                    )));
                assert(!batch_wf(old(db).tables@, orig[k].0, orig[k].1));
            }
            db.storage = saved;
            return Err(DbError::Algebra(e));
        }
        proof {
            if uniq {
                assert(nr.rows.deep_view() == batch_rows(orig, k));
                assert forall|b: int, i: int|
                    0 <= b < k + 1 && 0 <= i < batch_rows(orig, b).len() && !slot_reused_later(
                        old(db).tables@,
                        orig,
                        b,
                        i,
                    ) implies lookup(
                    db.storage@,
                    row_key_bytes(
                        batch_def(old(db).tables@, orig[b].0),
                        #[trigger] batch_rows(orig, b)[i],
                    ),
                    row_marker(batch_def(old(db).tables@, orig[b].0), batch_rows(orig, b)[i]),
                ) == Some(
                    row_value_bytes(batch_def(old(db).tables@, orig[b].0), batch_rows(orig, b)[i]),
                ) by {
                    let kb = row_key_bytes(
                        batch_def(old(db).tables@, orig[b].0),
                        batch_rows(orig, b)[i],
                    );
                    let mb = row_marker(batch_def(old(db).tables@, orig[b].0), batch_rows(orig, b)[i]);
                    if b == k {
                        assert(forall|j: int|
                            i < j < batch_rows(orig, k).len() ==> !same_slot(
                                def_k,
                                #[trigger] batch_rows(orig, k)[j],
                                batch_rows(orig, k)[i],
                            ));
                    } else {
                        assert(lookup(pre_storage, kb, mb) == Some(
                            row_value_bytes(batch_def(old(db).tables@, orig[b].0), batch_rows(orig, b)[i]),
                        ));
                        assert(forall|j: int|
                            0 <= j < batch_rows(orig, k).len() ==> !(kb == row_key_bytes(
                                def_k,
                                #[trigger] batch_rows(orig, k)[j],
                            ) && mb == row_marker(def_k, batch_rows(orig, k)[j])));
                    }
                }
                assert forall|kk: Seq<u8>, vv: Option<Validity>|
                    !slot_imported(old(db).tables@, orig, kk, vv) implies #[trigger] lookup(
                    db.storage@,
                    kk,
                    vv,
                ) == lookup(old(db).storage@, kk, vv) by {
                    assert(forall|j: int|
                        0 <= j < batch_rows(orig, k).len() ==> !(kk == row_key_bytes(
                            def_k,
                            #[trigger] batch_rows(orig, k)[j],
                        ) && vv == row_marker(def_k, batch_rows(orig, k)[j])));
                }
            }
            k = k + 1;
        }
    }
    proof {
        assert(k == orig.len());
    }
    Ok(())
}

/// All rows of the named relation.
pub fn query_table(db: &Db, name: &String) -> (r: Result<NamedRows, DbError>)
    ensures
        r matches Ok(nr) ==> exists|i: int|
            {
                let fents = filter_prefix(db.storage@, table_prefix(db.tables@[i].id as int));
                &&& 0 <= i < db.tables@.len()
                &&& (#[trigger] db.tables@[i]).name@ == name@
                &&& nr.headers.deep_view() == db.tables@[i].headers.deep_view()
                &&& nr.rows.deep_view().len() == fents.len()
                &&& forall|j: int|
                    0 <= j < fents.len() ==> Some(nr.rows.deep_view()[j]) == entry_row(
                        #[trigger] fents[j],
                    )
            },
        r is Err ==> (forall|i: int| 0 <= i < db.tables@.len() ==> (#[trigger] db.tables@[i]).name@
            != name@) || (exists|i: int|
            {
                let fents = filter_prefix(db.storage@, table_prefix(db.tables@[i].id as int));
                &&& 0 <= i < db.tables@.len()
                &&& (#[trigger] db.tables@[i]).name@ == name@
                &&& exists|j: int| 0 <= j < fents.len() && entry_row(#[trigger] fents[j]) is None
            }),
{
    let table = match find_table(db, name) {
        Some(i) => i,
        None => {
            return Err(DbError::Algebra(AlgebraParseError::TableNotFound(name.clone())));
        },
    };
    let r = scan_table(db, table);
    proof {
        if r is Err {
            let i = table as int;
            let fents = filter_prefix(db.storage@, table_prefix(db.tables@[i].id as int));
            assert({
                &&& 0 <= i < db.tables@.len()
                &&& db.tables@[i].name@ == name@
                &&& exists|j: int| 0 <= j < fents.len() && entry_row(#[trigger] fents[j]) is None
            });
        }
        if let Ok(nr) = &r {
            let i = table as int;
            let fents = filter_prefix(db.storage@, table_prefix(db.tables@[i].id as int));
            assert({
                &&& 0 <= i < db.tables@.len()
                &&& db.tables@[i].name@ == name@
                &&& nr.headers.deep_view() == db.tables@[i].headers.deep_view()
                &&& nr.rows.deep_view().len() == fents.len()
                &&& forall|j: int|
                    0 <= j < fents.len() ==> Some(nr.rows.deep_view()[j]) == entry_row(
                        #[trigger] fents[j],
                    )
            });
        }
    }
    r
}

/// The value of a key in a bitemporal relation as of logical time `t`,
/// resolved by the validity rule (`storage::resolve_at`) with one bounded
/// seek: the cost does not grow with the number of versions the key holds.
pub fn query_as_of(db: &Db, table: usize, key: &Vec<Value>, t: i64) -> (r: Result<
    Option<Vec<Value>>,
    DbError,
>)
    requires
        db.wf(),
        table < db.tables@.len(),
    ensures
        ({
            let k = spec_key(db.tables@[table as int].id as int, key.deep_view());
            match r {
                Ok(Some(vs)) => resolve_at(db.storage@, k, t as int) matches Some(bytes)
                    && dec_tuple(bytes) == Some(vs.deep_view()),
                Ok(None) => resolve_at(db.storage@, k, t as int) is None,
                Err(e) => (e matches DbError::Corrupt(_)) && (resolve_at(db.storage@, k, t as int)
                    matches Some(bytes) && dec_tuple(bytes) is None),
            }
        }),
{
    let k = encode_key(db.tables[table].id, key);
    match db.storage.get_as_of(&k, t) {
        Some(v) => {
            proof {
                assert(v@.skip(0) =~= v@);
            }
            match decode_tuple_at(v, 0) {
                Ok(vs) => Ok(Some(vs)),
                Err(c) => Err(DbError::Corrupt(c)),
            }
        },
        None => Ok(None),
    }
}

/// The current value of a key in a bitemporal relation: the query "as of
/// now", with the unbounded future as the default query time.
pub fn query_latest(db: &Db, table: usize, key: &Vec<Value>) -> (r: Result<
    Option<Vec<Value>>,
    DbError,
>)
    requires
        db.wf(),
        table < db.tables@.len(),
    ensures
        ({
            let k = spec_key(db.tables@[table as int].id as int, key.deep_view());
            match r {
                Ok(Some(vs)) => resolve_at(db.storage@, k, i64::MAX as int) matches Some(bytes)
                    && dec_tuple(bytes) == Some(vs.deep_view()),
                Ok(None) => resolve_at(db.storage@, k, i64::MAX as int) is None,
                Err(e) => (e matches DbError::Corrupt(_)) && (resolve_at(
                    db.storage@,
                    k,
                    i64::MAX as int,
                ) matches Some(bytes) && dec_tuple(bytes) is None),
            }
        }),
{
    query_as_of(db, table, key, i64::MAX)
}


} // verus!
