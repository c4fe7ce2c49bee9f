//! The relational operators: a closed sum over the known operator kinds.
//!
//! Any operator can be the predecessor (row source) of a chaining operator;
//! the chain is built left to right by `parser::build_relational_expr`, and
//! each constructor here validates its own arguments up front, failing fast
//! with the offending operator name and argument position.
use vstd::prelude::*;

use crate::db::Db;
use crate::parser::{assert_rule, AlgebraParseError, Pair, Rule};
use crate::table::{TableId, TableKind};
use crate::value::{ValM, Value};

verus! {

/// A transport table: ordered column headers and rows whose length matches
/// the header count. The external query-result shape, and the bulk-import
/// shape.
#[derive(Debug)]
pub struct NamedRows {
    pub headers: Vec<String>,
    pub rows: Vec<Vec<Value>>,
}

/// One relational operator. A node with a predecessor consumes that node's
/// output rows; a node without one manufactures rows from literals or a
/// table scan.
#[derive(Debug)]
pub enum RaNode {
    /// A literal table: headers and a matrix of literal rows.
    Values { headers: Vec<String>, rows: Vec<Vec<Value>> },
    /// A scan of one relation, by catalog position.
    Scan { table: usize },
    /// A join of two relations through a declared association (edge): each
    /// association key resolves its two endpoint rows by point lookups.
    Join { edge: usize, left: usize, right: usize },
    /// Consumes predecessor rows and writes each as a tuple; with `upsert`
    /// false it refuses to overwrite (fails `KeyConflict`), with `upsert`
    /// true it overwrites, or appends a version to a validity relation.
    Insert { upsert: bool, table: usize, prev: Box<RaNode> },
    /// Like `Insert`, but the rows are field-named records carried inline,
    /// one batch per target relation; fields are matched to the declared
    /// columns by name.
    TaggedInsert { upsert: bool, targets: Vec<(usize, NamedRows)> },
}

/// Whether a node is a well-formed header list: identifiers only.
pub open spec fn header_list_wf(p: Pair) -> bool {
    &&& p.rule == Rule::HeaderList
    &&& forall|i: int|
        0 <= i < p.children@.len() ==> (#[trigger] p.children@[i]).rule == Rule::Ident
}

/// The column names a header list carries.
pub open spec fn header_texts(p: Pair) -> Seq<Seq<char>> {
    Seq::new(p.children@.len(), |i: int| p.children@[i].text@)
}

/// Whether a node is a well-formed literal matrix: rows of literals, each
/// row of the given arity, every cell carrying a value.
pub open spec fn row_list_wf(p: Pair, arity: int) -> bool {
    &&& p.rule == Rule::RowList
    &&& forall|i: int|
        0 <= i < p.children@.len() ==> {
            let rp = #[trigger] p.children@[i];
            &&& rp.rule == Rule::RowLiteral
            &&& rp.children@.len() == arity
            &&& forall|j: int|
                0 <= j < rp.children@.len() ==> ((#[trigger] rp.children@[j]).rule
                    == Rule::ValueLiteral && rp.children@[j].literal is Some)
        }
}

/// The value matrix a literal row list carries.
pub open spec fn row_values(p: Pair) -> Seq<Seq<ValM>> {
    Seq::new(
        p.children@.len(),
        |i: int|
            Seq::new(
                p.children@[i].children@.len(),
                |j: int| (p.children@[i].children@[j].literal->0)@,
            ),
    )
}

fn parse_headers(p: Pair, name: &String) -> (r: Result<Vec<String>, AlgebraParseError>)
    ensures
        r is Ok <==> header_list_wf(p),
        r matches Ok(hs) ==> hs.deep_view() == header_texts(p),
{
    if let Err(e) = assert_rule(&p, Rule::HeaderList, name.as_str(), 1) {
        return Err(e);
    }
    let ghost all = p.children@;
    let mut hs: Vec<String> = Vec::new();
    let mut parts = p.children;
    let ghost k: int = 0;
    while parts.len() > 0
        invariant
            0 <= k <= all.len(),
            parts@ == all.skip(k),
            hs.deep_view().len() == k,
            forall|x: int| 0 <= x < k ==> (#[trigger] all[x]).rule == Rule::Ident,
            forall|x: int| 0 <= x < k ==> hs.deep_view()[x] == all[x].text@,
            p.rule == Rule::HeaderList,
            p.children@ == all,
        decreases parts.len(),
    {
        let h = parts.remove(0);
        proof {
            assert(h == all[k]);
            assert(parts@ =~= all.skip(k + 1));
        }
        if let Err(e) = assert_rule(&h, Rule::Ident, name.as_str(), 1) {
            proof {
                assert(!header_list_wf(p));
            }
            return Err(e);
        }
        let ghost prev = hs.deep_view();
        hs.push(h.text);
        proof {
            assert(hs.deep_view() =~= prev.push(h.text@));
            k = k + 1;
        }
    }
    proof {
        assert(k == all.len());
        assert(hs.deep_view() =~= header_texts(p));
    }
    Ok(hs)
}

fn parse_rows(p: Pair, name: &String, arity: usize) -> (r: Result<
    Vec<Vec<Value>>,
    AlgebraParseError,
>)
    ensures
        r is Ok <==> row_list_wf(p, arity as int),
        r matches Ok(rows) ==> rows.deep_view() == row_values(p),
{
    if let Err(e) = assert_rule(&p, Rule::RowList, name.as_str(), 2) {
        return Err(e);
    }
    let ghost all = p.children@;
    let mut rows: Vec<Vec<Value>> = Vec::new();
    let mut parts = p.children;
    let ghost k: int = 0;
    while parts.len() > 0
        invariant
            0 <= k <= all.len(),
            parts@ == all.skip(k),
            rows.deep_view().len() == k,
            forall|x: int|
                0 <= x < k ==> {
                    let rp = #[trigger] all[x];
                    &&& rp.rule == Rule::RowLiteral
                    &&& rp.children@.len() == arity
                    &&& forall|j: int|
                        0 <= j < rp.children@.len() ==> ((#[trigger] rp.children@[j]).rule
                            == Rule::ValueLiteral && rp.children@[j].literal is Some)
                },
            forall|x: int| 0 <= x < k ==> rows.deep_view()[x] == row_values(p)[x],
            p.rule == Rule::RowList,
            p.children@ == all,
        decreases parts.len(),
    {
        let rp = parts.remove(0);
        proof {
            assert(rp == all[k]);
            assert(parts@ =~= all.skip(k + 1));
        }
        if let Err(e) = assert_rule(&rp, Rule::RowLiteral, name.as_str(), 2) {
            proof {
                assert(!row_list_wf(p, arity as int));
            }
            return Err(e);
        }
        let ghost cells_all = rp.children@;
        let mut row: Vec<Value> = Vec::new();
        let mut cells = rp.children;
        let ghost y: int = 0;
        while cells.len() > 0
            invariant
                0 <= y <= cells_all.len(),
                cells@ == cells_all.skip(y),
                row.deep_view().len() == y,
                forall|x: int|
                    0 <= x < y ==> ((#[trigger] cells_all[x]).rule == Rule::ValueLiteral
                        && cells_all[x].literal is Some),
                forall|x: int| 0 <= x < y ==> row.deep_view()[x] == (cells_all[x].literal->0)@,
                rp.children@ == cells_all,
                p.children@ == all,
                0 <= k < all.len(),
                all[k] == rp,
            decreases cells.len(),
        {
            let cell = cells.remove(0);
            proof {
                assert(cell == cells_all[y]);
                assert(cells@ =~= cells_all.skip(y + 1));
            }
            if let Err(e) = assert_rule(&cell, Rule::ValueLiteral, name.as_str(), 2) {
                proof {
                    if row_list_wf(p, arity as int) {
                        assert(p.children@[k] == rp);
                        assert(rp.children@[y].rule == Rule::ValueLiteral);
                    }
                }
                return Err(e);
            }
            let ghost c = cell;
            match cell.literal {
                Some(v) => {
                    let ghost prev = row.deep_view();
                    proof {
                        assert(v == c.literal->0);
                    }
                    row.push(v);
                    proof {
                        assert(row.deep_view() =~= prev.push((c.literal->0)@));
                        y = y + 1;
                    }
                },
                None => {
                    proof {
                        if row_list_wf(p, arity as int) {
                            assert(p.children@[k] == rp);
                            assert(rp.children@[y].literal is Some);
                        }
                    }
                    return Err(
                        AlgebraParseError::WrongArgumentType(
                            name.clone(),
                            2,
                            "a literal without a value".to_owned(),
                        ),
                    );
                },
            }
        }
        if row.len() != arity {
            proof {
                assert(!row_list_wf(p, arity as int));
            }
            return Err(AlgebraParseError::NotEnoughArguments(name.clone()));
        }
        let ghost prev_rows = rows.deep_view();
        proof {
            assert(row.deep_view() =~= row_values(p)[k]);
        }
        rows.push(row);
        proof {
            assert(rows.deep_view() =~= prev_rows.push(row_values(p)[k]));
            k = k + 1;
        }
    }
    proof {
        assert(k == all.len());
        assert(rows.deep_view() =~= row_values(p));
    }
    Ok(rows)
}

/// Whether `Values` arguments are well formed: a header list, then a
/// literal matrix whose rows match the header arity.
pub open spec fn values_args_wf(parts: Seq<Pair>) -> bool {
    &&& parts.len() >= 2
    &&& header_list_wf(parts[0])
    &&& row_list_wf(parts[1], parts[0].children@.len() as int)
}

/// Builds the literal-table operator: `Values(headers, rows)`. Succeeds
/// exactly on well-formed arguments; the node holds exactly the named
/// headers and the literal matrix.
pub fn build_relation_from_values(parts: Vec<Pair>, name: String) -> (r: Result<
    RaNode,
    AlgebraParseError,
>)
    ensures
        r is Ok <==> values_args_wf(parts@),
        r matches Ok(node) ==> node matches RaNode::Values { headers, rows }
            && headers.deep_view() == header_texts(parts@[0]) && rows.deep_view() == row_values(
            parts@[1],
        ),
{
    let ghost orig = parts@;
    let mut parts = parts;
    if parts.len() < 2 {
        return Err(AlgebraParseError::NotEnoughArguments(name));
    }
    let hp = parts.remove(0);
    let ghost hp0 = hp;
    let headers = match parse_headers(hp, &name) {
        Ok(hs) => hs,
        Err(e) => {
            return Err(e);
        },
    };
    let rp = parts.remove(0);
    proof {
        assert(rp == orig[1]);
        assert(headers.deep_view().len() == orig[0].children@.len());
    }
    let rows = match parse_rows(rp, &name, headers.len()) {
        Ok(rs) => rs,
        Err(e) => {
            return Err(e);
        },
    };
    Ok(RaNode::Values { headers, rows })
}

/// Whether `Insert`/`Upsert` arguments are well formed against the
/// catalog: an identifier naming a base table.
pub open spec fn insertion_args_wf(tables: Seq<crate::table::TableDef>, parts: Seq<Pair>) -> bool {
    &&& parts.len() >= 1
    &&& parts[0].rule == Rule::Ident
    &&& crate::db::some_table_named(tables, parts[0].text@)
    &&& crate::db::tables_named_have_kind(tables, parts[0].text@, TableKind::Base)
}

/// Builds `Insert`/`Upsert`: requires a predecessor as its row source and a
/// base table to write into. With a predecessor and well-formed arguments
/// the build succeeds, and the node holds the named base table, the
/// overwrite flag, and the predecessor.
pub fn build_insertion(
    ctx: &Db,
    built: Option<RaNode>,
    parts: Vec<Pair>,
    upsert: bool,
    name: String,
) -> (r: Result<RaNode, AlgebraParseError>)
    ensures
        built is None ==> r matches Err(AlgebraParseError::Unchainable(_)),
        (built is Some && insertion_args_wf(ctx.tables@, parts@)) ==> r is Ok,
        r is Ok ==> parts@.len() >= 1,
        r matches Ok(node) ==> (node matches RaNode::Insert { upsert: u, table, prev } && u
            == upsert && (built matches Some(b) && *prev == b) && table < ctx.tables@.len()
            && ctx.tables@[table as int].name@ == parts@[0].text@ && ctx.tables@[
            table as int
        ].kind == TableKind::Base),
{
    let prev = match built {
        Some(p) => p,
        None => {
            return Err(AlgebraParseError::Unchainable(name));
        },
    };
    let mut parts = parts;
    if parts.len() == 0 {
        return Err(AlgebraParseError::NotEnoughArguments(name));
    }
    let tp = parts.remove(0);
    if let Err(e) = assert_rule(&tp, Rule::Ident, name.as_str(), 1) {
        return Err(e);
    }
    let table = match crate::db::find_table(ctx, &tp.text) {
        Some(i) => i,
        None => {
            proof {
                assert(!crate::db::some_table_named(ctx.tables@, tp.text@));
            }
            return Err(AlgebraParseError::TableNotFound(tp.text));
        },
    };
    if !matches!(ctx.tables[table].kind, TableKind::Base) {
        proof {
            assert(!crate::db::tables_named_have_kind(
                ctx.tables@,
                tp.text@,
                TableKind::Base,
            ));
        }
        return Err(
            AlgebraParseError::WrongTableKind(
                TableId { name: tp.text, id: ctx.tables[table].id },
            ),
        );
    }
    Ok(RaNode::Insert { upsert, table, prev: Box::new(prev) })
}

/// Whether one tagged argument is well formed against the catalog: a
/// tagged-table node naming a base table, carrying a header list and a
/// matching literal matrix.
pub open spec fn tagged_arg_wf(tables: Seq<crate::table::TableDef>, p: Pair) -> bool {
    &&& p.rule == Rule::TaggedTable
    &&& crate::db::some_table_named(tables, p.text@)
    &&& crate::db::tables_named_have_kind(tables, p.text@, TableKind::Base)
    &&& p.children@.len() >= 2
    &&& header_list_wf(p.children@[0])
    &&& row_list_wf(p.children@[1], p.children@[0].children@.len() as int)
}

/// What one built target must hold: the named base table's position and
/// exactly the parsed records.
pub open spec fn tagged_target_ok(
    tables: Seq<crate::table::TableDef>,
    p: Pair,
    t: (usize, NamedRows),
) -> bool {
    &&& t.0 < tables.len()
    &&& tables[t.0 as int].name@ == p.text@
    &&& tables[t.0 as int].kind == TableKind::Base
    &&& t.1.headers.deep_view() == header_texts(p.children@[0])
    &&& t.1.rows.deep_view() == row_values(p.children@[1])
}

/// Builds `InsertTagged`/`UpsertTagged`: each argument names a target base
/// table and carries field-named records for it. Well-formed arguments
/// always build; the node holds exactly the parsed targets.
pub fn build_tagged_insertion(ctx: &Db, parts: Vec<Pair>, upsert: bool, name: String) -> (r: Result<
    RaNode,
    AlgebraParseError,
>)
    ensures
        (forall|i: int|
            0 <= i < parts@.len() ==> tagged_arg_wf(ctx.tables@, #[trigger] parts@[i])) ==> r
            is Ok,
        r matches Ok(node) ==> (node matches RaNode::TaggedInsert { upsert: u, targets } && u
            == upsert && targets@.len() == parts@.len() && forall|i: int|
            0 <= i < parts@.len() ==> tagged_target_ok(
                ctx.tables@,
                parts@[i],
                #[trigger] targets@[i],
            )),
{
    let ghost orig = parts@;
    let mut targets: Vec<(usize, NamedRows)> = Vec::new();
    let mut rest = parts;
    let ghost k: int = 0;
    while rest.len() > 0
        invariant
            0 <= k <= orig.len(),
            rest@ == orig.skip(k),
            parts@ == orig,
            targets@.len() == k,
            forall|x: int|
                0 <= x < k ==> tagged_target_ok(ctx.tables@, orig[x], #[trigger] targets@[x]),
        decreases rest.len(),
    {
        let tp = rest.remove(0);
        proof {
            assert(tp == orig[k]);
            assert(rest@ =~= orig.skip(k + 1));
        }
        let ghost tp0 = tp;
        if let Err(e) = assert_rule(&tp, Rule::TaggedTable, name.as_str(), 1) {
            return Err(e);
        }
        let table = match crate::db::find_table(ctx, &tp.text) {
            Some(i) => i,
            None => {
                proof {
                    assert(!crate::db::some_table_named(ctx.tables@, tp0.text@));
                }
                return Err(AlgebraParseError::TableNotFound(tp.text));
            },
        };
        if !matches!(ctx.tables[table].kind, TableKind::Base) {
            proof {
                assert(!crate::db::tables_named_have_kind(
                    ctx.tables@,
                    tp0.text@,
                    TableKind::Base,
                ));
            }
            return Err(
                AlgebraParseError::WrongTableKind(
                    TableId { name: tp.text, id: ctx.tables[table].id },
                ),
            );
        }
        let mut inner = tp.children;
        if inner.len() < 2 {
            return Err(AlgebraParseError::NotEnoughArguments(name));
        }
        let hp = inner.remove(0);
        proof {
            assert(hp == tp0.children@[0]);
        }
        let headers = match parse_headers(hp, &name) {
            Ok(hs) => hs,
            Err(e) => {
                return Err(e);
            },
        };
        let rp = inner.remove(0);
        proof {
            assert(rp == tp0.children@[1]);
            assert(headers.deep_view().len() == tp0.children@[0].children@.len());
        }
        let rows = match parse_rows(rp, &name, headers.len()) {
            Ok(rs) => rs,
            Err(e) => {
                return Err(e);
            },
        };
        let ghost prev = targets@;
        targets.push((table, NamedRows { headers, rows }));
        proof {
            assert(targets@ =~= prev.push(targets@.last()));
            k = k + 1;
        }
    }
    proof {
        assert(k == orig.len());
    }
    Ok(RaNode::TaggedInsert { upsert, targets })
}

/// Whether an aliased source is well formed against the catalog: an alias
/// and a table name resolving to a non-index relation.
pub open spec fn aliased_wf(tables: Seq<crate::table::TableDef>, p: Pair) -> bool {
    &&& p.rule == Rule::AliasedTable
    &&& p.children@.len() >= 2
    &&& p.children@[0].rule == Rule::Ident
    &&& p.children@[1].rule == Rule::Ident
    &&& crate::db::some_table_named(tables, p.children@[1].text@)
    &&& crate::db::tables_named_not_index(tables, p.children@[1].text@)
}

fn parse_aliased(ctx: &Db, p: Pair, name: &String) -> (r: Result<
    (String, usize),
    AlgebraParseError,
>)
    ensures
        aliased_wf(ctx.tables@, p) ==> r is Ok,
        r matches Ok((_, t)) ==> t < ctx.tables@.len() && ctx.tables@[t as int].name@
            == p.children@[1].text@ && ctx.tables@[t as int].kind != TableKind::Index,
{
    if let Err(e) = assert_rule(&p, Rule::AliasedTable, name.as_str(), 1) {
        return Err(e);
    }
    let mut inner = p.children;
    if inner.len() < 2 {
        return Err(AlgebraParseError::NotEnoughArguments(name.clone()));
    }
    let ap = inner.remove(0);
    proof {
        assert(ap == p.children@[0]);
    }
    if let Err(e) = assert_rule(&ap, Rule::Ident, name.as_str(), 1) {
        return Err(e);
    }
    let tp = inner.remove(0);
    proof {
        assert(tp == p.children@[1]);
    }
    if let Err(e) = assert_rule(&tp, Rule::Ident, name.as_str(), 1) {
        return Err(e);
    }
    let table = match crate::db::find_table(ctx, &tp.text) {
        Some(i) => i,
        None => {
            proof {
                assert(!crate::db::some_table_named(ctx.tables@, tp.text@));
            }
            return Err(AlgebraParseError::TableNotFound(tp.text));
        },
    };
    if matches!(ctx.tables[table].kind, TableKind::Index) {
        proof {
            assert(!crate::db::tables_named_not_index(ctx.tables@, tp.text@));
        }
        return Err(
            AlgebraParseError::WrongTableKind(TableId { name: tp.text, id: ctx.tables[table].id }),
        );
    }
    Ok((ap.text, table))
}

/// Whether a declared edge links the two relations, so a join can follow
/// it.
pub open spec fn edge_links(tables: Seq<crate::table::TableDef>, e: int, l: int, r: int) -> bool {
    &&& 0 <= e < tables.len()
    &&& 0 <= l < tables.len()
    &&& 0 <= r < tables.len()
    &&& tables[e].kind == TableKind::Edge
    &&& tables[e].src == tables[l].id
    &&& tables[e].dst == tables[r].id
}

/// Builds `From`: a scan of one aliased source, or, with two sources, a
/// join through the edge that links them — failing `NoAssociation` when no
/// declared edge does. One well-formed source always builds; two sources
/// build when the (unambiguous) names are linked by some edge.
pub fn build_from_clause(ctx: &Db, parts: Vec<Pair>, name: String) -> (r: Result<
    RaNode,
    AlgebraParseError,
>)
    ensures
        r is Ok ==> parts@.len() >= 1,
        (parts@.len() == 1 && aliased_wf(ctx.tables@, parts@[0])) ==> r is Ok,
        ({
            &&& parts@.len() >= 2
            &&& aliased_wf(ctx.tables@, parts@[0])
            &&& aliased_wf(ctx.tables@, parts@[1])
            &&& crate::db::uniquely_named(ctx.tables@, parts@[0].children@[1].text@)
            &&& crate::db::uniquely_named(ctx.tables@, parts@[1].children@[1].text@)
            &&& exists|e: int, l: int, rr: int|
                #[trigger] edge_links(ctx.tables@, e, l, rr) && ctx.tables@[l].name@
                    == parts@[0].children@[1].text@ && ctx.tables@[rr].name@
                    == parts@[1].children@[1].text@
        }) ==> r is Ok,
        parts@.len() == 1 ==> (r matches Ok(node) ==> (node matches RaNode::Scan { table } && table
            < ctx.tables@.len() && ctx.tables@[table as int].name@ == parts@[0].children@[1].text@
            && ctx.tables@[table as int].kind != TableKind::Index)),
        parts@.len() >= 2 ==> (r matches Ok(node) ==> (node matches RaNode::Join {
            edge,
            left,
            right,
        } && edge_links(ctx.tables@, edge as int, left as int, right as int) && ctx.tables@[
            left as int
        ].name@ == parts@[0].children@[1].text@ && ctx.tables@[right as int].name@
            == parts@[1].children@[1].text@)),
{
    let ghost orig = parts@;
    let mut rest = parts;
    if rest.len() == 0 {
        return Err(AlgebraParseError::NotEnoughArguments(name));
    }
    let first = rest.remove(0);
    let (_alias_l, left) = match parse_aliased(ctx, first, &name) {
        Ok(x) => x,
        Err(e) => {
            return Err(e);
        },
    };
    if rest.len() == 0 {
        return Ok(RaNode::Scan { table: left });
    }
    let second = rest.remove(0);
    proof {
        assert(second == orig[1]);
    }
    let (_alias_r, right) = match parse_aliased(ctx, second, &name) {
        Ok(x) => x,
        Err(e) => {
            return Err(e);
        },
    };
    let left_id = ctx.tables[left].id;
    let right_id = ctx.tables[right].id;
    let n = ctx.tables.len();
    let mut i: usize = 0;
    while i < n
        invariant
            n == ctx.tables@.len(),
            left < ctx.tables@.len() && right < ctx.tables@.len(),
            left_id == ctx.tables@[left as int].id,
            right_id == ctx.tables@[right as int].id,
            ctx.tables@[left as int].name@ == orig[0].children@[1].text@,
            ctx.tables@[right as int].name@ == orig[1].children@[1].text@,
            orig.len() >= 2,
            parts@ == orig,
            forall|j: int|
                0 <= j < i ==> !((#[trigger] ctx.tables@[j]).kind == TableKind::Edge
                    && ctx.tables@[j].src == left_id && ctx.tables@[j].dst == right_id),
        decreases n - i,
    {
        let d = &ctx.tables[i];
        if matches!(d.kind, TableKind::Edge) && d.src == left_id && d.dst == right_id {
            return Ok(RaNode::Join { edge: i, left, right });
        }
        i = i + 1;
    }
    proof {
        if exists|e: int, l: int, rr: int|
            #[trigger] edge_links(ctx.tables@, e, l, rr) && ctx.tables@[l].name@
                == orig[0].children@[1].text@ && ctx.tables@[rr].name@
                == orig[1].children@[1].text@ {
            if crate::db::uniquely_named(ctx.tables@, orig[0].children@[1].text@)
                && crate::db::uniquely_named(ctx.tables@, orig[1].children@[1].text@) {
                let (e, l, rr) = choose|e: int, l: int, rr: int|
                    #[trigger] edge_links(ctx.tables@, e, l, rr) && ctx.tables@[l].name@
                        == orig[0].children@[1].text@ && ctx.tables@[rr].name@
                        == orig[1].children@[1].text@;
                assert(l == left && rr == right);
                assert(!(ctx.tables@[e].kind == TableKind::Edge && ctx.tables@[e].src == left_id
                    && ctx.tables@[e].dst == right_id));
            }
        }
    }
    Err(
        AlgebraParseError::NoAssociation(
            ctx.tables[left].name.clone(),
            ctx.tables[right].name.clone(),
        ),
    )
}

} // verus!
