//! Folding a parsed operator-chain expression into one relational operator.
//!
//! The textual grammar front-end is an external collaborator: it hands this
//! module a tree of `Pair` nodes. `build_relational_expr` folds the named
//! operator invocations left to right; each operator that consumes rows
//! takes the operator built so far as its row source, and one that requires
//! a predecessor fails `Unchainable` when it stands first.
use vstd::prelude::*;

use crate::codec::OwnTuple;
use crate::db::Db;
use crate::ops::RaNode;
use crate::table::TableId;
use crate::value::Value;

verus! {

/// The grammar rules a parse-tree node can carry.
#[derive(Debug, Clone, Copy, PartialEq, Eq, Structural)]
pub enum Rule {
    ExprAll,
    OpApply,
    OpName,
    Ident,
    AliasedTable,
    HeaderList,
    RowList,
    RowLiteral,
    ValueLiteral,
    TaggedTable,
}

/// One parse-tree node: its rule, its token text, its children, and, for a
/// value literal, the parsed value.
#[derive(Debug)]
pub struct Pair {
    pub rule: Rule,
    pub text: String,
    pub children: Vec<Pair>,
    pub literal: Option<Value>,
}

impl Pair {
    pub fn as_rule(&self) -> (r: Rule)
        ensures
            r == self.rule,
    {
        self.rule
    }
}

/// Why a statement failed: see the error taxonomy of the design. Every
/// variant aborts the statement; none is retried here.
#[derive(Debug)]
pub enum AlgebraParseError {
    /// An operator that requires a predecessor stood first in the chain.
    Unchainable(String),
    /// An operator constructor got an argument of the wrong shape: operator
    /// name, argument position, what stood there.
    WrongArgumentType(String, usize, String),
    /// No relation has the name.
    TableNotFound(String),
    /// The relation is of an incompatible kind for the operator.
    WrongTableKind(TableId),
    /// A numeric relation reference resolved to nothing.
    TableIdNotFound(TableId),
    /// An operator got fewer arguments than it needs, or a required column
    /// is absent from a record.
    NotEnoughArguments(String),
    /// A literal would not coerce to the column's shape.
    ValueError(Value),
    /// Malformed input reached an operator constructor.
    Parse(String),
    /// An insertion found the key already present; the conflicting encoded
    /// tuple is carried for inspection.
    KeyConflict(OwnTuple),
    /// A join named two sources with no declared association between them.
    NoAssociation(String, String),
}

/// Whether `From` arguments are well formed against the catalog: one
/// aliased non-index source, or two whose (unambiguous) names a declared
/// edge links.
pub open spec fn from_args_wf(tables: Seq<crate::table::TableDef>, args: Seq<Pair>) -> bool {
    ||| (args.len() == 1 && crate::ops::aliased_wf(tables, args[0]))
    ||| {
        &&& args.len() >= 2
        &&& crate::ops::aliased_wf(tables, args[0])
        &&& crate::ops::aliased_wf(tables, args[1])
        &&& crate::db::uniquely_named(tables, args[0].children@[1].text@)
        &&& crate::db::uniquely_named(tables, args[1].children@[1].text@)
        &&& exists|e: int, l: int, rr: int|
            #[trigger] crate::ops::edge_links(tables, e, l, rr) && tables[l].name@
                == args[0].children@[1].text@ && tables[rr].name@ == args[1].children@[1].text@
    }
}

/// Whether one invocation of the chain is well formed against the catalog:
/// a known operator name whose arguments its constructor accepts, and not
/// an operator that requires a predecessor when none is built yet.
pub open spec fn invocation_wf(
    tables: Seq<crate::table::TableDef>,
    child: Pair,
    first: bool,
) -> bool {
    &&& child.rule == Rule::OpApply
    &&& child.children@.len() >= 1
    &&& child.children@[0].rule == Rule::OpName
    &&& {
        let opname = child.children@[0].text@;
        let args = child.children@.skip(1);
        ||| (opname == "Values"@ && crate::ops::values_args_wf(args))
        ||| ((opname == "Insert"@ || opname == "Upsert"@) && !first
            && crate::ops::insertion_args_wf(tables, args))
        ||| ((opname == "InsertTagged"@ || opname == "UpsertTagged"@) && (forall|i: int|
            0 <= i < args.len() ==> crate::ops::tagged_arg_wf(tables, #[trigger] args[i])))
        ||| (opname == "From"@ && from_args_wf(tables, args))
    }
}

/// Whether an invocation applies the named operator.
pub open spec fn invokes(child: Pair, opname: Seq<char>) -> bool {
    &&& child.rule == Rule::OpApply
    &&& child.children@.len() >= 1
    &&& child.children@[0].rule == Rule::OpName
    &&& child.children@[0].text@ == opname
}

/// What the root of a literal-write chain `Values(..).Insert/Upsert(..)`
/// must be: the write node over the named base table, with the literal
/// leaf as its predecessor carrying exactly the parsed headers and rows.
pub open spec fn literal_write_root(
    tables: Seq<crate::table::TableDef>,
    pair: Pair,
    upsert: bool,
    node: RaNode,
) -> bool {
    &&& node matches RaNode::Insert { upsert: u, table, prev } && u == upsert && table
        < tables.len() && tables[table as int].name@
        == pair.children@[1].children@[1].text@ && tables[table as int].kind
        == crate::table::TableKind::Base && (*prev matches RaNode::Values { headers, rows }
        && headers.deep_view() == crate::ops::header_texts(pair.children@[0].children@[1])
        && rows.deep_view() == crate::ops::row_values(pair.children@[0].children@[2]))
}

/// What the root of a single-source scan chain `From(alias:tbl)` must be:
/// a scan of the named non-index relation.
pub open spec fn scan_chain_root(
    tables: Seq<crate::table::TableDef>,
    pair: Pair,
    node: RaNode,
) -> bool {
    node matches RaNode::Scan { table } && table < tables.len() && tables[table as int].name@
        == pair.children@[0].children@[1].children@[1].text@ && tables[table as int].kind
        != crate::table::TableKind::Index
}

/// What one constructor yields: given the operator built so far, the node
/// an invocation constructs. A leaf invocation (literal table, tagged
/// write, scan or join) takes no row source and replaces the chain built
/// so far; the write operators consume it as their predecessor.
pub open spec fn node_built_from(
    tables: Seq<crate::table::TableDef>,
    child: Pair,
    prev: Option<RaNode>,
    node: RaNode,
) -> bool {
    let args = child.children@.skip(1);
    ||| {
        &&& invokes(child, "Values"@)
        &&& args.len() >= 2
        &&& node matches RaNode::Values { headers, rows } && headers.deep_view()
            == crate::ops::header_texts(args[0]) && rows.deep_view() == crate::ops::row_values(
            args[1],
        )
    }
    ||| {
        &&& (invokes(child, "Insert"@) || invokes(child, "Upsert"@))
        &&& args.len() >= 1
        &&& node matches RaNode::Insert { upsert, table, prev: p } && upsert == invokes(
            child,
            "Upsert"@,
        ) && (prev matches Some(b) && *p == b) && table < tables.len() && tables[
            table as int
        ].name@ == args[0].text@ && tables[table as int].kind == crate::table::TableKind::Base
    }
    ||| {
        &&& (invokes(child, "InsertTagged"@) || invokes(child, "UpsertTagged"@))
        &&& node matches RaNode::TaggedInsert { upsert, targets } && upsert == invokes(
            child,
            "UpsertTagged"@,
        ) && targets@.len() == args.len() && (forall|i: int|
            0 <= i < args.len() ==> crate::ops::tagged_target_ok(
                tables,
                args[i],
                #[trigger] targets@[i],
            ))
    }
    ||| {
        &&& invokes(child, "From"@)
        &&& args.len() == 1
        &&& node matches RaNode::Scan { table } && table < tables.len() && tables[
            table as int
        ].name@ == args[0].children@[1].text@ && tables[table as int].kind
            != crate::table::TableKind::Index
    }
    ||| {
        &&& invokes(child, "From"@)
        &&& args.len() >= 2
        &&& node matches RaNode::Join { edge, left, right } && crate::ops::edge_links(
            tables,
            edge as int,
            left as int,
            right as int,
        ) && tables[left as int].name@ == args[0].children@[1].text@ && tables[
            right as int
        ].name@ == args[1].children@[1].text@
    }
}

/// The left fold of the chain: starting from `prev`, each invocation
/// constructs its node from the one built so far, and the last node built
/// is the root.
pub open spec fn chain_builds_to(
    tables: Seq<crate::table::TableDef>,
    chain: Seq<Pair>,
    prev: Option<RaNode>,
    node: RaNode,
) -> bool
    decreases chain.len(),
{
    if chain.len() == 0 {
        prev == Some(node)
    } else {
        exists|mid: RaNode|
            #[trigger] node_built_from(tables, chain[0], prev, mid) && chain_builds_to(
                tables,
                chain.skip(1),
                Some(mid),
                node,
            )
    }
}

proof fn lemma_chain_builds_snoc(
    tables: Seq<crate::table::TableDef>,
    chain: Seq<Pair>,
    prev: Option<RaNode>,
    node: RaNode,
    child: Pair,
    next: RaNode,
)
    requires
        chain_builds_to(tables, chain, prev, node),
        node_built_from(tables, child, Some(node), next),
    ensures
        chain_builds_to(tables, chain.push(child), prev, next),
    decreases chain.len(),
{
    if chain.len() == 0 {
        assert(chain.push(child)[0] == child);
        assert(chain.push(child).skip(1) =~= Seq::<Pair>::empty());
        assert(node_built_from(tables, child, prev, next));
        assert(chain_builds_to(tables, chain.push(child).skip(1), Some(next), next));
    } else {
        let mid = choose|mid: RaNode|
            #[trigger] node_built_from(tables, chain[0], prev, mid) && chain_builds_to(
                tables,
                chain.skip(1),
                Some(mid),
                node,
            );
        lemma_chain_builds_snoc(tables, chain.skip(1), Some(mid), node, child, next);
        assert(chain.push(child)[0] == chain[0]);
        assert(chain.push(child).skip(1) =~= chain.skip(1).push(child));
        assert(node_built_from(tables, chain.push(child)[0], prev, mid));
    }
}

/// Whether every invocation of the chain is well formed, so the whole
/// chain builds.
pub open spec fn chain_wf(tables: Seq<crate::table::TableDef>, pair: Pair) -> bool {
    &&& pair.children@.len() > 0
    &&& forall|i: int|
        0 <= i < pair.children@.len() ==> invocation_wf(
            tables,
            #[trigger] pair.children@[i],
            i == 0,
        )
}

/// Whether the first invocation of the chain names an operator that
/// requires a predecessor.
pub open spec fn first_op_needs_prev(p: Pair) -> bool {
    &&& p.children@.len() > 0
    &&& p.children@[0].rule == Rule::OpApply
    &&& p.children@[0].children@.len() > 0
    &&& p.children@[0].children@[0].rule == Rule::OpName
    &&& (p.children@[0].children@[0].text@ == "Insert"@ || p.children@[0].children@[0].text@
        == "Upsert"@)
}

/// The six operator names are pairwise distinct.
proof fn lemma_op_names_distinct()
    ensures
        "Insert"@ != "Upsert"@,
        "Insert"@ != "InsertTagged"@,
        "Insert"@ != "UpsertTagged"@,
        "Insert"@ != "Values"@,
        "Insert"@ != "From"@,
        "Upsert"@ != "InsertTagged"@,
        "Upsert"@ != "UpsertTagged"@,
        "Upsert"@ != "Values"@,
        "Upsert"@ != "From"@,
        "InsertTagged"@ != "UpsertTagged"@,
        "InsertTagged"@ != "Values"@,
        "InsertTagged"@ != "From"@,
        "UpsertTagged"@ != "Values"@,
        "UpsertTagged"@ != "From"@,
        "Values"@ != "From"@,
{
    reveal_strlit("Insert");
    reveal_strlit("Upsert");
    reveal_strlit("InsertTagged");
    reveal_strlit("UpsertTagged");
    reveal_strlit("Values");
    reveal_strlit("From");
    assert(("Insert"@).len() == 6 && ("Upsert"@).len() == 6 && ("InsertTagged"@).len() == 12 && (
    "UpsertTagged"@).len() == 12 && ("Values"@).len() == 6 && ("From"@).len() == 4);
    assert(("Insert"@)[0] == 'I' && ("Upsert"@)[0] == 'U' && ("InsertTagged"@)[0] == 'I' && (
    "UpsertTagged"@)[0] == 'U' && ("Values"@)[0] == 'V');
}

fn rule_label(r: Rule) -> (s: String) {
    match r {
        Rule::ExprAll => "ExprAll".to_owned(),
        Rule::OpApply => "OpApply".to_owned(),
        Rule::OpName => "OpName".to_owned(),
        Rule::Ident => "Ident".to_owned(),
        Rule::AliasedTable => "AliasedTable".to_owned(),
        Rule::HeaderList => "HeaderList".to_owned(),
        Rule::RowList => "RowList".to_owned(),
        Rule::RowLiteral => "RowLiteral".to_owned(),
        Rule::ValueLiteral => "ValueLiteral".to_owned(),
        Rule::TaggedTable => "TaggedTable".to_owned(),
    }
}

/// Checks that an operator argument carries the expected rule; fails with
/// the operator's name, the argument position, and the rule that stood
/// there.
pub fn assert_rule(pair: &Pair, rule: Rule, name: &str, u: usize) -> (r: Result<
    (),
    AlgebraParseError,
>)
    ensures
        r is Ok <==> pair.rule == rule,
        r matches Err(e) ==> e matches AlgebraParseError::WrongArgumentType(n, pos, _) && n@
            == name@ && pos == u,
{
    if pair.as_rule() == rule {
        Ok(())
    } else {
        Err(AlgebraParseError::WrongArgumentType(name.to_owned(), u, rule_label(pair.as_rule())))
    }
}

/// Folds the invocations of a parsed chain into one root operator. The
/// first operator that requires a predecessor and has none fails
/// `Unchainable`; an unknown operator name fails `Parse`; each operator's
/// own constructor validates its arguments.
pub fn build_relational_expr(ctx: &Db, pair: Pair) -> (r: Result<RaNode, AlgebraParseError>)
    ensures
        first_op_needs_prev(pair) ==> r matches Err(AlgebraParseError::Unchainable(_)),
        chain_wf(ctx.tables@, pair) ==> r is Ok,
        ({
            &&& pair.children@.len() == 2
            &&& invokes(pair.children@[0], "Values"@)
            &&& (invokes(pair.children@[1], "Insert"@) || invokes(pair.children@[1], "Upsert"@))
        }) ==> (r matches Ok(node) ==> literal_write_root(
            ctx.tables@,
            pair,
            invokes(pair.children@[1], "Upsert"@),
            node,
        )),
        ({
            &&& pair.children@.len() == 1
            &&& invokes(pair.children@[0], "From"@)
            &&& pair.children@[0].children@.len() == 2
        }) ==> (r matches Ok(node) ==> scan_chain_root(ctx.tables@, pair, node)),
        r matches Ok(node) ==> chain_builds_to(ctx.tables@, pair.children@, None, node),
        r is Err ==> pair.children@.len() == 0 || exists|k: int|
            0 <= k < pair.children@.len() && !invocation_wf(
                ctx.tables@,
                #[trigger] pair.children@[k],
                k == 0,
            ),
{
    let ghost single_from = {
        &&& pair.children@.len() == 1
        &&& invokes(pair.children@[0], "From"@)
        &&& pair.children@[0].children@.len() == 2
    };
    let ghost two_op = {
        &&& pair.children@.len() == 2
        &&& invokes(pair.children@[0], "Values"@)
        &&& (invokes(pair.children@[1], "Insert"@) || invokes(pair.children@[1], "Upsert"@))
    };
    let ghost all = pair.children@;
    let mut children = pair.children;
    if children.len() == 0 {
        return Err(AlgebraParseError::Parse("empty relational expression".to_owned()));
    }
    let head = children.remove(0);
    let mut node: RaNode = match build_one(ctx, head, None) {
        Ok(n) => n,
        Err(e) => {
            proof {
                assert(!invocation_wf(ctx.tables@, all[0], true));
            }
            return Err(e);
        },
    };
    proof {
        assert(node_built_from(ctx.tables@, all[0], None, node));
        assert(all.take(1)[0] == all[0]);
        assert(all.take(1).skip(1) =~= Seq::<Pair>::empty());
        assert(chain_builds_to(ctx.tables@, all.take(1).skip(1), Some(node), node));
        assert(chain_builds_to(ctx.tables@, all.take(1), None, node));
    }
    let ghost k: int = 1;
    while children.len() > 0
        invariant
            !first_op_needs_prev(pair),
            1 <= k <= all.len(),
            all == pair.children@,
            children@ == all.skip(k),
            two_op == ({
                &&& pair.children@.len() == 2
                &&& invokes(pair.children@[0], "Values"@)
                &&& (invokes(pair.children@[1], "Insert"@) || invokes(pair.children@[1], "Upsert"@))
            }),
            two_op && k == 1 ==> (node matches RaNode::Values { headers, rows }
                && headers.deep_view() == crate::ops::header_texts(all[0].children@[1])
                && rows.deep_view() == crate::ops::row_values(all[0].children@[2])),
            two_op && k == 2 ==> literal_write_root(
                ctx.tables@,
                pair,
                invokes(all[1], "Upsert"@),
                node,
            ),
            single_from == ({
                &&& pair.children@.len() == 1
                &&& invokes(pair.children@[0], "From"@)
                &&& pair.children@[0].children@.len() == 2
            }),
            single_from ==> scan_chain_root(ctx.tables@, pair, node),
            chain_builds_to(ctx.tables@, all.take(k), None, node),
        decreases children.len(),
    {
        let child = children.remove(0);
        proof {
            assert(child == all[k]);
            assert(children@ =~= all.skip(k + 1));
        }
        let ghost node0 = node;
        node = match build_one(ctx, child, Some(node)) {
            Ok(n) => n,
            Err(e) => {
                proof {
                    assert(!invocation_wf(ctx.tables@, all[k], false));
                }
                return Err(e);
            },
        };
        proof {
            assert(node_built_from(ctx.tables@, all[k], Some(node0), node));
            lemma_chain_builds_snoc(ctx.tables@, all.take(k), None, node0, all[k], node);
            assert(all.take(k + 1) =~= all.take(k).push(all[k]));
            k = k + 1;
        }
    }
    proof {
        assert(children@.len() == 0);
        assert(k == all.len());
        assert(all.take(k) =~= all);
    }
    Ok(node)
}

/// Builds one operator from its invocation node, with the chain built so
/// far as its predecessor.
fn build_one(ctx: &Db, child: Pair, built: Option<RaNode>) -> (r: Result<
    RaNode,
    AlgebraParseError,
>)
    ensures
        ({
            &&& child.rule == Rule::OpApply
            &&& child.children@.len() > 0
            &&& child.children@[0].rule == Rule::OpName
            &&& (child.children@[0].text@ == "Insert"@ || child.children@[0].text@ == "Upsert"@)
            &&& built is None
        }) ==> r matches Err(AlgebraParseError::Unchainable(_)),
        invocation_wf(ctx.tables@, child, built is None) ==> r is Ok,
        invokes(child, "Values"@) ==> (r matches Ok(node) ==> (node matches RaNode::Values {
            headers,
            rows,
        } && headers.deep_view() == crate::ops::header_texts(child.children@[1])
            && rows.deep_view() == crate::ops::row_values(child.children@[2]))),
        (invokes(child, "Insert"@) || invokes(child, "Upsert"@)) ==> (r matches Ok(node) ==> (
        node matches RaNode::Insert { upsert: u, table, prev } && u == invokes(child, "Upsert"@)
            && (built matches Some(b) && *prev == b) && table < ctx.tables@.len()
            && ctx.tables@[table as int].name@ == child.children@[1].text@ && ctx.tables@[
            table as int
        ].kind == crate::table::TableKind::Base)),
        (invokes(child, "From"@) && child.children@.len() == 2) ==> (r matches Ok(node) ==> (
        node matches RaNode::Scan { table } && table < ctx.tables@.len() && ctx.tables@[
            table as int
        ].name@ == child.children@[1].children@[1].text@ && ctx.tables@[table as int].kind
            != crate::table::TableKind::Index)),
        r matches Ok(node) ==> node_built_from(ctx.tables@, child, built, node),
{
    let ghost built0 = built;
    if let Err(e) = assert_rule(&child, Rule::OpApply, "ra", 0) {
        return Err(e);
    }
    let ghost all = child.children@;
    let mut parts = child.children;
    if parts.len() == 0 {
        return Err(AlgebraParseError::Parse("operator invocation without a name".to_owned()));
    }
    let name_pair = parts.remove(0);
    proof {
        assert(name_pair == all[0]);
        assert(parts@ =~= all.skip(1));
    }
    if let Err(e) = assert_rule(&name_pair, Rule::OpName, "ra", 0) {
        return Err(e);
    }
    let name = name_pair.text;
    let ghost wf = invocation_wf(ctx.tables@, child, built is None);
    let ghost first = built is None;
    if name == "Insert".to_owned() {
        let r = crate::ops::build_insertion(ctx, built, parts, false, name);
        proof {
            lemma_op_names_distinct();
            if wf {
                assert(crate::ops::insertion_args_wf(ctx.tables@, all.skip(1)) && !first);
                assert(r is Ok);
            }
            if let Ok(n) = &r {
                assert(all.skip(1).len() >= 1);
                assert(all.skip(1)[0] == all[1]);
                assert(!invokes(child, "Upsert"@));
                assert(invokes(child, "Insert"@));
                assert(node_built_from(ctx.tables@, child, built0, *n));
            }
        }
        r
    } else if name == "Upsert".to_owned() {
        let r = crate::ops::build_insertion(ctx, built, parts, true, name);
        proof {
            lemma_op_names_distinct();
            if wf {
                assert(crate::ops::insertion_args_wf(ctx.tables@, all.skip(1)) && !first);
                assert(r is Ok);
            }
            if let Ok(n) = &r {
                assert(all.skip(1).len() >= 1);
                assert(all.skip(1)[0] == all[1]);
                assert(invokes(child, "Upsert"@));
                assert(node_built_from(ctx.tables@, child, built0, *n));
            }
        }
        r
    } else if name == "InsertTagged".to_owned() {
        let r = crate::ops::build_tagged_insertion(ctx, parts, false, name);
        proof {
            lemma_op_names_distinct();
            if wf {
                assert(forall|i: int|
                    0 <= i < all.skip(1).len() ==> crate::ops::tagged_arg_wf(
                        ctx.tables@,
                        #[trigger] all.skip(1)[i],
                    ));
                assert(r is Ok);
            }
            if let Ok(n) = &r {
                assert(!invokes(child, "UpsertTagged"@));
                assert(invokes(child, "InsertTagged"@));
                assert(node_built_from(ctx.tables@, child, built0, *n));
            }
        }
        r
    } else if name == "UpsertTagged".to_owned() {
        let r = crate::ops::build_tagged_insertion(ctx, parts, true, name);
        proof {
            lemma_op_names_distinct();
            if wf {
                assert(forall|i: int|
                    0 <= i < all.skip(1).len() ==> crate::ops::tagged_arg_wf(
                        ctx.tables@,
                        #[trigger] all.skip(1)[i],
                    ));
                assert(r is Ok);
            }
            if let Ok(n) = &r {
                assert(invokes(child, "UpsertTagged"@));
                assert(node_built_from(ctx.tables@, child, built0, *n));
            }
        }
        r
    } else if name == "Values".to_owned() {
        let r = crate::ops::build_relation_from_values(parts, name);
        proof {
            lemma_op_names_distinct();
            if wf {
                assert(crate::ops::values_args_wf(all.skip(1)));
                assert(r is Ok);
            }
            if let Ok(n) = &r {
                assert(all.skip(1).len() >= 2);
                assert(all.skip(1)[0] == all[1]);
                assert(all.skip(1)[1] == all[2]);
                assert(invokes(child, "Values"@));
                assert(node_built_from(ctx.tables@, child, built0, *n));
            }
        }
        r
    } else if name == "From".to_owned() {
        let r = crate::ops::build_from_clause(ctx, parts, name);
        proof {
            lemma_op_names_distinct();
            if wf {
                assert(from_args_wf(ctx.tables@, all.skip(1)));
                assert(r is Ok);
            }
            if let Ok(n) = &r {
                assert(invokes(child, "From"@));
                if all.len() == 2 {
                    assert(all.skip(1).len() == 1);
                    assert(all.skip(1)[0] == all[1]);
                }
                if all.skip(1).len() >= 2 {
                    assert(all.skip(1)[0] == all[1]);
                    assert(all.skip(1)[1] == all[2]);
                }
                assert(all.skip(1).len() >= 1);
                assert(node_built_from(ctx.tables@, child, built0, *n));
            }
        }
        r
    } else {
        proof {
            lemma_op_names_distinct();
            if wf {
                assert(false);
            }
        }
        Err(AlgebraParseError::Parse(name))
    }
}

} // verus!
