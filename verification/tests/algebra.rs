use bitemporal_db::db::{
    find_table, import_relations, query_table, resolve_table_id, run_statement, Db, DbError,
};
use bitemporal_db::ops::{NamedRows, RaNode};
use bitemporal_db::parser::{assert_rule, build_relational_expr, AlgebraParseError, Pair, Rule};
use bitemporal_db::table::TableKind;
use bitemporal_db::value::Value;

fn leaf(rule: Rule, text: &str) -> Pair {
    Pair { rule, text: text.to_string(), children: vec![], literal: None }
}

fn ident(text: &str) -> Pair {
    leaf(Rule::Ident, text)
}

fn lit(v: Value) -> Pair {
    Pair { rule: Rule::ValueLiteral, text: String::new(), children: vec![], literal: Some(v) }
}

fn headers(names: &[&str]) -> Pair {
    Pair {
        rule: Rule::HeaderList,
        text: String::new(),
        children: names.iter().map(|n| ident(n)).collect(),
        literal: None,
    }
}

fn row(vals: Vec<Value>) -> Pair {
    Pair {
        rule: Rule::RowLiteral,
        text: String::new(),
        children: vals.into_iter().map(lit).collect(),
        literal: None,
    }
}

fn rows(rs: Vec<Vec<Value>>) -> Pair {
    Pair {
        rule: Rule::RowList,
        text: String::new(),
        children: rs.into_iter().map(row).collect(),
        literal: None,
    }
}

fn op(name: &str, args: Vec<Pair>) -> Pair {
    let mut children = vec![leaf(Rule::OpName, name)];
    children.extend(args);
    Pair { rule: Rule::OpApply, text: String::new(), children, literal: None }
}

fn expr(ops: Vec<Pair>) -> Pair {
    Pair { rule: Rule::ExprAll, text: String::new(), children: ops, literal: None }
}

fn aliased(alias: &str, table: &str) -> Pair {
    Pair {
        rule: Rule::AliasedTable,
        text: String::new(),
        children: vec![ident(alias), ident(table)],
        literal: None,
    }
}

fn num(i: i64) -> Value {
    Value::Int(i)
}

fn text(s: &str) -> Value {
    Value::Text(s.as_bytes().to_vec())
}

/// A database with the schema the parser tests run against: a department
/// table, employees and dependents, and the association between the latter
/// two.
fn test_db() -> Db {
    let mut db = Db::new();
    db.create_table(
        "Department".to_string(),
        TableKind::Base,
        vec!["id".to_string()],
        None,
        vec!["name".to_string()],
        0,
        0,
    );
    let emp = db.create_table(
        "Employee".to_string(),
        TableKind::Base,
        vec!["id".to_string()],
        None,
        vec!["name".to_string()],
        0,
        0,
    );
    let dep = db.create_table(
        "Dependent".to_string(),
        TableKind::Base,
        vec!["id".to_string()],
        None,
        vec!["name".to_string()],
        0,
        0,
    );
    db.create_table(
        "HasDependent".to_string(),
        TableKind::Edge,
        vec!["eid".to_string(), "did".to_string()],
        None,
        vec![],
        emp,
        dep,
    );
    db.create_table(
        "DeptIdx".to_string(),
        TableKind::Index,
        vec!["name".to_string()],
        None,
        vec!["id".to_string()],
        0,
        0,
    );
    db
}

#[test]
fn parse_ra() {
    let _store_path = "_test_parser.db";
    let mut db = test_db();

    // Values(v: [id, name], [[100, 'confidential'], [101, 'top secret']])
    //   .Upsert(Department, d: {...v})
    let ast = expr(vec![
        op(
            "Values",
            vec![
                headers(&["id", "name"]),
                rows(vec![
                    vec![num(100), text("confidential")],
                    vec![num(101), text("top secret")],
                ]),
            ],
        ),
        op("Upsert", vec![ident("Department")]),
    ]);
    let out = run_statement(&mut db, ast).expect("the chain must build and run");
    assert_eq!(out.rows.len(), 2);

    // the statement "UpsertTagged({})": tagged upsert of an empty record set
    let ast = expr(vec![op("UpsertTagged", vec![])]);
    let out = run_statement(&mut db, ast).expect("an empty tagged upsert succeeds");
    assert_eq!(out.rows.len(), 0);

    // the statement "From(e:HasDependent)": a scan of the association table
    let ast = expr(vec![op("From", vec![aliased("e", "HasDependent")])]);
    let out = run_statement(&mut db, ast).expect("the scan must run");
    assert_eq!(out.rows.len(), 0);

    // the upserted literal rows are now visible
    let dept = query_table(&db, &"Department".to_string()).unwrap();
    assert_eq!(dept.rows.len(), 2);
    assert_eq!(dept.rows[0], vec![num(100), text("confidential")]);
    assert_eq!(dept.rows[1], vec![num(101), text("top secret")]);
}

#[test]
fn chain_starting_with_upsert_is_unchainable() {
    let mut db = test_db();
    let ast = expr(vec![op("Upsert", vec![ident("Department")])]);
    match run_statement(&mut db, ast) {
        Err(DbError::Algebra(AlgebraParseError::Unchainable(name))) => {
            assert_eq!(name, "Upsert");
        }
        other => panic!("expected Unchainable, got {:?}", other),
    }
    let ast = expr(vec![op("Insert", vec![ident("Department")])]);
    assert!(matches!(
        run_statement(&mut db, ast),
        Err(DbError::Algebra(AlgebraParseError::Unchainable(_)))
    ));
}

#[test]
fn values_then_upsert_writes_exactly_the_literal_rows() {
    let mut db = test_db();
    let ast = expr(vec![
        op(
            "Values",
            vec![headers(&["id", "name"]), rows(vec![vec![num(7), text("ops")]])],
        ),
        op("Upsert", vec![ident("Department")]),
    ]);
    run_statement(&mut db, ast).unwrap();
    let dept = query_table(&db, &"Department".to_string()).unwrap();
    assert_eq!(dept.rows, vec![vec![num(7), text("ops")]]);
}

#[test]
fn insert_conflict_and_upsert_overwrite() {
    let mut db = test_db();
    let values_then = |verb: &str, id: i64, name: &str| {
        expr(vec![
            op(
                "Values",
                vec![headers(&["id", "name"]), rows(vec![vec![num(id), text(name)]])],
            ),
            op(verb, vec![ident("Department")]),
        ])
    };
    run_statement(&mut db, values_then("Insert", 1, "first")).unwrap();
    // inserting the same key again fails KeyConflict on the second insert
    match run_statement(&mut db, values_then("Insert", 1, "second")) {
        Err(DbError::Algebra(AlgebraParseError::KeyConflict(t))) => {
            assert!(t.get_prefix().is_some());
        }
        other => panic!("expected KeyConflict, got {:?}", other),
    }
    // the failed statement left the first value in place
    let dept = query_table(&db, &"Department".to_string()).unwrap();
    assert_eq!(dept.rows, vec![vec![num(1), text("first")]]);
    // upserting twice succeeds and the second value wins
    run_statement(&mut db, values_then("Upsert", 1, "second")).unwrap();
    run_statement(&mut db, values_then("Upsert", 1, "third")).unwrap();
    let dept = query_table(&db, &"Department".to_string()).unwrap();
    assert_eq!(dept.rows, vec![vec![num(1), text("third")]]);
}

#[test]
fn join_follows_the_declared_association() {
    let mut db = test_db();
    let fill = |db: &mut Db, table: &str, id: i64, name: &str| {
        let ast = expr(vec![
            op(
                "Values",
                vec![headers(&["id", "name"]), rows(vec![vec![num(id), text(name)]])],
            ),
            op("Upsert", vec![ident(table)]),
        ]);
        run_statement(db, ast).unwrap();
    };
    fill(&mut db, "Employee", 1, "ada");
    fill(&mut db, "Dependent", 9, "sam");
    let ast = expr(vec![
        op(
            "Values",
            vec![headers(&["eid", "did"]), rows(vec![vec![num(1), num(9)]])],
        ),
        op("Upsert", vec![ident("HasDependent")]),
    ]);
    // HasDependent is an edge, not a base table: chained writes refuse it
    assert!(matches!(
        run_statement(&mut db, ast),
        Err(DbError::Algebra(AlgebraParseError::WrongTableKind(_)))
    ));
    // import fills the association instead
    import_relations(
        &mut db,
        vec![(
            "HasDependent".to_string(),
            NamedRows { headers: vec!["eid".to_string(), "did".to_string()], rows: vec![vec![num(1), num(9)]] },
        )],
    )
    .unwrap();
    let ast = expr(vec![op(
        "From",
        vec![aliased("e", "Employee"), aliased("d", "Dependent")],
    )]);
    let out = run_statement(&mut db, ast).unwrap();
    assert_eq!(out.rows, vec![vec![num(1), text("ada"), num(9), text("sam")]]);
}

#[test]
fn error_no_association() {
    let mut db = test_db();
    // no edge links Dependent to Employee in that direction
    let ast = expr(vec![op(
        "From",
        vec![aliased("d", "Dependent"), aliased("e", "Employee")],
    )]);
    assert!(matches!(
        run_statement(&mut db, ast),
        Err(DbError::Algebra(AlgebraParseError::NoAssociation(_, _)))
    ));
}

#[test]
fn error_table_not_found() {
    let mut db = test_db();
    let ast = expr(vec![op("From", vec![aliased("x", "Nowhere")])]);
    match run_statement(&mut db, ast) {
        Err(DbError::Algebra(AlgebraParseError::TableNotFound(n))) => assert_eq!(n, "Nowhere"),
        other => panic!("expected TableNotFound, got {:?}", other),
    }
}

#[test]
fn error_wrong_table_kind_for_scan() {
    let mut db = test_db();
    // an index where a base table or edge is required
    let ast = expr(vec![op("From", vec![aliased("i", "DeptIdx")])]);
    match run_statement(&mut db, ast) {
        Err(DbError::Algebra(AlgebraParseError::WrongTableKind(t))) => {
            assert_eq!(t.name, "DeptIdx");
        }
        other => panic!("expected WrongTableKind, got {:?}", other),
    }
}

#[test]
fn error_wrong_argument_type() {
    let p = ident("x");
    match assert_rule(&p, Rule::HeaderList, "Values", 1) {
        Err(AlgebraParseError::WrongArgumentType(name, pos, got)) => {
            assert_eq!(name, "Values");
            assert_eq!(pos, 1);
            assert_eq!(got, "Ident");
        }
        other => panic!("expected WrongArgumentType, got {:?}", other),
    }
    assert!(assert_rule(&p, Rule::Ident, "Values", 1).is_ok());
}

#[test]
fn error_not_enough_arguments() {
    let db = test_db();
    // a row shorter than its header list
    let ast = expr(vec![op(
        "Values",
        vec![headers(&["id", "name"]), rows(vec![vec![num(1)]])],
    )]);
    assert!(matches!(
        build_relational_expr(&db, ast),
        Err(AlgebraParseError::NotEnoughArguments(_))
    ));
}

#[test]
fn error_parse_unknown_operator() {
    let db = test_db();
    let ast = expr(vec![op("Frobnicate", vec![])]);
    match build_relational_expr(&db, ast) {
        Err(AlgebraParseError::Parse(n)) => assert_eq!(n, "Frobnicate"),
        other => panic!("expected Parse, got {:?}", other),
    }
}

#[test]
fn error_table_id_not_found() {
    let db = test_db();
    match resolve_table_id(&db, 999) {
        Err(AlgebraParseError::TableIdNotFound(t)) => assert_eq!(t.id, 999),
        other => panic!("expected TableIdNotFound, got {:?}", other),
    }
    let i = resolve_table_id(&db, 1).unwrap();
    assert_eq!(db.tables[i].id, 1);
}

#[test]
fn build_yields_the_operator_tree() {
    let db = test_db();
    let ast = expr(vec![
        op(
            "Values",
            vec![headers(&["id", "name"]), rows(vec![vec![num(1), text("a")]])],
        ),
        op("Upsert", vec![ident("Department")]),
    ]);
    match build_relational_expr(&db, ast).unwrap() {
        RaNode::Insert { upsert, table, prev } => {
            assert!(upsert);
            assert_eq!(find_table(&db, &"Department".to_string()), Some(table));
            assert!(matches!(*prev, RaNode::Values { .. }));
        }
        other => panic!("expected an insertion root, got {:?}", other),
    }
}
