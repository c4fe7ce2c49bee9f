use bitemporal_db::codec::{encode_key, encode_tuple};
use bitemporal_db::db::{import_relations, insert_encoded, query_as_of, query_latest, query_table, Db};
use bitemporal_db::ops::NamedRows;
use bitemporal_db::table::TableKind;
use bitemporal_db::validity::Validity;
use bitemporal_db::value::Value;

fn num(i: i64) -> Value {
    Value::Int(i)
}

fn text(s: &str) -> Value {
    Value::Text(s.as_bytes().to_vec())
}

fn validity(ts: i64, asserted: bool) -> Value {
    Value::List(vec![Value::Int(ts), Value::Bool(asserted)])
}

/// A database with one bitemporal relation: key `k`, validity marker, value
/// `v`.
fn validity_db() -> (Db, usize) {
    let mut db = Db::new();
    db.create_table(
        "facts".to_string(),
        TableKind::Base,
        vec!["k".to_string()],
        Some("valid".to_string()),
        vec!["v".to_string()],
        0,
        0,
    );
    (db, 0)
}

#[test]
fn time_travel_resolution() {
    let (mut db, table) = validity_db();
    // one key with versions {(0,true,"x"), (5,false), (10,true,"y")}
    import_relations(
        &mut db,
        vec![(
            "facts".to_string(),
            NamedRows {
                headers: vec!["k".to_string(), "valid".to_string(), "v".to_string()],
                rows: vec![
                    vec![num(1), validity(0, true), text("x")],
                    vec![num(1), validity(5, false), text("")],
                    vec![num(1), validity(10, true), text("y")],
                ],
            },
        )],
    )
    .unwrap();
    let key = vec![num(1)];
    // at time 3 the version of time 0 is visible
    assert_eq!(
        query_as_of(&db, table, &key, 3).unwrap(),
        Some(vec![text("x")])
    );
    // at time 7 the retraction of time 5 holds: absent
    assert_eq!(query_as_of(&db, table, &key, 7).unwrap(), None);
    // at time 12 the assertion of time 10 is visible
    assert_eq!(
        query_as_of(&db, table, &key, 12).unwrap(),
        Some(vec![text("y")])
    );
    // before any version: absent
    assert_eq!(query_as_of(&db, table, &key, -1).unwrap(), None);
    // the default query time is the unbounded future: the latest version
    assert_eq!(query_latest(&db, table, &key).unwrap(), Some(vec![text("y")]));
}

#[test]
fn bulk_import_plain_table() {
    let mut db = Db::new();
    db.create_table(
        "plain".to_string(),
        TableKind::Base,
        vec!["k".to_string()],
        None,
        vec!["v".to_string()],
        0,
        0,
    );
    let rows: Vec<Vec<Value>> = (0..10).map(|i| vec![num(i), num(i)]).collect();
    import_relations(
        &mut db,
        vec![(
            "plain".to_string(),
            NamedRows { headers: vec!["k".to_string(), "v".to_string()], rows },
        )],
    )
    .unwrap();
    let out = query_table(&db, &"plain".to_string()).unwrap();
    assert_eq!(out.rows.len(), 10);
    for row in &out.rows {
        assert_eq!(row.len(), 2);
        assert_eq!(row[0], row[1]);
    }
}

#[test]
fn import_into_missing_table_changes_nothing() {
    let mut db = Db::new();
    db.create_table(
        "plain".to_string(),
        TableKind::Base,
        vec!["k".to_string()],
        None,
        vec!["v".to_string()],
        0,
        0,
    );
    let r = import_relations(
        &mut db,
        vec![
            (
                "plain".to_string(),
                NamedRows {
                    headers: vec!["k".to_string(), "v".to_string()],
                    rows: vec![vec![num(1), num(1)]],
                },
            ),
            (
                "missing".to_string(),
                NamedRows { headers: vec![], rows: vec![] },
            ),
        ],
    );
    assert!(r.is_err());
    // all or nothing: the first relation's rows are gone too
    let out = query_table(&db, &"plain".to_string()).unwrap();
    assert_eq!(out.rows.len(), 0);
}

#[test]
fn value_error_on_malformed_validity_literal() {
    let (mut db, _) = validity_db();
    let r = import_relations(
        &mut db,
        vec![(
            "facts".to_string(),
            NamedRows {
                headers: vec!["k".to_string(), "valid".to_string(), "v".to_string()],
                rows: vec![vec![num(1), num(3), text("x")]],
            },
        )],
    );
    match r {
        Err(bitemporal_db::db::DbError::Algebra(
            bitemporal_db::parser::AlgebraParseError::ValueError(v),
        )) => assert_eq!(v, num(3)),
        other => panic!("expected ValueError, got {:?}", other),
    }
}

#[test]
fn scale_point_query_uses_one_bounded_seek() {
    // 10000 keys x 100 versions = 1,000,000 stored versions; an "as of"
    // point query answers by one binary search, not a scan of the versions.
    let (mut db, table) = validity_db();
    let tid = db.tables[table].id;
    for k in 0..10000i64 {
        let key = encode_key(tid, &vec![num(k)]);
        for ts in 0..100i64 {
            let mut value = Vec::new();
            encode_tuple(&vec![num(k * 1000 + ts)], &mut value);
            insert_encoded(
                &mut db.storage,
                key.clone(),
                Some(Validity { ts, asserted: true }),
                value,
                true,
            )
            .unwrap();
        }
    }
    for k in [0i64, 17, 4567, 9999] {
        let key = vec![num(k)];
        // as of time 55, the version written at 55 is the visible one
        assert_eq!(
            query_as_of(&db, table, &key, 55).unwrap(),
            Some(vec![num(k * 1000 + 55)])
        );
        // far in the future, the last version wins
        assert_eq!(
            query_as_of(&db, table, &key, i64::MAX).unwrap(),
            Some(vec![num(k * 1000 + 99)])
        );
        // before the first version, the key is absent
        assert_eq!(query_as_of(&db, table, &key, -1).unwrap(), None);
    }
}
