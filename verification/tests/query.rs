use arky::data::{Data, Payload};
use arky::db::{Database, DatabaseConfig};
use arky::edge::EdgeItem;
use arky::entity::EntityItem;
use arky::id::NodeID;
use arky::node::{NodeRecord, Prop};
use arky::query::QueryBuilder;

fn fresh_db() -> Database {
    let config = DatabaseConfig {
        path: String::from("test_db"),
        set_error_if_exists: false,
        create_if_missing: true,
        create_missing_column_families: true,
    };
    Database::new(String::from("memory"), &config).unwrap()
}

fn city_user(id: u64, city: &str) -> NodeRecord {
    NodeRecord {
        id: NodeID(id),
        entity_name: String::from("User"),
        props: vec![
            Prop { name: String::from("kind"), value: Payload::Text(String::from("User")) },
            Prop { name: String::from("city"), value: Payload::Text(String::from(city)) },
        ],
    }
}

fn city_db() -> Database {
    let mut db = fresh_db();
    let mut entity = EntityItem::new(String::from("User"));
    entity.declare_index("city");
    db.insert_entity(&entity).unwrap();
    db.insert_node(&city_user(1, "NY")).unwrap();
    db.insert_node(&city_user(2, "NY")).unwrap();
    db.insert_node(&city_user(3, "LA")).unwrap();
    db
}

fn link(db: &mut Database, from: u64, to: u64) {
    let edge = EdgeItem {
        label: String::from("knows"),
        from: NodeID(from),
        to: NodeID(to),
        data: Data::Empty,
    };
    db.insert_edge(&edge).unwrap();
}

#[test]
fn by_index_returns_bucket_in_insertion_order() {
    let db = city_db();
    let ex = QueryBuilder::new(&db)
        .by_index("city", Payload::Text(String::from("NY")))
        .build()
        .unwrap();
    let records = ex.exec().unwrap();
    assert_eq!(records.len(), 2);
    assert_eq!(records[0].id, NodeID(1));
    assert_eq!(records[1].id, NodeID(2));

    let la = QueryBuilder::new(&db)
        .by_index("city", Payload::Text(String::from("LA")))
        .build()
        .unwrap();
    assert_eq!(la.count().unwrap(), 1);
    assert_eq!(la.exec().unwrap()[0].id, NodeID(3));
}

#[test]
fn short_path_returns_minimum_hop_path() {
    let mut db = city_db();
    link(&mut db, 1, 2);
    link(&mut db, 2, 3);
    let ex = QueryBuilder::new(&db).short_path(&NodeID(1), &NodeID(3)).build().unwrap();
    assert_eq!(ex.result, vec![NodeID(1), NodeID(2), NodeID(3)]);

    // A direct shortcut wins over the longer route.
    link(&mut db, 1, 3);
    let ex2 = QueryBuilder::new(&db).short_path(&NodeID(1), &NodeID(3)).build().unwrap();
    assert_eq!(ex2.result, vec![NodeID(1), NodeID(3)]);
}

#[test]
fn short_path_between_disconnected_nodes_fails() {
    let mut db = city_db();
    link(&mut db, 1, 2);
    // Node 3 is unreachable from node 1; cycles must not hang the search.
    link(&mut db, 2, 1);
    let err = QueryBuilder::new(&db)
        .short_path(&NodeID(1), &NodeID(3))
        .build()
        .map(|ex| ex.result.len())
        .unwrap_err();
    assert!(err.is_not_found());
    assert_eq!(err, arky::db::DBError::PathNotFoundError { from: NodeID(1), to: NodeID(3) });
}

#[test]
fn by_id_seeds_the_query() {
    let db = city_db();
    let ex = QueryBuilder::new(&db).by_id(&NodeID(2)).build().unwrap();
    let records = ex.exec().unwrap();
    assert_eq!(records.len(), 1);
    assert_eq!(records[0].id, NodeID(2));

    let absent = QueryBuilder::new(&db).by_id(&NodeID(99)).build().unwrap();
    assert_eq!(absent.count().unwrap(), 0);
}

#[test]
fn predicates_are_and_combined() {
    let db = city_db();
    let ex = QueryBuilder::new(&db)
        .by_entity_name(String::from("User"))
        .filter_by_prop("city", Payload::Text(String::from("NY")))
        .build()
        .unwrap();
    assert_eq!(ex.count().unwrap(), 2);

    let none = QueryBuilder::new(&db)
        .by_id(&NodeID(3))
        .filter_by_prop("city", Payload::Text(String::from("NY")))
        .build()
        .unwrap();
    assert_eq!(none.count().unwrap(), 0);
}

#[test]
fn edge_predicates_follow_the_relation() {
    let mut db = city_db();
    link(&mut db, 1, 2);
    link(&mut db, 1, 3);

    // Nodes an edge leads to from node 1.
    let from1 = QueryBuilder::new(&db).by_edge_from(&NodeID(1)).build().unwrap();
    let mut got: Vec<u64> = from1.exec().unwrap().iter().map(|r| r.id.0).collect();
    got.sort();
    assert_eq!(got, vec![2, 3]);

    // Nodes an edge leads from into node 3.
    let to3 = QueryBuilder::new(&db).by_edge_to(&NodeID(3)).build().unwrap();
    assert_eq!(to3.exec().unwrap()[0].id, NodeID(1));

    let labeled = QueryBuilder::new(&db).by_edge_label("knows").build().unwrap();
    assert_eq!(labeled.count().unwrap(), 3);

    let unlabeled = QueryBuilder::new(&db).by_edge_label("hates").build().unwrap();
    assert_eq!(unlabeled.count().unwrap(), 0);
}

#[test]
fn sort_limit_skip_count() {
    let db = city_db();
    let ex = QueryBuilder::new(&db)
        .by_entity_name(String::from("User"))
        .build()
        .unwrap()
        .sort_by_prop("city");
    // "LA" sorts before "NY"; equal keys keep their seed order.
    assert_eq!(ex.result, vec![NodeID(3), NodeID(1), NodeID(2)]);

    let limited = QueryBuilder::new(&db)
        .by_entity_name(String::from("User"))
        .build()
        .unwrap()
        .limit(2);
    assert_eq!(limited.count().unwrap(), 2);

    let skipped = QueryBuilder::new(&db)
        .by_entity_name(String::from("User"))
        .build()
        .unwrap()
        .skip(2);
    assert_eq!(skipped.count().unwrap(), 1);

    let beyond = QueryBuilder::new(&db)
        .by_entity_name(String::from("User"))
        .build()
        .unwrap()
        .skip(9);
    assert_eq!(beyond.count().unwrap(), 0);
}
