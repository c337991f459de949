use arky::data::Payload;
use arky::db::{Database, DatabaseConfig, DBError};
use arky::edge::EdgeItem;
use arky::entity::EntityItem;
use arky::id::NodeID;
use arky::node::{NodeRecord, Prop};
use arky::storage::{ArkyDB, MemStorage, Storage};
use arky::text::format_entity;

fn config() -> DatabaseConfig {
    DatabaseConfig {
        path: String::from("test_db"),
        set_error_if_exists: false,
        create_if_missing: true,
        create_missing_column_families: true,
    }
}

fn create_storage() -> MemStorage {
    MemStorage::open(config())
}

fn fresh_db() -> Database {
    Database::new(String::from("memory"), &config()).unwrap()
}

fn user(id: u64, name: &str, age: u64) -> NodeRecord {
    NodeRecord {
        id: NodeID(id),
        entity_name: format_entity("User"),
        props: vec![
            Prop { name: String::from("name"), value: Payload::Text(String::from(name)) },
            Prop { name: String::from("age"), value: Payload::Uint(age) },
        ],
    }
}

#[test]
fn init_db_with_storage() {
    let storage = create_storage();
    let db_handle = ArkyDB::init(&storage).unwrap();
    assert_eq!(db_handle.key(), "memory");

    let mut db = fresh_db();
    let user1 = user(31, "John", 20);
    let user2 = user(32, "Jane", 20);

    db.insert_node(&user1).ok();
    db.insert_node(&user2).ok();

    let found_user1 = db.get_node(user1.id).unwrap();
    let found_user2 = db.get_node(user2.id).unwrap();

    assert_eq!(found_user1.id, user1.id);
    assert_eq!(found_user1.get_prop("name").unwrap(), &Payload::Text(String::from("John")));
    assert_eq!(found_user2.id, user2.id);
    assert_eq!(found_user2.get_prop("name").unwrap(), &Payload::Text(String::from("Jane")));

    let entity_name = user1.entity_name.clone();
    let entity = db.get_entity(&entity_name).unwrap();
    assert_eq!(entity_name, entity.name);
}

#[test]
fn insert_entity_on_db() {
    let mut db = fresh_db();
    let entity_item = EntityItem::new(String::from("User"));

    db.insert_entity(&entity_item).ok();

    let db_entity = db.get_entity("User").unwrap();
    assert_eq!(db_entity.name, "User");
}

#[test]
fn get_absent_returns_not_found() {
    let db = fresh_db();
    let node_err = db.get_node(NodeID(999)).unwrap_err();
    assert!(node_err.is_not_found());
    assert_eq!(node_err, DBError::NodeNotFoundError { key: NodeID(999) });

    let entity_err = db.get_entity("Nobody").unwrap_err();
    assert!(entity_err.is_not_found());
    assert_eq!(entity_err, DBError::EntityNotFoundError { key: String::from("Nobody") });

    let edge_err = db.get_edge(NodeID(1), NodeID(2)).unwrap_err();
    assert!(edge_err.is_not_found());
    assert_eq!(edge_err, DBError::EdgeNotFoundError { key: String::from("1:2") });
}

#[test]
fn entity_autocreated_exactly_once() {
    let mut db = fresh_db();
    let user1 = user(41, "John", 20);
    let mut user2 = user(42, "Jane", 21);
    user2.entity_name = user1.entity_name.clone();

    assert!(db.get_entity(&user1.entity_name).is_err());
    db.insert_node(&user1).unwrap();
    let created = db.get_entity(&user1.entity_name).unwrap();
    assert_eq!(created.name, user1.entity_name);
    assert_eq!(created.declared.len(), 0);

    db.insert_node(&user2).unwrap();
    let still_there = db.get_entity(&user1.entity_name).unwrap();
    assert_eq!(still_there.name, user1.entity_name);
    // One record per name: the second insert found it and created no other.
    assert_eq!(db.entities.entries.len(), 1);
}

#[test]
fn batch_insert_makes_all_visible() {
    let mut db = fresh_db();
    let a = user(51, "A", 1);
    let b = user(52, "B", 2);
    let c = user(53, "C", 3);
    db.insert_nodes(&vec![a, b, c]).unwrap();
    assert!(db.get_node(NodeID(51)).is_ok());
    assert!(db.get_node(NodeID(52)).is_ok());
    assert!(db.get_node(NodeID(53)).is_ok());
}

#[test]
fn batch_remove_takes_all_out() {
    let mut db = fresh_db();
    let a = user(51, "A", 1);
    let b = user(52, "B", 2);
    db.insert_nodes(&vec![a.clone(), b.clone()]).unwrap();
    db.remove_nodes(&vec![a, b]).unwrap();
    assert!(db.get_node(NodeID(51)).is_err());
    assert!(db.get_node(NodeID(52)).is_err());
}

#[test]
fn update_overwrites_in_place() {
    let mut db = fresh_db();
    let before = user(61, "John", 20);
    db.insert_node(&before).unwrap();
    let after = user(61, "Johnny", 21);
    db.update_node(&after).unwrap();
    let got = db.get_node(NodeID(61)).unwrap();
    assert_eq!(got.get_prop("name").unwrap(), &Payload::Text(String::from("Johnny")));

    let mut entity = EntityItem::new(String::from("Kind"));
    db.insert_entity(&entity).unwrap();
    entity.declare_index("city");
    db.update_entity(&entity).unwrap();
    assert_eq!(db.get_entity("Kind").unwrap().declared.len(), 1);
}

#[test]
fn remove_is_idempotent() {
    let mut db = fresh_db();
    let rec = user(71, "John", 20);
    db.insert_node(&rec).unwrap();
    db.remove_node(&rec).unwrap();
    assert!(db.get_node(NodeID(71)).is_err());
    // Removing again is not an error.
    db.remove_node(&rec).unwrap();

    let edge = EdgeItem {
        label: String::from("owns"),
        from: NodeID(1),
        to: NodeID(2),
        data: arky::data::Data::Empty,
    };
    db.remove_edge(&edge).unwrap();
}

#[test]
fn edge_insert_then_get() {
    let mut db = fresh_db();
    let edge = EdgeItem {
        label: String::from("owns"),
        from: NodeID(1),
        to: NodeID(2),
        data: arky::data::Data::new(Payload::Uint(2019)),
    };
    db.insert_edge(&edge).unwrap();
    let got = db.get_edge(NodeID(1), NodeID(2)).unwrap();
    assert_eq!(got, edge);

    // Same ordered pair: last write wins.
    let newer = EdgeItem {
        label: String::from("owned"),
        from: NodeID(1),
        to: NodeID(2),
        data: arky::data::Data::Empty,
    };
    db.insert_edge(&newer).unwrap();
    assert_eq!(db.get_edge(NodeID(1), NodeID(2)).unwrap(), newer);
    assert_eq!(db.edges.entries.len(), 1);
}

#[test]
fn storage_hands_out_database() {
    let mut storage = MemStorage::new(config());
    assert!(storage.use_db().is_ok());
    let other = config();
    storage.set_config(&other);
    assert!(storage.use_db().is_ok());
}
