use arky::data::Payload;
use arky::db::{Database, DatabaseConfig};
use arky::entity::{EntityError, EntityItem};
use arky::id::NodeID;
use arky::node::{NodeRecord, Prop};

fn fresh_db() -> Database {
    let config = DatabaseConfig {
        path: String::from("test_db"),
        set_error_if_exists: false,
        create_if_missing: true,
        create_missing_column_families: true,
    };
    Database::new(String::from("memory"), &config).unwrap()
}

fn payload_bytes(p: &Payload) -> Vec<u8> {
    let mut out: Vec<u8> = Vec::new();
    arky::codec::write_payload(&mut out, p);
    out
}

#[test]
fn entity_round_trip() {
    let mut entity = EntityItem::new(String::from("User"));
    entity.declare_index("city");
    entity.declare_index("age");
    entity.add_to_bucket("city", payload_bytes(&Payload::Text(String::from("NY"))), NodeID(1));
    entity.add_to_bucket("city", payload_bytes(&Payload::Text(String::from("NY"))), NodeID(2));

    let bytes = entity.to_bytes().unwrap();
    let back = EntityItem::from_bytes(&bytes).unwrap();
    assert_eq!(back.name, "User");
    assert_eq!(back.declared.len(), 2);
    assert_eq!(back.declared[0], "city");
    assert_eq!(back.declared[1], "age");
    assert_eq!(back.indexes.len(), 1);
    assert_eq!(back.indexes[0].prop, "city");
    assert_eq!(back.indexes[0].ids, vec![NodeID(1), NodeID(2)]);
}

#[test]
fn entity_decode_rejects_garbage() {
    let garbage: Vec<u8> = vec![9, 9, 9];
    assert_eq!(EntityItem::from_bytes(&garbage).unwrap_err(), EntityError::DeserializeError);
}

#[test]
fn declaring_twice_keeps_one_declaration() {
    let mut entity = EntityItem::new(String::from("User"));
    entity.declare_index("city");
    entity.declare_index("city");
    assert_eq!(entity.declared.len(), 1);
}

#[test]
fn index_add_deduplicates_and_keeps_order() {
    let mut entity = EntityItem::new(String::from("User"));
    let ny = payload_bytes(&Payload::Text(String::from("NY")));
    entity.add_to_bucket("city", ny.clone(), NodeID(1));
    entity.add_to_bucket("city", ny.clone(), NodeID(2));
    entity.add_to_bucket("city", ny.clone(), NodeID(1));
    assert_eq!(entity.get_index_ids("city", &ny), vec![NodeID(1), NodeID(2)]);
    let la = payload_bytes(&Payload::Text(String::from("LA")));
    assert_eq!(entity.get_index_ids("city", &la), Vec::<NodeID>::new());
}

#[test]
fn node_removal_clears_index_buckets() {
    let mut db = fresh_db();
    let mut entity = EntityItem::new(String::from("User"));
    entity.declare_index("city");
    db.insert_entity(&entity).unwrap();

    let rec = NodeRecord {
        id: NodeID(5),
        entity_name: String::from("User"),
        props: vec![
            Prop { name: String::from("city"), value: Payload::Text(String::from("NY")) },
        ],
    };
    db.insert_node(&rec).unwrap();
    let ny = payload_bytes(&Payload::Text(String::from("NY")));
    assert_eq!(db.get_entity("User").unwrap().get_index_ids("city", &ny), vec![NodeID(5)]);

    db.remove_node(&rec).unwrap();
    assert_eq!(
        db.get_entity("User").unwrap().get_index_ids("city", &ny),
        Vec::<NodeID>::new()
    );
}

#[test]
fn changed_value_moves_the_id_between_buckets() {
    let mut db = fresh_db();
    let mut entity = EntityItem::new(String::from("User"));
    entity.declare_index("city");
    db.insert_entity(&entity).unwrap();

    let before = NodeRecord {
        id: NodeID(5),
        entity_name: String::from("User"),
        props: vec![
            Prop { name: String::from("city"), value: Payload::Text(String::from("NY")) },
        ],
    };
    db.insert_node(&before).unwrap();
    let after = NodeRecord {
        id: NodeID(5),
        entity_name: String::from("User"),
        props: vec![
            Prop { name: String::from("city"), value: Payload::Text(String::from("LA")) },
        ],
    };
    db.update_node(&after).unwrap();

    let ny = payload_bytes(&Payload::Text(String::from("NY")));
    let la = payload_bytes(&Payload::Text(String::from("LA")));
    let stored = db.get_entity("User").unwrap();
    assert_eq!(stored.get_index_ids("city", &ny), Vec::<NodeID>::new());
    assert_eq!(stored.get_index_ids("city", &la), vec![NodeID(5)]);
}
