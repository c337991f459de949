use arky::data::Payload;
use arky::id::NodeID;
use arky::node::{Node, NodeError, NodeRecord, Prop};
use arky::text::format_entity;

struct User {
    pub id: NodeID,
    pub name: String,
    pub age: u32,
}

impl Node for User {
    fn key(&self) -> NodeID {
        self.id
    }

    fn entity(&self) -> String {
        format_entity("User")
    }
}

fn create_user() -> User {
    User { id: NodeID(21), name: String::from("John"), age: 20 }
}

#[test]
fn creating_node() {
    let user = create_user();
    assert_eq!(user.entity(), "entity::User");
    assert_eq!(user.name, "John");
    assert_eq!(user.age, 20);
}

#[test]
fn node_record_round_trip() {
    let rec = NodeRecord {
        id: NodeID(21),
        entity_name: format_entity("User"),
        props: vec![
            Prop { name: String::from("name"), value: Payload::Text(String::from("John")) },
            Prop { name: String::from("age"), value: Payload::Uint(20) },
        ],
    };
    let bytes = rec.to_bytes().unwrap();
    let back = NodeRecord::from_bytes(&bytes).unwrap();
    assert_eq!(back.id, rec.id);
    assert_eq!(back.entity_name, rec.entity_name);
    assert_eq!(back.props.len(), 2);
    assert_eq!(back.get_prop("name").unwrap(), &Payload::Text(String::from("John")));
    assert_eq!(back.get_prop("age").unwrap(), &Payload::Uint(20));
    assert!(back.get_prop("absent").is_none());
}

#[test]
fn node_decode_rejects_truncated_input() {
    let rec = NodeRecord { id: NodeID(5), entity_name: String::from("User"), props: Vec::new() };
    let mut bytes = rec.to_bytes().unwrap();
    bytes.pop();
    assert_eq!(NodeRecord::from_bytes(&bytes).unwrap_err(), NodeError::DeserializeError);
    bytes.push(0);
    bytes.push(0);
    assert_eq!(NodeRecord::from_bytes(&bytes).unwrap_err(), NodeError::DeserializeError);
}

#[test]
fn node_record_implements_node() {
    let rec = NodeRecord { id: NodeID(9), entity_name: String::from("Thing"), props: Vec::new() };
    assert_eq!(rec.key(), NodeID(9));
    assert_eq!(rec.entity(), "Thing");
}
