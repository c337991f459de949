use arky::id::{IdGenerator, NodeID};
use arky::node::Node;
use arky::text::format_entity;

struct Person {
    id: NodeID,
    name: String,
    age: u8,
}

impl Node for Person {
    fn key(&self) -> NodeID {
        self.id
    }

    fn entity(&self) -> String {
        format_entity("Person")
    }
}

impl Person {
    fn new(data: Person) -> Person {
        data
    }
}

#[test]
fn test_global_id() {
    let mut generator = IdGenerator::new(1);
    let first_id = generator.generate_node_id(100).unwrap();
    let second_id = generator.generate_node_id(100).unwrap();
    let john = Person::new(Person { id: first_id, age: 30, name: String::from("John") });
    let peter = Person::new(Person { id: second_id, age: 32, name: String::from("Peter") });

    assert_eq!(john.id, first_id);
    assert_eq!(peter.id, second_id);
    assert_eq!(john.age, 30);
    assert_eq!(peter.age, 32);
}

#[test]
fn test_schema_trait_impl() {
    let mut generator = IdGenerator::new(1);
    let id = generator.generate_node_id(100).unwrap();
    let entity = Person { id, age: 30, name: String::from("John") };

    let person = Person::new(entity);
    assert_eq!(person.entity(), format_entity("Person"));
    assert_eq!(person.name, String::from("John"));
    assert_eq!(person.key(), id);
    assert_eq!(person.age, 30);
}
