use arky::data::{Data, Payload, PayloadKind};
use arky::edge::{Edge, EdgeError, EdgeItem, EdgeList, EdgeRef};
use arky::id::{EdgeID, NodeID};
use arky::node::Node;
use arky::text::format_entity;

struct Owns {
    pub since: u32,
}

impl Owns {
    fn new(data: Owns) -> Data {
        Data::new(Payload::Uint(data.since as u64))
    }

    fn get(data: &Data) -> Result<Owns, EdgeError> {
        match data.get(PayloadKind::Uint) {
            Ok(Payload::Uint(v)) => Ok(Owns { since: *v as u32 }),
            _ => Err(EdgeError::EdgeDataMismatch { data_type: String::from("Owns") }),
        }
    }
}

struct User {
    pub id: NodeID,
    pub name: String,
    pub age: u32,
    pub cars: EdgeRef,
}

impl Node for User {
    fn key(&self) -> NodeID {
        self.id
    }

    fn entity(&self) -> String {
        format_entity("User")
    }
}

struct Car {
    pub id: NodeID,
    pub name: String,
    pub model: String,
    pub owner: EdgeRef,
}

impl Node for Car {
    fn key(&self) -> NodeID {
        self.id
    }

    fn entity(&self) -> String {
        format_entity("Car")
    }
}

fn user_and_car(cars: &EdgeList, owner: &Edge) -> (User, Car) {
    let user = User {
        id: NodeID(11),
        name: String::from("John"),
        age: 20,
        cars: EdgeRef::new(cars),
    };
    let car = Car {
        id: NodeID(12),
        name: String::from("Ford"),
        model: String::from("Mustang"),
        owner: EdgeRef::new(owner),
    };
    (user, car)
}

#[test]
fn creating_edge() {
    let mut user_cars_edge = EdgeList::new("user_owns");
    let mut car_users_edge = Edge::new("car_owned_by");

    let (user, car) = user_and_car(&user_cars_edge, &car_users_edge);
    assert_eq!(user.name, "John");
    assert_eq!(user.age, 20);
    assert_eq!(car.name, "Ford");
    assert_eq!(car.model, "Mustang");

    let owns_data = Owns::new(Owns { since: 2019 });
    user_cars_edge.link(&user, &car, owns_data.clone());
    car_users_edge.link(&car, &user, owns_data.clone());

    let user_data = Owns::get(&user_cars_edge.items[0].data).unwrap();
    assert_eq!(user_cars_edge.label, "user_owns");
    assert_eq!(user_cars_edge.items.len(), 1);
    assert_eq!(user_cars_edge.items[0].label, "user_owns");
    assert_eq!(user_cars_edge.items[0].from, user.key());
    assert_eq!(user_cars_edge.items[0].to, car.key());
    assert_eq!(user_data.since, 2019);

    let car_users_edge_item = car_users_edge.item.as_ref().unwrap();
    let car_data = Owns::get(&car_users_edge_item.data).unwrap();
    assert_eq!(car_users_edge.label, "car_owned_by");
    assert_eq!(car_users_edge_item.label, "car_owned_by");
    assert_eq!(car_users_edge_item.from, car.key());
    assert_eq!(car_users_edge_item.to, user.key());
    assert_eq!(car_data.since, 2019);
}

#[test]
fn unlinking_edge() {
    let mut user_cars_edge = EdgeList::new("user_owns");
    let mut car_users_edge = Edge::new("car_owned_by");

    let (user, car) = user_and_car(&user_cars_edge, &car_users_edge);

    let owns_data = Owns::new(Owns { since: 2019 });
    user_cars_edge.link(&user, &car, owns_data.clone());
    car_users_edge.link(&car, &user, owns_data.clone());
    user_cars_edge.unlink(&user, &car).unwrap();
    car_users_edge.unlink();

    assert_eq!(user_cars_edge.items.len(), 0);
    assert_eq!(car_users_edge.item, None);
}

#[test]
fn edge_with_data_none() {
    let mut user_cars_edge = EdgeList::new("user_owns");
    let mut car_users_edge = Edge::new("car_owned_by");

    let (user, car) = user_and_car(&user_cars_edge, &car_users_edge);

    user_cars_edge.link(&user, &car, Data::Empty);
    car_users_edge.link(&car, &user, Data::Empty);

    assert_eq!(user_cars_edge.items[0].data, Data::Empty);
    assert_eq!(car_users_edge.item.as_ref().unwrap().data, Data::Empty);
}

#[test]
#[should_panic]
fn unlinking_on_empty_list() {
    let mut user_cars_edge = EdgeList::new("user_owns");
    let car_users_edge = Edge::new("car_owned_by");

    let (user, car) = user_and_car(&user_cars_edge, &car_users_edge);

    user_cars_edge.unlink(&user, &car).unwrap();
}

#[test]
#[should_panic]
fn unlinking_from_wrong_node_id() {
    let mut user_cars_edge = EdgeList::new("user_owns");
    let mut car_users_edge = Edge::new("car_owned_by");

    let (user, car) = user_and_car(&user_cars_edge, &car_users_edge);

    let owns_data = Owns::new(Owns { since: 2019 });
    user_cars_edge.link(&user, &car, owns_data.clone());
    car_users_edge.link(&car, &user, owns_data.clone());
    user_cars_edge
        .unlink(
            &user,
            &Car {
                id: NodeID(99),
                name: String::from("Ford"),
                model: String::from("Mustang"),
                owner: EdgeRef::new(&car_users_edge),
            },
        )
        .unwrap();
}

#[test]
fn unlink_errors_are_distinguishable() {
    let mut list = EdgeList::new("likes");
    let empty_err = list.unlink_ids(NodeID(1), NodeID(2)).unwrap_err();
    assert_eq!(empty_err, EdgeError::UnlinkFromEmptyList);

    list.link_ids(NodeID(1), NodeID(2), Data::Empty);
    let missing_err = list.unlink_ids(NodeID(1), NodeID(3)).unwrap_err();
    assert_eq!(missing_err, EdgeError::UnlinkFromInexistentNodes(NodeID(1), NodeID(3)));
}

#[test]
fn unlink_removes_exactly_the_pair() {
    let mut list = EdgeList::new("likes");
    list.link_ids(NodeID(1), NodeID(2), Data::Empty);
    list.link_ids(NodeID(1), NodeID(3), Data::Empty);
    list.link_ids(NodeID(4), NodeID(2), Data::Empty);
    list.unlink_ids(NodeID(1), NodeID(2)).unwrap();
    assert_eq!(list.items.len(), 2);
    assert_eq!(list.items[0].from, NodeID(1));
    assert_eq!(list.items[0].to, NodeID(3));
    assert_eq!(list.items[1].from, NodeID(4));
    assert_eq!(list.items[1].to, NodeID(2));
}

#[test]
fn format_key_is_deterministic() {
    assert_eq!(EdgeItem::format_key(NodeID(12), NodeID(345)).as_str(), "12:345");
    assert_eq!(EdgeItem::format_key(NodeID(0), NodeID(0)).as_str(), "0:0");
    assert_eq!(EdgeItem::format_key(NodeID(7), NodeID(7)).as_str(), "7:7");
    assert_eq!(
        EdgeItem::format_key(NodeID(u64::MAX), NodeID(1)).as_str(),
        "18446744073709551615:1"
    );
    let item = EdgeItem {
        label: String::from("owns"),
        from: NodeID(12),
        to: NodeID(345),
        data: Data::Empty,
    };
    assert_eq!(item.key().as_str(), "12:345");
}

#[test]
fn edge_item_round_trip() {
    let item = EdgeItem {
        label: String::from("owns for a while"),
        from: NodeID(12),
        to: NodeID(345),
        data: Data::new(Payload::Text(String::from("payload äöü"))),
    };
    let bytes = item.to_bytes().unwrap();
    let back = EdgeItem::from_bytes(&bytes).unwrap();
    assert_eq!(back, item);

    let default_item = EdgeItem::default();
    assert_eq!(default_item.label, "edge_item");
    let bytes2 = default_item.to_bytes().unwrap();
    assert_eq!(EdgeItem::from_bytes(&bytes2).unwrap(), default_item);
}

#[test]
fn edge_decode_rejects_garbage() {
    let garbage: Vec<u8> = vec![255, 1, 2, 3];
    assert_eq!(EdgeItem::from_bytes(&garbage).unwrap_err(), EdgeError::DeserializeError);
    let empty: Vec<u8> = Vec::new();
    assert_eq!(EdgeItem::from_bytes(&empty).unwrap_err(), EdgeError::DeserializeError);
}

#[test]
fn edge_ref_records_the_builder_id() {
    let list = EdgeList::new("user_owns").with_id(EdgeID(7));
    assert_eq!(EdgeRef::new(&list).id, EdgeID(7));
    let single = Edge::new("car_owned_by").with_id(EdgeID(9));
    assert_eq!(EdgeRef::new(&single).id, EdgeID(9));
}
