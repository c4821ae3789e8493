use dht::GenericAPI;
use std::cell::Cell;

use dht::service::FindResult;
use dht::Address;
use dht::GenericNodeTable;
use dht::KNodeTable;
use dht::Node;
use dht::Service;

type IdType = Vec<u8>;

fn make_id(i: u8) -> IdType {
    vec![i]
}

fn new_node(id: IdType) -> Node<IdType, Address> {
    Node { id, address: Address::new(127, 0, 0, 1, 8008) }
}

struct DummyNodeTable {
    pub node: Option<Node<IdType, Address>>,
}

impl GenericNodeTable<IdType, Address> for DummyNodeTable {
    fn random_id(&self) -> IdType {
        make_id(42)
    }

    fn update(&mut self, node: &Node<IdType, Address>) -> bool {
        match self.node {
            Some(..) => false,
            None => {
                self.node = Some(node.clone());
                true
            },
        }
    }

    fn find(&self, id: &IdType, _count: usize) -> Vec<Node<IdType, Address>> {
        if let Some(ref node) = self.node {
            if node.id == *id {
                vec![node.clone()]
            } else {
                vec![]
            }
        } else {
            vec![]
        }
    }

    fn pop_oldest(&mut self) -> Vec<Node<IdType, Address>> {
        let result;
        if let Some(ref node) = self.node {
            result = vec![node.clone()];
        } else {
            result = vec![];
        }
        self.node = None;
        result
    }
}

#[test]
fn service_test_new() {
    let node_table = DummyNodeTable { node: None };
    let mut svc: Service<IdType, Address, DummyNodeTable, String> = Service::new(node_table);

    assert_eq!(make_id(42), *svc.node_id());
    assert!(svc.node_table().node.is_none());
    assert!(svc.node_table_mut().node.is_none());
    assert!(!svc.clean_needed());
}

#[test]
fn test_find_saves_node() {
    let node_table = DummyNodeTable { node: None };
    let mut svc: Service<IdType, Address, DummyNodeTable, String> = Service::new(node_table);
    let node = new_node(make_id(43));

    assert!(svc.handler.on_find_node(&node, &node.id).is_empty());
    let result = svc.handler.on_find_node(&node, &node.id);
    assert_eq!(1, result.len());
    assert_eq!(make_id(43), result.get(0).unwrap().id)
}

#[test]
fn test_ping_find_clean() {
    let node_table = DummyNodeTable { node: None };
    let mut svc: Service<IdType, Address, DummyNodeTable, String> = Service::new(node_table);
    let node = new_node(make_id(43));

    assert!(svc.handler.on_ping(&node));
    assert_eq!(make_id(43), svc.node_table().node.as_ref().unwrap().id);
    assert!(!svc.clean_needed());

    assert!(svc.handler.on_ping(&new_node(make_id(44))));
    assert_eq!(make_id(43), svc.node_table().node.as_ref().unwrap().id);
    assert!(svc.clean_needed());

    let mut result = svc.handler.on_find_node(&node, &node.id);
    assert_eq!(1, result.len());
    assert_eq!(make_id(43), result.get(0).unwrap().id);

    let flag = Cell::new(false);
    svc.clean_up(|node| {
        assert_eq!(make_id(43), node.id);
        flag.set(true);
        true
    });
    assert!(flag.get());
    assert!(!svc.clean_needed());

    result = svc.handler.on_find_node(&node, &node.id);
    assert_eq!(1, result.len());
    assert_eq!(make_id(43), result.get(0).unwrap().id);

    flag.set(false);
    svc.clean_up(|node| {
        assert_eq!(make_id(43), node.id);
        flag.set(true);
        false
    });
    assert!(flag.get());
    assert!(!svc.clean_needed());
    assert!(svc.handler.on_find_node(&node, &node.id).is_empty());
}

#[test]
fn test_ping_find_value() {
    let node_table = DummyNodeTable { node: None };
    let mut svc: Service<IdType, Address, DummyNodeTable, String> = Service::new(node_table);
    let node = new_node(make_id(43));
    let id1: IdType = make_id(44);
    let id2: IdType = make_id(43);

    svc.handler.on_ping(&node);
    svc.stored_data_mut().insert(id1.clone(), "foobar".to_string());

    {
        let res1 = svc.handler.on_find_value(&node, &id1);
        match res1 {
            FindResult::Value(value) => assert_eq!("foobar", value),
            _ => panic!("wrong result {:?}", res1),
        }
    }

    {
        let res2 = svc.handler.on_find_value(&node, &id2);
        match res2 {
            FindResult::ClosestNodes(nodes) => assert_eq!(1, nodes.len()),
            _ => panic!("wrong result {:?}", res2),
        }
    }
}

#[test]
fn test_ping_then_find_includes_node() {
    // Against the real table: a node that was pinged shows up in a
    // subsequent find for its own ID.
    let table = KNodeTable::<IdType, Address>::new(make_id(42));
    let mut svc: Service<IdType, Address, KNodeTable<IdType, Address>, String> =
        Service::new_with_id(table, make_id(42));
    let node = new_node(make_id(41));
    assert!(svc.handler.on_ping(&node));
    let found = svc.handler.on_find_node(&node, &make_id(41));
    assert!(found.iter().any(|n| n.id == make_id(41)));
}

#[test]
fn test_clean_needed_transitions() {
    // clean_needed rises exactly on the first rejected update and falls
    // only after a clean-up pass.
    let table = KNodeTable::<IdType, Address>::new_with_details(make_id(42), 1, 160);
    let mut svc: Service<IdType, Address, KNodeTable<IdType, Address>, String> =
        Service::new_with_id(table, make_id(42));
    assert!(!svc.clean_needed());
    // 42 xor 41 = 3 and 42 xor 40 = 2 share bucket 1, of capacity 1
    assert!(svc.handler.on_ping(&new_node(make_id(41))));
    assert!(!svc.clean_needed());
    assert!(svc.handler.on_ping(&new_node(make_id(40))));
    assert!(svc.clean_needed());
    svc.clean_up(|_| true);
    assert!(!svc.clean_needed());
}

struct DummyAPI {
    value: Option<i32>,
}

impl dht::GenericAPI<IdType, Address> for DummyAPI {
    type TValue = i32;

    fn ping<F: FnOnce(&Node<IdType, Address>, bool)>(
        &mut self,
        node: &Node<IdType, Address>,
        callback: F,
    ) {
        callback(node, true);
    }

    fn find_node<F: FnOnce(Vec<Node<IdType, Address>>)>(&mut self, _id: &IdType, callback: F) {
        callback(vec![]);
    }

    fn find_value<F: FnOnce(Option<i32>, Vec<Node<IdType, Address>>)>(
        &mut self,
        _id: &IdType,
        callback: F,
    ) {
        callback(self.value, vec![]);
    }

    fn store(&mut self, _node: &Node<IdType, Address>, _id: &IdType, value: i32) {
        self.value = Some(value);
    }
}

#[test]
fn test_generic_api() {
    let mut api = DummyAPI { value: None };
    let n = new_node(make_id(42));
    api.ping(&n, |_node, res| {
        assert!(res);
    });
}

#[test]
fn test_store_insert_get_remove() {
    let mut store = dht::store::KeyValueStore::<IdType, String>::new();
    assert!(store.get(&make_id(1)).is_none());
    assert!(store.insert(make_id(1), "one".to_string()).is_none());
    assert_eq!(Some(&"one".to_string()), store.get(&make_id(1)));
    assert_eq!(Some("one".to_string()), store.insert(make_id(1), "uno".to_string()));
    assert_eq!(Some(&"uno".to_string()), store.get(&make_id(1)));
    assert_eq!(Some("uno".to_string()), store.remove(&make_id(1)));
    assert!(store.get(&make_id(1)).is_none());
    assert!(store.remove(&make_id(1)).is_none());
}
