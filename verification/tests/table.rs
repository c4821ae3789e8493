use dht::knodetable::DEFAULT_HASH_SIZE;
use dht::Address;
use dht::GenericId;
use dht::GenericNodeTable;
use dht::KBucket;
use dht::KNodeTable;
use dht::Node;

type IdType = Vec<u8>;

fn make_id(i: u8) -> IdType {
    vec![i]
}

fn new_node(id: IdType) -> Node<IdType, Address> {
    Node { id, address: Address::new(127, 0, 0, 1, 8008) }
}

fn prepare(count: u8) -> KBucket<IdType, Address> {
    let mut b = KBucket::new(3);
    for i in 0..count {
        assert!(b.update(&new_node(make_id(i))));
    }
    b
}

fn new_node_u64(id: u64) -> Node<u64, Address> {
    Node { id, address: Address::new(127, 0, 0, 1, 80) }
}

fn prepare_u64(count: u64) -> KBucket<u64, Address> {
    let mut b = KBucket::new(3);
    for i in 0..count {
        assert!(b.update(&new_node_u64(i)));
    }
    b
}

fn assert_node_list_eq(expected: &[IdType], actual: &Vec<Node<IdType, Address>>) {
    let act: Vec<IdType> = actual.iter().map(|n| n.id.clone()).collect();
    assert_eq!(expected.to_vec(), act);
}

#[test]
fn kademlia_test_kbucket_new() {
    let b = KBucket::<u64, Address>::new(3);
    assert_eq!(0, b.data().len());
    assert_eq!(3, b.size());
}

#[test]
fn kademlia_test_kbucket_update_unknown() {
    let mut b = prepare_u64(1);
    let node = new_node_u64(42);
    assert!(b.update(&node));
    assert_eq!(2, b.data().len());
    assert_eq!(node.id, b.data()[1].id);
}

#[test]
fn kademlia_test_kbucket_update_known() {
    let mut b = prepare_u64(2);
    let node = new_node_u64(0);
    assert!(b.update(&node));
    assert_eq!(2, b.data().len());
    assert_eq!(node.id, b.data()[1].id);
}

#[test]
fn kademlia_test_kbucket_update_conflict() {
    let mut b = prepare_u64(3);
    let node = new_node_u64(42);
    assert!(!b.update(&node))
}

#[test]
fn kademlia_test_kbucket_find() {
    let b = prepare_u64(3);
    // Nodes with IDs 0, 1, 2; assume our ID is also 2 (impossible IRL)
    // 0 xor 2 = 2, 1 xor 2 = 3, 2 xor 2 = 0
    let found = b.find(&2, 1);
    assert_eq!(1, found.len());
    assert_eq!(2, found[0].id);
    let found2 = b.find(&2, 2);
    assert_eq!(2, found2.len());
    assert_eq!(2, found2[0].id);
    assert_eq!(0, found2[1].id);
}

#[test]
fn knodetable_test_nodetable_new() {
    let n = KNodeTable::<u64, Address>::new(42);
    assert_eq!(DEFAULT_HASH_SIZE, n.buckets().len());
}

#[test]
fn knodetable_test_nodetable_bucket_number() {
    let n = KNodeTable::<u64, Address>::new(42);
    let id = 41;
    // 42 xor 41 == 3
    assert_eq!(1, n.bucket_number(&id));
}

#[test]
fn test_nodetable_pop_oldest() {
    let mut n = KNodeTable::<IdType, Address>::new_with_details(
        make_id(42),
        2,
        DEFAULT_HASH_SIZE,
    );
    let mut lengths = vec![0; DEFAULT_HASH_SIZE];

    n.update(&new_node(make_id(41)));
    n.update(&new_node(make_id(43)));
    n.update(&new_node(make_id(40)));
    lengths[0] = 1;
    lengths[1] = 2;
    assert_eq!(n.buckets().iter().map(|b| b.data().len()).collect::<Vec<_>>(), lengths);

    let nodes = n.pop_oldest();
    assert_eq!(1, nodes.len());
    assert_eq!(make_id(41), nodes[0].id);
    lengths[1] = 1;
    assert_eq!(n.buckets().iter().map(|b| b.data().len()).collect::<Vec<_>>(), lengths);
    assert_eq!(make_id(40), n.buckets()[1].data()[0].id);
}

#[test]
fn knodetable_test_nodetable_find() {
    // A table around ID 0 knowing nodes 1 and 2.
    // 1 xor 3 = 2, 2 xor 3 = 1: the node closest to 3 is node 2.
    let mut n = KNodeTable::<IdType, Address>::new_with_details(
        make_id(0),
        3,
        DEFAULT_HASH_SIZE,
    );
    assert!(n.update(&new_node(make_id(1))));
    assert!(n.update(&new_node(make_id(2))));
    let id = make_id(3);
    assert_node_list_eq(&[make_id(2)], &n.find(&id, 1));
}

#[test]
fn test_nodetable_find_closest() {
    let mut n = KNodeTable::<IdType, Address>::new(make_id(0b0000));
    let node1 = new_node(make_id(0b0101));
    let node2 = new_node(make_id(0b1010));
    let node3 = new_node(make_id(0b1110));
    assert!(n.update(&node1));
    assert!(n.update(&node2));
    assert!(n.update(&node3));
    assert_node_list_eq(&[make_id(0b1110)], &n.find(&make_id(0b1111), 1));
    assert_node_list_eq(&[make_id(0b1010)], &n.find(&make_id(0b1011), 1));
}

#[test]
fn knodetable_test_nodetable_update() {
    let mut n = KNodeTable::<IdType, Address>::new_with_details(
        make_id(42),
        1,
        DEFAULT_HASH_SIZE,
    );
    let node = new_node(make_id(41));
    n.update(&node);
    assert_eq!(1, n.buckets()[1].data().len());
    n.update(&node);
    assert_eq!(1, n.buckets()[1].data().len());
}

#[test]
fn test_nodetable_random_id() {
    let n = KNodeTable::<u64, Address>::new_with_details(42, 1, DEFAULT_HASH_SIZE);
    for _ in 0..100 {
        assert!(n.random_id().bits() <= DEFAULT_HASH_SIZE);
    }
    assert!(n.random_id() != n.random_id());
}

#[test]
fn knodetable_test_kbucket_new() {
    let b = KBucket::<IdType, Address>::new(3);
    assert_eq!(0, b.data().len());
    assert_eq!(3, b.size());
}

#[test]
fn knodetable_test_kbucket_update_unknown() {
    let mut b = prepare(1);
    let node = new_node(make_id(42));
    assert!(b.update(&node));
    assert_eq!(2, b.data().len());
    assert_eq!(node.id, b.data()[1].id);
}

#[test]
fn knodetable_test_kbucket_update_known() {
    let mut b = prepare(2);
    let node = new_node(make_id(0));
    assert!(b.update(&node));
    assert_eq!(2, b.data().len());
    assert_eq!(node.id, b.data()[1].id);
}

#[test]
fn knodetable_test_kbucket_update_conflict() {
    let mut b = prepare(3);  // 3 is the size
    let node = new_node(make_id(42));
    assert!(!b.update(&node))
}

#[test]
fn knodetable_test_kbucket_find() {
    let b = prepare(3);
    // Nodes with IDs 0, 1, 2; assume our ID is also 2 (impossible IRL)
    // 0 xor 2 = 2, 1 xor 2 = 3, 2 xor 2 = 0
    let id = make_id(2);
    assert_node_list_eq(&[make_id(2)], &b.find(&id, 1));
    assert_node_list_eq(&[make_id(2), make_id(0)], &b.find(&id, 2));
}

#[test]
fn test_kbucket_find_too_much() {
    let b = prepare(3);
    // Nodes with IDs 0, 1, 2; assume our ID is also 2 (impossible IRL)
    // 0 xor 2 = 2, 1 xor 2 = 3, 2 xor 2 = 0
    let id = make_id(2);
    assert_node_list_eq(&[make_id(2), make_id(0), make_id(1)], &b.find(&id, 100));
}

#[test]
fn test_kbucket_remove() {
    let mut b = prepare(3);
    assert!(b.remove(&make_id(1)));
    assert_eq!(2, b.data().len());
    assert!(!b.remove(&make_id(1)));
    assert_eq!(2, b.data().len());
}

#[test]
fn test_nodetable_remove() {
    let mut n = KNodeTable::<IdType, Address>::new_with_details(
        make_id(42),
        2,
        DEFAULT_HASH_SIZE,
    );
    n.update(&new_node(make_id(41)));
    assert!(n.remove(&make_id(41)));
    assert!(!n.remove(&make_id(41)));
}

#[test]
fn test_kbucket_full_capacity() {
    // A bucket of capacity k takes k distinct unknown nodes and rejects
    // the (k + 1)-th while staying at length k.
    let mut b = KBucket::<u64, Address>::new(4);
    for i in 0..4u64 {
        assert!(b.update(&new_node_u64(i)));
    }
    assert_eq!(4, b.data().len());
    assert!(!b.update(&new_node_u64(99)));
    assert_eq!(4, b.data().len());
    // a known node still succeeds, moving to the tail
    assert!(b.update(&new_node_u64(1)));
    assert_eq!(4, b.data().len());
    assert_eq!(1, b.data()[3].id);
}

#[test]
fn test_nodetable_find_sorted() {
    // find returns at most `count` nodes, closest first.
    let mut n = KNodeTable::<u64, Address>::new(1);
    for id in [2u64, 3, 8, 9, 16, 250] {
        assert!(n.update(&new_node_u64(id)));
    }
    let found = n.find(&4, 3);
    assert_eq!(3, found.len());
    let mut last = 0u64;
    for node in &found {
        let d = node.id ^ 4;
        assert!(d >= last);
        last = d;
    }
    // nearest to 4 among stored ids: 2 (6), 3 (7), 8 (12), 9 (13)...
    assert_eq!(2, found[0].id);
    assert_eq!(3, found[1].id);
    assert_eq!(8, found[2].id);
}

#[test]
fn test_scenario_eight_bit() {
    // Identifiers as single bytes, bucket size 2, hash size 160,
    // local id 42.
    let mut n = KNodeTable::<IdType, Address>::new_with_details(make_id(42), 2, 160);
    // 42 xor 41 = 3, bit length 2: bucket 1
    assert!(n.update(&new_node(make_id(41))));
    assert_eq!(1, n.bucket_number(&make_id(41)));
    // 42 xor 43 = 1: bucket 0
    assert!(n.update(&new_node(make_id(43))));
    assert_eq!(0, n.bucket_number(&make_id(43)));
    // 42 xor 40 = 2: bucket 1, now holding [41, 40] at capacity
    assert!(n.update(&new_node(make_id(40))));
    assert_eq!(1, n.bucket_number(&make_id(40)));
    assert_eq!(2, n.buckets()[1].data().len());
    assert_eq!(make_id(41), n.buckets()[1].data()[0].id);
    assert_eq!(make_id(40), n.buckets()[1].data()[1].id);
    // distances to 43: node 43 is 0, node 41 is 2, node 40 is 3
    assert_node_list_eq(&[make_id(43)], &n.find(&make_id(43), 1));
    // the only full bucket is bucket 1; its oldest is node 41
    let popped = n.pop_oldest();
    assert_eq!(1, popped.len());
    assert_eq!(make_id(41), popped[0].id);
    assert_eq!(1, n.buckets()[1].data().len());
    assert_eq!(make_id(40), n.buckets()[1].data()[0].id);
    assert_eq!(1, n.buckets()[0].data().len());
    assert_eq!(make_id(43), n.buckets()[0].data()[0].id);
}

#[test]
fn test_xor_metric() {
    // XOR is symmetric and zero on equal identifiers, for both
    // identifier shapes.
    let a: u64 = 42;
    let b: u64 = 41;
    assert_eq!(GenericId::bitxor(&a, &b), GenericId::bitxor(&b, &a));
    assert!(GenericId::is_zero(&GenericId::bitxor(&a, &a)));
    let x = make_id(42);
    let y = make_id(41);
    assert_eq!(GenericId::bitxor(&x, &y), GenericId::bitxor(&y, &x));
    assert!(GenericId::is_zero(&GenericId::bitxor(&x, &x)));
    assert!(!GenericId::is_zero(&GenericId::bitxor(&x, &y)));
}

#[test]
fn test_bits_values() {
    // bit_length(3) == 2; zero has bit length 0
    assert_eq!(2, 3u64.bits());
    assert_eq!(0, 0u64.bits());
    assert_eq!(6, 42u64.bits());
    assert_eq!(2, make_id(3).bits());
    assert_eq!(0, make_id(0).bits());
    assert_eq!(14, vec![42u8, 1].bits());
}

#[test]
fn test_bucket_number_range() {
    // for distinct same-width identifiers, the bucket index lies in
    // [0, hash_size)
    let n = KNodeTable::<IdType, Address>::new_with_details(make_id(42), 2, 8);
    for i in 0..=255u8 {
        if i != 42 {
            let b = n.bucket_number(&make_id(i));
            assert!(b < 8);
        }
    }
}
