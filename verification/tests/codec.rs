use dht::Address;
use dht::GenericId;
use dht::Node;

type IdType = Vec<u8>;

fn make_id(i: u8) -> IdType {
    vec![i]
}

fn new_node(id: IdType) -> Node<IdType, Address> {
    Node { id, address: Address::new(127, 0, 0, 1, 8008) }
}

#[test]
fn test_node_encode() {
    let n = new_node(make_id(42));
    let j = n.encode();
    assert_eq!("{\"address\": \"127.0.0.1:8008\", \"id\": \"2a\"}", j);
}

#[test]
fn test_node_decode() {
    let text = "{\"address\": \"127.0.0.1:80\", \"id\": \"2a\"}";
    let n: Node<IdType, Address> = Node::decode(text).unwrap();
    assert_eq!(make_id(42), n.id);
}

#[test]
fn test_node_decode_bad_address() {
    let text = "{\"address\": \"127.0.0.1\", \"id\": \"2a\"}";
    assert!(Node::<IdType, Address>::decode(text).is_none());
}

#[test]
fn test_node_decode_bad_id() {
    let text = "{\"address\": \"127.0.0.1:80\", \"id\": \"x42\"}";
    assert!(Node::<IdType, Address>::decode(text).is_none());
}

#[test]
fn test_node_encode_decode() {
    let n = new_node(make_id(42));
    let j = n.encode();
    let n2 = Node::<IdType, Address>::decode(j.as_str()).unwrap();
    assert_eq!(n.id, n2.id);
    assert_eq!(n.address, n2.address);
}

#[test]
fn test_node_encode_decode_uint() {
    // the fixed-width identifier shape round-trips too
    let n = Node::<u64, Address> { id: 0xdead42, address: Address::new(10, 0, 0, 7, 65535) };
    let j = n.encode();
    let n2 = Node::<u64, Address>::decode(j.as_str()).unwrap();
    assert_eq!(n.id, n2.id);
    assert_eq!(n.address, n2.address);
}

#[test]
fn test_id_encode_values() {
    // exact canonical hexadecimal forms
    assert_eq!("2a", GenericId::encode(&42u64));
    assert_eq!("0", GenericId::encode(&0u64));
    assert_eq!("ffffffffffffffff", GenericId::encode(&u64::MAX));
    assert_eq!("2a", GenericId::encode(&make_id(42)));
    assert_eq!("002a", GenericId::encode(&vec![0u8, 42]));
    assert_eq!("", GenericId::encode(&Vec::<u8>::new()));
}

#[test]
fn test_id_decode_values() {
    assert_eq!(Some(42u64), <u64 as GenericId>::decode("2a"));
    assert_eq!(Some(0u64), <u64 as GenericId>::decode("0"));
    // non-canonical or malformed hexadecimal is rejected
    assert_eq!(None, <u64 as GenericId>::decode("02a"));
    assert_eq!(None, <u64 as GenericId>::decode(""));
    assert_eq!(None, <u64 as GenericId>::decode("2A"));
    assert_eq!(None, <u64 as GenericId>::decode("12345678901234567"));
    assert_eq!(Some(make_id(42)), <IdType as GenericId>::decode("2a"));
    assert_eq!(Some(vec![0u8, 42]), <IdType as GenericId>::decode("002a"));
    // an odd number of digits denotes no byte string
    assert_eq!(None, <IdType as GenericId>::decode("2a0"));
}

#[test]
fn test_node_decode_bad_port() {
    // port out of range
    let text = "{\"address\": \"127.0.0.1:65536\", \"id\": \"2a\"}";
    assert!(Node::<IdType, Address>::decode(text).is_none());
    // octet out of range
    let text2 = "{\"address\": \"256.0.0.1:80\", \"id\": \"2a\"}";
    assert!(Node::<IdType, Address>::decode(text2).is_none());
    // leading zero in an octet is not canonical
    let text3 = "{\"address\": \"127.0.00.1:80\", \"id\": \"2a\"}";
    assert!(Node::<IdType, Address>::decode(text3).is_none());
}

#[test]
fn test_node_decode_bad_framing() {
    assert!(Node::<IdType, Address>::decode("").is_none());
    assert!(Node::<IdType, Address>::decode("{\"address\": \"127.0.0.1:80\"").is_none());
    assert!(
        Node::<IdType, Address>::decode("[\"address\": \"127.0.0.1:80\", \"id\": \"2a\"}")
            .is_none()
    );
    assert!(
        Node::<IdType, Address>::decode("{\"address\": \"127.0.0.1:80\", \"id\": \"2a\"]")
            .is_none()
    );
}

#[test]
fn test_random_id_width() {
    // generated identifiers respect the requested width
    for _ in 0..50 {
        let id = <u64 as GenericId>::gen(8);
        assert!(id < 256);
        let bytes = <IdType as GenericId>::gen(12);
        assert!(GenericId::bits(&bytes) <= 12);
    }
}
