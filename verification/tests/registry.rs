use raop_discovery::endpoint::{DiscoveredEndpoint, SocketAddress};
use raop_discovery::props::{parse_properties, Codec, EncryptionType, Transport};
use raop_discovery::registry::Registry;

fn records(parts: &[&[u8]]) -> Vec<Vec<u8>> {
    parts.iter().map(|p| p.to_vec()).collect()
}

fn endpoint_v4(host: &[u8], last_octet: u8, text: &[&[u8]]) -> DiscoveredEndpoint {
    DiscoveredEndpoint {
        hostname: host.to_vec(),
        socket_address: SocketAddress::V4 {
            addr: vec![10, 0, 0, last_octet],
            port: 5000,
        },
        auxiliary_text: records(text),
    }
}

#[test]
fn property_mapping_fixed_rules() {
    let props = parse_properties(&records(&[b"tp=TCP", b"et=1", b"cn=2", b"am=Kitchen"]));
    assert_eq!(props.transport, Some(Transport::Tcp));
    assert_eq!(props.encryption, Some(EncryptionType::Rsa));
    assert_eq!(props.codec, Some(Codec::Aac));
    assert_eq!(props.display_name, b"Kitchen".to_vec());
}

#[test]
fn unknown_codec_leaves_codec_unset() {
    let props = parse_properties(&records(&[b"cn=99"]));
    assert_eq!(props.codec, None);
    assert_eq!(props.transport, None);
    assert_eq!(props.encryption, None);
    assert_eq!(props.display_name, b"<unnamed>".to_vec());
}

#[test]
fn comma_lists_pick_by_membership() {
    let props = parse_properties(&records(&[b"tp=UDP,TCP", b"et=9,4", b"cn=0,3"]));
    assert_eq!(props.transport, Some(Transport::Udp));
    assert_eq!(props.encryption, Some(EncryptionType::AuthSetup));
    assert_eq!(props.codec, Some(Codec::AacEld));
}

#[test]
fn unknown_encryption_falls_back_to_none_marker() {
    let props = parse_properties(&records(&[b"et=7"]));
    assert_eq!(props.encryption, Some(EncryptionType::NoEncryption));
}

#[test]
fn unknown_transport_left_unset() {
    let props = parse_properties(&records(&[b"tp=SCTP"]));
    assert_eq!(props.transport, None);
}

#[test]
fn value_membership_is_not_substring_match() {
    // "XTCP" holds no element "TCP": membership is per comma-separated
    // element, not substring search.
    let props = parse_properties(&records(&[b"tp=XTCP"]));
    assert_eq!(props.transport, None);
    let props = parse_properties(&records(&[b"cn=12"]));
    assert_eq!(props.codec, None);
}

#[test]
fn first_record_per_key_wins() {
    let props = parse_properties(&records(&[b"am=First", b"am=Second", b"tp=TCP", b"tp=UDP"]));
    assert_eq!(props.display_name, b"First".to_vec());
    assert_eq!(props.transport, Some(Transport::Tcp));
}

#[test]
fn dedup_creates_exactly_one_sink_per_key() {
    let mut registry = Registry::new();
    let first = endpoint_v4(b"h.local", 7, &[b"am=Kitchen"]);
    let again = endpoint_v4(b"h.local", 7, &[b"am=Other", b"tp=UDP"]);
    let request = registry.process(&first);
    assert!(request.is_some(), "a new key owes one sink request");
    let request = registry.process(&again);
    assert!(request.is_none(), "a known key must not create again");
    assert_eq!(registry.keys.len(), 1);
}

#[test]
fn different_keys_create_separately() {
    let mut registry = Registry::new();
    assert!(registry.process(&endpoint_v4(b"h.local", 7, &[])).is_some());
    // Same host, other address: a distinct key.
    assert!(registry.process(&endpoint_v4(b"h.local", 8, &[])).is_some());
    // Other host, first address: a distinct key.
    assert!(registry.process(&endpoint_v4(b"i.local", 7, &[])).is_some());
    assert_eq!(registry.keys.len(), 3);
}

#[test]
fn request_composition_for_ipv4() {
    let mut registry = Registry::new();
    let ep = endpoint_v4(b"h.local", 7, &[b"am=Kitchen", b"tp=TCP", b"et=4", b"cn=1"]);
    let request = registry.process(&ep).expect("new key owes a request");
    assert_eq!(request.hostname, b"h.local".to_vec());
    assert_eq!(request.display_name, b"Kitchen (IPv4)".to_vec());
    assert_eq!(request.transport, Some(Transport::Tcp));
    assert_eq!(request.encryption, Some(EncryptionType::AuthSetup));
    assert_eq!(request.codec, Some(Codec::Alac));
    match request.socket_address {
        SocketAddress::V4 { addr, port } => {
            assert_eq!(addr, vec![10, 0, 0, 7]);
            assert_eq!(port, 5000);
        }
        SocketAddress::V6 { .. } => panic!("the endpoint was IPv4"),
    }
}

#[test]
fn request_composition_for_ipv6_has_no_suffix() {
    let mut registry = Registry::new();
    let mut addr = vec![0u8; 16];
    addr[0] = 0xfe;
    addr[1] = 0x80;
    addr[15] = 9;
    let ep = DiscoveredEndpoint {
        hostname: b"h.local".to_vec(),
        socket_address: SocketAddress::V6 {
            addr,
            port: 5000,
            scope_id: 3,
        },
        auxiliary_text: records(&[b"am=Kitchen"]),
    };
    let request = registry.process(&ep).expect("new key owes a request");
    assert_eq!(request.display_name, b"Kitchen".to_vec());
}
