use raop_discovery::endpoint::{
    decode_ptr_target, endpoints_for_service, make_socket_address, AddressRecord, PtrRecordError,
    SocketAddress, AF_INET4, AF_INET6,
};
use raop_discovery::rr::{encode_name, encode_rr, DecodeError};

fn fe80_1() -> Vec<u8> {
    let mut a = vec![0u8; 16];
    a[0] = 0xfe;
    a[1] = 0x80;
    a[15] = 1;
    a
}

#[test]
fn link_local_v6_embeds_interface_as_scope() {
    let sa = make_socket_address(3, AF_INET6, &fe80_1(), 7000).expect("address must build");
    match sa {
        SocketAddress::V6 {
            addr,
            port,
            scope_id,
        } => {
            assert_eq!(addr, fe80_1());
            assert_eq!(port, 7000);
            assert_eq!(scope_id, 3);
        }
        SocketAddress::V4 { .. } => panic!("sixteen bytes must build an IPv6 address"),
    }
}

#[test]
fn global_v6_gets_scope_zero() {
    let mut a = vec![0u8; 16];
    a[0] = 0x20;
    a[1] = 0x01;
    a[15] = 1;
    let sa = make_socket_address(3, AF_INET6, &a, 7000).expect("address must build");
    match sa {
        SocketAddress::V6 { scope_id, .. } => assert_eq!(scope_id, 0),
        SocketAddress::V4 { .. } => panic!("sixteen bytes must build an IPv6 address"),
    }
}

#[test]
fn v4_never_carries_scope() {
    let a = vec![192, 168, 1, 10];
    let sa = make_socket_address(3, AF_INET4, &a, 7000).expect("address must build");
    match sa {
        SocketAddress::V4 { addr, port } => {
            assert_eq!(addr, a);
            assert_eq!(port, 7000);
        }
        SocketAddress::V6 { .. } => panic!("four bytes must build an IPv4 address"),
    }
}

#[test]
fn scope_boundary_follows_leading_ten_bits() {
    // fe80::/10 covers first bytes fe80..febf; fec0:: lies outside.
    let mut a = vec![0u8; 16];
    a[0] = 0xfe;
    a[1] = 0xbf;
    match make_socket_address(5, AF_INET6, &a, 1).expect("address must build") {
        SocketAddress::V6 { scope_id, .. } => assert_eq!(scope_id, 5),
        SocketAddress::V4 { .. } => panic!("sixteen bytes must build an IPv6 address"),
    }
    a[1] = 0xc0;
    match make_socket_address(5, AF_INET6, &a, 1).expect("address must build") {
        SocketAddress::V6 { scope_id, .. } => assert_eq!(scope_id, 0),
        SocketAddress::V4 { .. } => panic!("sixteen bytes must build an IPv6 address"),
    }
}

#[test]
fn mismatched_family_and_length_is_skipped() {
    assert!(make_socket_address(1, AF_INET6, &vec![1, 2, 3, 4], 1).is_none());
    assert!(make_socket_address(1, AF_INET4, &fe80_1(), 1).is_none());
    assert!(make_socket_address(1, 99, &fe80_1(), 1).is_none());
}

#[test]
fn endpoints_skip_unusable_tuples() {
    let addresses = vec![
        AddressRecord {
            interface_index: 3,
            family: AF_INET6,
            address: fe80_1(),
        },
        AddressRecord {
            interface_index: 1,
            family: 99,
            address: vec![1, 2],
        },
        AddressRecord {
            interface_index: 1,
            family: AF_INET4,
            address: vec![10, 0, 0, 2],
        },
    ];
    let text = vec![b"am=Kitchen".to_vec()];
    let eps = endpoints_for_service(&b"host.local".to_vec(), 5000, &addresses, &text);
    assert_eq!(eps.len(), 2);
    for ep in &eps {
        assert_eq!(ep.hostname, b"host.local".to_vec());
        assert_eq!(ep.auxiliary_text, text);
    }
    match &eps[0].socket_address {
        SocketAddress::V6 { scope_id, port, .. } => {
            assert_eq!(*scope_id, 3);
            assert_eq!(*port, 5000);
        }
        SocketAddress::V4 { .. } => panic!("first endpoint must be IPv6"),
    }
    match &eps[1].socket_address {
        SocketAddress::V4 { addr, port } => {
            assert_eq!(*addr, vec![10, 0, 0, 2]);
            assert_eq!(*port, 5000);
        }
        SocketAddress::V6 { .. } => panic!("second endpoint must be IPv4"),
    }
}

#[test]
fn ptr_target_extracts_domain() {
    let target = vec![b"speaker".to_vec(), b"local".to_vec()];
    let payload = encode_name(&target);
    let name = vec![b"_raop".to_vec(), b"_tcp".to_vec(), b"local".to_vec()];
    let data = encode_rr(&name, 12, 1, 120, &payload);
    let domain = decode_ptr_target(12, &data).expect("target must decode");
    assert_eq!(domain, b"speaker.local".to_vec());
}

#[test]
fn ptr_target_rejects_non_ptr() {
    let name = vec![b"x".to_vec()];
    let payload = vec![0u8];
    let data = encode_rr(&name, 33, 1, 120, &payload);
    assert_eq!(decode_ptr_target(12, &data), Err(PtrRecordError::NotPtr));
    let data = encode_rr(&name, 12, 1, 120, &payload);
    assert_eq!(decode_ptr_target(33, &data), Err(PtrRecordError::NotPtr));
}

#[test]
fn ptr_target_rejects_truncated() {
    let data = vec![7];
    assert_eq!(
        decode_ptr_target(12, &data),
        Err(PtrRecordError::Decode(DecodeError::Truncated))
    );
}
