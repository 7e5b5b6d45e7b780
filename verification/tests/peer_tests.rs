//! Node identity: ID derivation, header verification, address parsing.

use blake2::{Blake2s256, Digest};
use kadcast::peer::{IpInfo, PeerNode};
use kadcast::sockaddr::parse_socket_addr;

#[test]
fn test_verify_header() {
    let wrong_header = PeerNode::generate("10.0.0.1:333", 0).unwrap().as_header();
    let wrong_header_sameport = PeerNode::generate("10.0.0.1:666", 0).unwrap().as_header();
    vec![
        PeerNode::generate("192.168.1.1:666", 0).unwrap(),
        PeerNode::generate("[2001:0db8:85a3:0000:0000:8a2e:0370:7334]:666", 0).unwrap(),
    ]
    .iter()
    .for_each(|n| {
        let ip = &n.value().ip;
        PeerNode::verify_header(&n.as_header(), ip);
        assert!(PeerNode::verify_header(&n.as_header(), ip));
        assert!(!PeerNode::verify_header(&wrong_header, ip));
        assert!(!PeerNode::verify_header(&wrong_header_sameport, ip));
    });
}

#[test]
fn compute_id_matches_reference_digest() {
    // The ID of 192.168.0.1:666 is the first 16 bytes of
    // BLAKE2s(LE16(666) || [192, 168, 0, 1]).
    let ip = IpInfo::IPv4(vec![192, 168, 0, 1]);
    let id = PeerNode::compute_id(&ip, 666);
    let mut hasher = Blake2s256::new();
    hasher.update(&666u16.to_le_bytes());
    hasher.update(&[192u8, 168, 0, 1]);
    let digest = hasher.finalize();
    assert_eq!(id.as_slice(), &digest[..16]);
    // Pure and stable: a second computation gives the same bytes.
    let again = PeerNode::compute_id(&IpInfo::IPv4(vec![192, 168, 0, 1]), 666);
    assert_eq!(id, again);
}

#[test]
fn resolvetest() {
    let server_details = "192.168.1.5:80";
    let server = parse_socket_addr(server_details).expect("Unable to resolve domain");
    println!("{:?}", server);
}

#[test]
fn address_parsing() {
    assert_eq!(
        parse_socket_addr("192.168.1.5:80"),
        Some((IpInfo::IPv4(vec![192, 168, 1, 5]), 80))
    );
    assert_eq!(
        parse_socket_addr("[2001:0db8:85a3:0000:0000:8a2e:0370:7334]:666"),
        Some((
            IpInfo::IPv6(vec![
                0x20, 0x01, 0x0d, 0xb8, 0x85, 0xa3, 0x00, 0x00, 0x00, 0x00, 0x8a, 0x2e, 0x03,
                0x70, 0x73, 0x34
            ]),
            666
        ))
    );
    assert_eq!(parse_socket_addr("192.168.1.5"), None);
    assert_eq!(parse_socket_addr("192.168.1:80"), None);
    assert_eq!(parse_socket_addr("300.0.0.1:80"), None);
    assert_eq!(parse_socket_addr("1.2.3.4:70000"), None);
    assert_eq!(parse_socket_addr(""), None);
}

#[test]
fn zero_octet_address_parses() {
    // A zero first octet is a valid address literal, even though the
    // `Nodes` wire format cannot carry it.
    assert_eq!(
        parse_socket_addr("0.0.0.0:0"),
        Some((IpInfo::IPv4(vec![0, 0, 0, 0]), 0))
    );
}

#[test]
fn compressed_ipv6_addresses_parse() {
    assert_eq!(
        parse_socket_addr("[::1]:80"),
        Some((
            IpInfo::IPv6(vec![0, 0, 0, 0, 0, 0, 0, 0, 0, 0, 0, 0, 0, 0, 0, 1]),
            80
        ))
    );
    assert_eq!(
        parse_socket_addr("[::]:5"),
        Some((IpInfo::IPv6(vec![0; 16]), 5))
    );
    assert_eq!(
        parse_socket_addr("[2001:db8::8a2e:370:7334]:666"),
        Some((
            IpInfo::IPv6(vec![
                0x20, 0x01, 0x0d, 0xb8, 0, 0, 0, 0, 0, 0, 0x8a, 0x2e, 0x03, 0x70, 0x73, 0x34
            ]),
            666
        ))
    );
    assert_eq!(
        parse_socket_addr("[fe80::]:1"),
        Some((
            IpInfo::IPv6(vec![0xfe, 0x80, 0, 0, 0, 0, 0, 0, 0, 0, 0, 0, 0, 0, 0, 0]),
            1
        ))
    );
    // One gap at most, and never nine groups.
    assert_eq!(parse_socket_addr("[1::2::3]:1"), None);
    assert_eq!(parse_socket_addr("[1:2:3:4:5:6:7:8:9]:1"), None);
    assert_eq!(parse_socket_addr("[1:2:3:4:5:6:7:8::]:1"), None);
}
