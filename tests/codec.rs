use awg_provision::codec::{AwgInterfaceConf, AwgPeer};

fn s(x: &str) -> String {
    x.to_string()
}

fn peer(pk: &str, psk: &str, ips: &str) -> AwgPeer {
    AwgPeer { public_key: s(pk), preshared_key: s(psk), allowed_ips: s(ips) }
}

const DOC: &str = "[Interface]\nPrivateKey = srv\nAddress = 10.8.1.0/24\nListenPort = 51820\n\n[Peer]\nPublicKey = aaa=\nPresharedKey = p1\nAllowedIPs = 10.8.1.2/32\n\n# a comment\n[Peer]\nPublicKey = bbb\nPresharedKey = p2\nAllowedIPs = 10.8.1.7/32\n";

#[test]
fn peer_parse_complete() {
    let lines = vec![s("PublicKey = k1"), s("PresharedKey = s1"), s("AllowedIPs = 10.8.1.3/32")];
    let p = AwgPeer::parse_str(&lines).unwrap();
    assert_eq!(p.public_key, "k1");
    assert_eq!(p.preshared_key, "s1");
    assert_eq!(p.allowed_ips, "10.8.1.3/32");
}

#[test]
fn peer_parse_missing_preshared_key() {
    let lines = vec![s("PublicKey = k1"), s("AllowedIPs = 10.8.1.3/32")];
    assert!(AwgPeer::parse_str(&lines).is_none());
}

#[test]
fn peer_parse_key_without_equals() {
    let lines = vec![s("PublicKey k1"), s("PresharedKey = s1"), s("AllowedIPs = 10.8.1.3/32")];
    assert!(AwgPeer::parse_str(&lines).is_none());
}

#[test]
fn peer_parse_unknown_line_and_later_value() {
    let lines = vec![
        s("PublicKey = old"),
        s("Endpoint = 1.2.3.4:5"),
        s("PublicKey = new"),
        s("PresharedKey = s1"),
        s("AllowedIPs = 10.8.1.3/32"),
    ];
    let p = AwgPeer::parse_str(&lines).unwrap();
    assert_eq!(p.public_key, "new");
}

#[test]
fn peer_to_string_exact() {
    assert_eq!(
        peer("k", "s", "10.8.1.2/32").to_string(),
        "[Peer]\nPublicKey = k\nPresharedKey = s\nAllowedIPs = 10.8.1.2/32"
    );
}

#[test]
fn document_parses_interface_and_peers() {
    let d = AwgInterfaceConf::from_text(DOC).unwrap();
    assert_eq!(d.interface, "PrivateKey = srv\nAddress = 10.8.1.0/24\nListenPort = 51820");
    assert_eq!(d.peers.len(), 2);
    assert_eq!(d.peers[0].public_key, "aaa=");
    assert_eq!(d.peers[1].allowed_ips, "10.8.1.7/32");
}

#[test]
fn document_without_interface_is_absent() {
    assert!(AwgInterfaceConf::from_text("").is_none());
    assert!(AwgInterfaceConf::from_text("[Peer]\nPublicKey = a\nPresharedKey = b\nAllowedIPs = c\n").is_none());
}

#[test]
fn document_drops_peer_missing_preshared_key() {
    let text = "[Interface]\nListenPort = 1\n[Peer]\nPublicKey = a\nAllowedIPs = 10.8.1.2/32\n[Peer]\nPublicKey = b\nPresharedKey = q\nAllowedIPs = 10.8.1.3/32\n";
    let d = AwgInterfaceConf::from_text(text).unwrap();
    assert_eq!(d.peers.len(), 1);
    assert_eq!(d.peers[0].public_key, "b");
}

#[test]
fn document_same_key_twice_keeps_one() {
    let text = "[Interface]\nListenPort = 1\n[Peer]\nPublicKey = a\nPresharedKey = x\nAllowedIPs = 10.8.1.2/32\n[Peer]\nPublicKey = a\nPresharedKey = y\nAllowedIPs = 10.8.1.9/32\n";
    let d = AwgInterfaceConf::from_text(text).unwrap();
    assert_eq!(d.peers.len(), 1);
    assert_eq!(d.peers[0].preshared_key, "y");
}

#[test]
fn document_to_string_exact() {
    let d = AwgInterfaceConf { interface: s("ListenPort = 1"), peers: vec![peer("a", "x", "10.8.1.2/32")] };
    assert_eq!(
        d.to_string(),
        "[Interface]\nListenPort = 1\n\n[Peer]\nPublicKey = a\nPresharedKey = x\nAllowedIPs = 10.8.1.2/32\n\n"
    );
    let empty = AwgInterfaceConf { interface: s("ListenPort = 1"), peers: vec![] };
    assert_eq!(empty.to_string(), "[Interface]\nListenPort = 1\n\n\n\n");
}

#[test]
fn document_round_trip_keeps_peers() {
    let d = AwgInterfaceConf::from_text(DOC).unwrap();
    let again = AwgInterfaceConf::from_text(&d.to_string()).unwrap();
    assert_eq!(again.interface, d.interface);
    assert_eq!(again.peers.len(), d.peers.len());
    for (a, b) in again.peers.iter().zip(d.peers.iter()) {
        assert_eq!(a.public_key, b.public_key);
        assert_eq!(a.preshared_key, b.preshared_key);
        assert_eq!(a.allowed_ips, b.allowed_ips);
    }
}

#[test]
fn parse_id_cases() {
    assert_eq!(AwgInterfaceConf::try_parse_id("10.8.1.5/32"), Some(5));
    assert_eq!(AwgInterfaceConf::try_parse_id("10.8.1.250"), Some(250));
    assert_eq!(AwgInterfaceConf::try_parse_id("10.8.1.x/32"), None);
    assert_eq!(AwgInterfaceConf::try_parse_id(""), None);
    assert_eq!(AwgInterfaceConf::try_parse_id("1.2.3.99999999999/32"), None);
    assert_eq!(AwgInterfaceConf::try_parse_id("4294967295/32"), Some(4294967295));
}

#[test]
fn last_id_of_empty_document_is_one() {
    let d = AwgInterfaceConf { interface: s("x"), peers: vec![] };
    assert_eq!(d.get_last_id(), 1);
    assert_eq!(d.next_id(), 2);
}

#[test]
fn last_id_skips_unreadable_values() {
    let d = AwgInterfaceConf {
        interface: s("x"),
        peers: vec![peer("a", "p", "10.8.1.3/32"), peer("b", "p", "bogus"), peer("c", "p", "10.8.1.7/32")],
    };
    assert_eq!(d.get_last_id(), 7);
    assert_eq!(d.next_id(), 8);
}

#[test]
fn remove_and_clear_peers() {
    let mut d = AwgInterfaceConf::from_text(DOC).unwrap();
    d.remove_peer(&s("aaa="));
    assert_eq!(d.peers.len(), 1);
    assert_eq!(d.peers[0].public_key, "bbb");
    d.remove_peer(&s("missing"));
    assert_eq!(d.peers.len(), 1);
    d.clear_peers();
    assert!(d.peers.is_empty());
    assert_eq!(d.interface, "PrivateKey = srv\nAddress = 10.8.1.0/24\nListenPort = 51820");
}

#[test]
fn unicode_whitespace_is_trimmed() {
    let text = "[Interface]\nListenPort = 1\n\u{000C}\n[Peer]\nPublicKey = k\u{00A0}\nPresharedKey =\u{2003}q\nAllowedIPs = 10.8.1.4/32\n";
    let d = AwgInterfaceConf::from_text(text).unwrap();
    assert_eq!(d.interface, "ListenPort = 1");
    assert_eq!(d.peers[0].public_key, "k");
    assert_eq!(d.peers[0].preshared_key, "q");
}
