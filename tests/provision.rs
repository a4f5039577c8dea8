use awg_provision::cfg::{
    create_user, create_user_at, decimal_string, drop_all, parse_credentials, read_remote, rm_by_id, ClientConfig,
    Credentials, ProvisionError, Settings,
};
use awg_provision::codec::AwgInterfaceConf;
use awg_provision::iface::AWGInterfaceData;
use awg_provision::table::ClientTableRecord;

fn s(x: &str) -> String {
    x.to_string()
}

const STATUS: &str = "interface: wg0\n  public key: SRVKEY=\n  private key: (hidden)\n  listening port: 51820\n  jc: 4\n  jmin: 40\n  jmax: 70\n  s1: 11\n  s2: 22\n  h1: 1001\n  h2: 1002\n  h3: 1003\n  H4: 1004\n";

fn settings() -> Settings {
    Settings { host: s("vpn.example.org"), dns: s("1.1.1.1"), keepalive: s("25"), mask: s("10.8.1.") }
}

fn empty_doc() -> AwgInterfaceConf {
    AwgInterfaceConf::from_text("[Interface]\nListenPort = 51820\n").unwrap()
}

#[test]
fn interface_status_parses() {
    let i = AWGInterfaceData::from_str(STATUS).unwrap();
    assert_eq!(i.public_key, "SRVKEY=");
    assert_eq!(i.port, 51820);
    assert_eq!((i.jc, i.jmin, i.jmax, i.s1, i.s2), (4, 40, 70, 11, 22));
    assert_eq!((i.h1, i.h2, i.h3, i.h4), (1001, 1002, 1003, 1004));
}

#[test]
fn interface_status_missing_value() {
    let text = STATUS.replace("  jc: 4\n", "");
    assert!(AWGInterfaceData::from_str(&text).is_none());
    let text = STATUS.replace("jc: 4", "jc: four");
    assert!(AWGInterfaceData::from_str(&text).is_none());
}

#[test]
fn credentials_parse() {
    let c = parse_credentials("PUB\nPRIV\nPSK\n").unwrap();
    assert_eq!((c.public_key.as_str(), c.private_key.as_str(), c.preshared_key.as_str()), ("PUB", "PRIV", "PSK"));
}

#[test]
fn credentials_incomplete() {
    assert_eq!(parse_credentials("PUB\nPRIV").err(), Some(ProvisionError::IncompleteCredential));
    assert_eq!(parse_credentials("PUB\nPRIV\n").err(), Some(ProvisionError::IncompleteCredential));
    assert_eq!(parse_credentials("").err(), Some(ProvisionError::IncompleteCredential));
}

#[test]
fn decimal_strings() {
    assert_eq!(decimal_string(0), "0");
    assert_eq!(decimal_string(7), "7");
    assert_eq!(decimal_string(51820), "51820");
    assert_eq!(decimal_string(u64::MAX), "18446744073709551615");
}

#[test]
fn client_config_fields() {
    let i = AWGInterfaceData::from_str(STATUS).unwrap();
    let creds = Credentials { public_key: s("CPUB"), private_key: s("CPRIV"), preshared_key: s("CPSK") };
    let c = ClientConfig::new(&settings(), &i, 2, &creds);
    assert_eq!(c.addr, "10.8.1.2");
    assert_eq!(c.peer_endpoint, "vpn.example.org:51820");
    assert_eq!(c.peer_public_key, "SRVKEY=");
    assert_eq!(c.peer_allowed_ips, "vpn.example.org");
    assert_eq!(c.private_key, "CPRIV");
    assert_eq!(c.h4, 1004);
    let p = c.to_peer(s("CPUB"));
    assert_eq!(p.allowed_ips, "10.8.1.2/32");
    assert_eq!(p.preshared_key, "CPSK");
    let r = c.to_record(s("alice"), s("CPUB"));
    assert_eq!(r.client_id, "CPUB");
    assert_eq!(r.user_data.client_name, "alice");
    assert!(r.user_data.data_received.is_none());
    assert!(!r.user_data.creation_date.is_empty());
}

#[test]
fn read_remote_errors() {
    assert_eq!(read_remote("", STATUS).err(), Some(ProvisionError::NotConfigured));
    assert_eq!(read_remote("[Interface]\nA = 1\n", "nothing").err(), Some(ProvisionError::IdUnavailable));
    assert!(read_remote("[Interface]\nA = 1\n", STATUS).is_ok());
}

#[test]
fn first_user_gets_suffix_two() {
    let i = AWGInterfaceData::from_str(STATUS).unwrap();
    let mut doc = empty_doc();
    let mut table: Vec<ClientTableRecord> = Vec::new();
    let c = create_user("alice", &settings(), &i, "PUBA\nPRIVA\nPSKA\n", &mut doc, &mut table).unwrap();
    assert_eq!(c.public_id, "PUBA");
    assert_eq!(c.config.addr, "10.8.1.2");
    assert_eq!(doc.peers.len(), 1);
    assert_eq!(doc.peers[0].allowed_ips, "10.8.1.2/32");
    assert_eq!(doc.get_last_id(), 2);
    assert_eq!(table.len(), 1);
    assert_eq!(table[0].user_data.client_name, "alice");
}

#[test]
fn consecutive_users_get_consecutive_suffixes() {
    let i = AWGInterfaceData::from_str(STATUS).unwrap();
    let mut doc = AwgInterfaceConf::from_text(
        "[Interface]\nListenPort = 1\n[Peer]\nPublicKey = old\nPresharedKey = q\nAllowedIPs = 10.8.1.5/32\n",
    )
    .unwrap();
    let mut table: Vec<ClientTableRecord> = Vec::new();
    let mut addrs = Vec::new();
    for n in 0..4 {
        let out = format!("PUB{n}\nPRIV{n}\nPSK{n}\n");
        let c = create_user(&format!("user{n}"), &settings(), &i, &out, &mut doc, &mut table).unwrap();
        addrs.push(c.config.addr);
    }
    assert_eq!(addrs, vec!["10.8.1.6", "10.8.1.7", "10.8.1.8", "10.8.1.9"]);
    assert_eq!(doc.peers.len(), 5);
}

#[test]
fn incomplete_credentials_change_nothing() {
    let i = AWGInterfaceData::from_str(STATUS).unwrap();
    let mut doc = empty_doc();
    let mut table: Vec<ClientTableRecord> = Vec::new();
    let r = create_user("bob", &settings(), &i, "ONLY\n", &mut doc, &mut table);
    assert_eq!(r.err(), Some(ProvisionError::IncompleteCredential));
    assert!(doc.peers.is_empty());
    assert!(table.is_empty());
}

#[test]
fn remove_and_drop_all_remote() {
    let i = AWGInterfaceData::from_str(STATUS).unwrap();
    let mut doc = empty_doc();
    let mut table: Vec<ClientTableRecord> = Vec::new();
    create_user("a", &settings(), &i, "PA\nXA\nSA\n", &mut doc, &mut table).unwrap();
    create_user("b", &settings(), &i, "PB\nXB\nSB\n", &mut doc, &mut table).unwrap();
    rm_by_id(&s("PA"), &mut doc, &mut table);
    assert_eq!(doc.peers.len(), 1);
    assert_eq!(doc.peers[0].public_key, "PB");
    assert_eq!(table.len(), 1);
    assert_eq!(table[0].client_id, "PB");
    drop_all(&mut doc, &mut table);
    assert!(doc.peers.is_empty());
    assert!(table.is_empty());
}

#[test]
fn record_carries_given_stamp() {
    let i = AWGInterfaceData::from_str(STATUS).unwrap();
    let creds = Credentials { public_key: s("CPUB"), private_key: s("CPRIV"), preshared_key: s("CPSK") };
    let c = ClientConfig::new(&settings(), &i, 2, &creds);
    let r = c.to_record_at(s("alice"), s("CPUB"), s("Tue Feb 03 04:05:06 2026"));
    assert_eq!(r.user_data.creation_date, "Tue Feb 03 04:05:06 2026");
    let mut doc = empty_doc();
    let mut table: Vec<ClientTableRecord> = Vec::new();
    create_user_at("bob", &settings(), &i, "PB\nXB\nSB\n", s("Wed Mar 04 05:06:07 2026"), &mut doc, &mut table).unwrap();
    assert_eq!(table[0].user_data.creation_date, "Wed Mar 04 05:06:07 2026");
}

#[test]
fn not_configured_store() {
    assert_eq!(read_remote("[Peer]\nPublicKey = a\n", STATUS).err(), Some(ProvisionError::NotConfigured));
}
