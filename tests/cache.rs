use awg_provision::shared::{PageUpdate, StoredUsers};
use awg_provision::table::{ClientTableRecord, ClientTableRecordUserData, User, UserStats};

fn s(x: &str) -> String {
    x.to_string()
}

fn record(id: &str, name: &str, recv: Option<&str>) -> ClientTableRecord {
    ClientTableRecord {
        client_id: s(id),
        user_data: ClientTableRecordUserData {
            client_name: s(name),
            creation_date: s("Mon Jan 01 00:00:00 2024"),
            data_received: recv.map(s),
            data_sent: None,
            latest_handshake: None,
            allowed_ips: None,
        },
    }
}

fn files(u: &PageUpdate) -> Vec<String> {
    match u {
        PageUpdate::Write { page, .. } => page.configs.iter().map(|c| c.file.clone()).collect(),
        PageUpdate::Remove { .. } => vec![],
    }
}

#[test]
fn first_add_makes_group_and_page() {
    let mut st = StoredUsers::new();
    let (g, page) = st.add_user_raw(s("PA"), s("alice"), s("cfg-a"), s("teamA")).unwrap();
    assert_eq!(g.group, "teamA");
    assert_eq!(g.guid.len(), 32);
    assert_eq!(files(&page), vec!["alice.conf"]);
    match &page {
        PageUpdate::Write { guid, page } => {
            assert_eq!(*guid, g.guid);
            assert_eq!(page.configs[0].name, "alice");
            assert_eq!(page.configs[0].config, "cfg-a");
        }
        PageUpdate::Remove { .. } => panic!("expected a page to write"),
    }
    assert_eq!(st.group_records().len(), 1);
}

#[test]
fn second_add_reuses_guid() {
    let mut st = StoredUsers::new();
    let (g1, _) = st.add_user_raw(s("PA"), s("alice"), s("cfg-a"), s("teamA")).unwrap();
    let (g2, page) = st.add_user_raw(s("PB"), s("bob"), s("cfg-b"), s("teamA")).unwrap();
    assert_eq!(g1.guid, g2.guid);
    assert_eq!(files(&page), vec!["alice.conf", "bob.conf"]);
    let (g3, _) = st.add_user_raw(s("PC"), s("carol"), s("cfg-c"), s("teamB")).unwrap();
    assert_ne!(g3.guid, g1.guid);
    assert_eq!(st.group_records().len(), 2);
}

#[test]
fn removals_regenerate_then_delete_page() {
    let mut st = StoredUsers::new();
    let (g, _) = st.add_user_raw(s("PA"), s("alice"), s("cfg-a"), s("teamA")).unwrap();
    st.add_user_raw(s("PB"), s("bob"), s("cfg-b"), s("teamA")).unwrap();
    let after_alice = st.rm_by_id(&s("PA")).unwrap();
    assert_eq!(files(&after_alice), vec!["bob.conf"]);
    let after_bob = st.rm_by_id(&s("PB")).unwrap();
    match after_bob {
        PageUpdate::Remove { guid } => assert_eq!(guid, g.guid),
        PageUpdate::Write { .. } => panic!("expected the page to go"),
    }
    assert!(st.entries().is_empty());
    assert_eq!(st.group_records()[0].guid, g.guid);
}

#[test]
fn removing_unknown_id_is_silent() {
    let mut st = StoredUsers::new();
    st.add_user_raw(s("PA"), s("alice"), s("cfg-a"), s("teamA")).unwrap();
    assert!(st.rm_by_id(&s("nobody")).is_none());
    assert_eq!(st.entries().len(), 1);
}

#[test]
fn clear_twice_is_empty() {
    let mut st = StoredUsers::new();
    st.add_user_raw(s("PA"), s("alice"), s("cfg-a"), s("teamA")).unwrap();
    st.set_records(vec![record("PA", "alice", None)]);
    st.clear();
    assert!(st.entries().is_empty() && st.groups().is_empty() && st.records().is_empty());
    st.clear();
    assert!(st.entries().is_empty() && st.groups().is_empty() && st.records().is_empty());
}

#[test]
fn records_keep_last_per_id() {
    let mut st = StoredUsers::new();
    st.set_records(vec![record("A", "first", None), record("B", "b", None), record("A", "second", Some("3 MiB"))]);
    let users = st.user_list();
    assert_eq!(users.len(), 2);
    assert_eq!(users[0].uid, "B");
    assert_eq!(users[1].name, "second");
}

#[test]
fn stats_defaults() {
    let r = record("A", "a", None);
    let st = UserStats::from(&r);
    assert_eq!(st.recv, "0 KiB");
    assert_eq!(st.sent, "0 KiB");
    assert_eq!(st.last_seen, "Never");
    let r = record("A", "a", Some("3 MiB"));
    assert_eq!(UserStats::from(&r).recv, "3 MiB");
    assert_eq!(User::from(&r).name, "a");
}

#[test]
fn from_parts_checks_rules() {
    let mut st = StoredUsers::new();
    st.add_user_raw(s("PA"), s("alice"), s("cfg-a"), s("teamA")).unwrap();
    let entries: Vec<_> = st
        .entries()
        .iter()
        .map(|e| awg_provision::shared::PageEntry { id: e.id.clone(), name: e.name.clone(), group: e.group.clone(), config: e.config.clone() })
        .collect();
    let dup: Vec<_> = entries
        .iter()
        .chain(entries.iter())
        .map(|e| awg_provision::shared::PageEntry { id: e.id.clone(), name: e.name.clone(), group: e.group.clone(), config: e.config.clone() })
        .collect();
    let groups = st.group_records();
    assert!(StoredUsers::from_parts(vec![], entries, groups).is_some());
    assert!(StoredUsers::from_parts(vec![], dup, st.group_records()).is_none());
}

#[test]
fn from_parts_refuses_shared_token() {
    let groups = vec![
        awg_provision::shared::GroupRecord { group: s("a"), guid: s("same") },
        awg_provision::shared::GroupRecord { group: s("b"), guid: s("same") },
    ];
    assert!(StoredUsers::from_parts(vec![], vec![], groups).is_none());
}

#[test]
fn new_groups_get_distinct_tokens() {
    let mut st = StoredUsers::new();
    let mut guids = Vec::new();
    for n in 0..5 {
        let (g, _) = st.add_user_raw(format!("P{n}"), format!("u{n}"), s("c"), format!("team{n}")).unwrap();
        guids.push(g.guid);
    }
    for a in 0..guids.len() {
        for b in a + 1..guids.len() {
            assert_ne!(guids[a], guids[b]);
        }
    }
}

#[test]
fn tokens_are_lower_hex() {
    let mut st = StoredUsers::new();
    let (g, _) = st.add_user_raw(s("PA"), s("alice"), s("cfg-a"), s("teamA")).unwrap();
    assert!(g.guid.chars().all(|c| c.is_ascii_digit() || ('a'..='f').contains(&c)));
}
