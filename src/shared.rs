//! The cache of peers, groups and distribution pages, and how each
//! operation changes it. Locking, persistence and the remote calls stand
//! around it in the application.

use vstd::prelude::*;
use vstd::string::*;
use crate::table::{
    ClientTableRecord, User, UserStats, dedup_by_id, ids_unique, last_per_id, remove_client,
    without_client, lemma_without_client_unique, has_client, lemma_last_per_id_ids,
};

verus! {

/// A peer as the cache keeps it: its group and its rendered configuration.
pub struct PageEntry {
    pub id: String,
    pub name: String,
    pub group: String,
    pub config: String,
}

pub struct EntryView {
    pub id: Seq<char>,
    pub name: Seq<char>,
    pub group: Seq<char>,
    pub config: Seq<char>,
}

impl View for PageEntry {
    type V = EntryView;

    open spec fn view(&self) -> EntryView {
        EntryView { id: self.id@, name: self.name@, group: self.group@, config: self.config@ }
    }
}

/// A group and the token that names its public page.
pub struct GroupRecord {
    pub group: String,
    pub guid: String,
}

/// A request to add the peer `name` to `group`.
pub struct CreateRequest {
    pub name: String,
    pub group: String,
}

/// One configuration on a group's page.
pub struct Config {
    pub name: String,
    pub file: String,
    pub config: String,
}

/// What a group's page lists.
pub struct PageData {
    pub configs: Vec<Config>,
}

/// What the page builder is to do after a change.
pub enum PageUpdate {
    /// Write the page named `guid` with these configurations.
    Write { guid: String, page: PageData },
    /// Delete the page named `guid`: its group has no peer left.
    Remove { guid: String },
}

/// The name, file name and text of a configuration on a page.
pub open spec fn config_view(c: Config) -> (Seq<char>, Seq<char>, Seq<char>) {
    (c.name@, c.file@, c.config@)
}

/// The configurations that the page of group `g` lists, in the order in
/// which the peers were added.
pub open spec fn page_configs(entries: Seq<EntryView>, g: Seq<char>) -> Seq<(Seq<char>, Seq<char>, Seq<char>)> {
    entries.filter(|e: EntryView| e.group == g).map_values(
        |e: EntryView| (e.name, e.name + ".conf"@, e.config),
    )
}

pub open spec fn page_view(p: PageData) -> Seq<(Seq<char>, Seq<char>, Seq<char>)> {
    p.configs@.map_values(|c: Config| config_view(c))
}

pub open spec fn entries_view(v: Seq<PageEntry>) -> Seq<EntryView> {
    v.map_values(|e: PageEntry| e@)
}

pub open spec fn groups_view(v: Seq<GroupRecord>) -> Seq<(Seq<char>, Seq<char>)> {
    v.map_values(|r: GroupRecord| (r.group@, r.guid@))
}

/// The token of group `g`, if it has one.
pub open spec fn guid_of(groups: Seq<(Seq<char>, Seq<char>)>, g: Seq<char>) -> Option<Seq<char>> {
    if exists|i: int| 0 <= i < groups.len() && (#[trigger] groups[i]).0 == g {
        let i = choose|i: int| 0 <= i < groups.len() && (#[trigger] groups[i]).0 == g;
        Some(groups[i].1)
    } else {
        None
    }
}

/// The entries without the one of peer `id`.
pub open spec fn drop_entry(entries: Seq<EntryView>, id: Seq<char>) -> Seq<EntryView> {
    if has_entry(entries, id) {
        entries.remove(choose|i: int| 0 <= i < entries.len() && (#[trigger] entries[i]).id == id)
    } else {
        entries
    }
}

pub proof fn lemma_guid_at(gs: Seq<(Seq<char>, Seq<char>)>, k: int)
    requires
        0 <= k < gs.len(),
        forall|i: int, j: int|
            0 <= i < gs.len() && 0 <= j < gs.len() && i != j ==> (#[trigger] gs[i]).0 != (#[trigger] gs[j]).0,
    ensures
        guid_of(gs, gs[k].0) == Some(gs[k].1),
{
    assert(gs[k].0 == gs[k].0);
}

/// The group of the peer `id`.
pub open spec fn group_of(entries: Seq<EntryView>, id: Seq<char>) -> Seq<char> {
    entries[choose|i: int| 0 <= i < entries.len() && (#[trigger] entries[i]).id == id].group
}

/// What `clear` leaves of a cache: nothing.
pub open spec fn cleared(s: StoreView) -> StoreView {
    empty_store()
}

pub open spec fn has_entry(entries: Seq<EntryView>, id: Seq<char>) -> bool {
    exists|i: int| 0 <= i < entries.len() && (#[trigger] entries[i]).id == id
}

/// The cache. Each peer stands once, in one group, and each group has
/// one token.
pub struct StoredUsers {
    records: Vec<ClientTableRecord>,
    entries: Vec<PageEntry>,
    groups: Vec<GroupRecord>,
}

pub struct StoreView {
    pub records: Seq<ClientTableRecord>,
    pub entries: Seq<EntryView>,
    pub groups: Seq<(Seq<char>, Seq<char>)>,
}

/// The cache with nothing in it.
pub open spec fn empty_store() -> StoreView {
    StoreView {
        records: Seq::<ClientTableRecord>::empty(),
        entries: Seq::<EntryView>::empty(),
        groups: Seq::<(Seq<char>, Seq<char>)>::empty(),
    }
}

/// Which group each cached peer is in.
pub open spec fn id_to_group(s: StoreView) -> Map<Seq<char>, Seq<char>> {
    Map::new(
        |id: Seq<char>| has_entry(s.entries, id),
        |id: Seq<char>|
            s.entries[choose|i: int| 0 <= i < s.entries.len() && (#[trigger] s.entries[i]).id == id].group,
    )
}

/// The peers on the page of group `g`: id to name and configuration.
pub open spec fn page_of(s: StoreView, g: Seq<char>) -> Map<Seq<char>, (Seq<char>, Seq<char>)> {
    Map::new(
        |id: Seq<char>|
            exists|i: int| 0 <= i < s.entries.len() && (#[trigger] s.entries[i]).id == id && s.entries[i].group == g,
        |id: Seq<char>|
            {
                let i = choose|i: int| 0 <= i < s.entries.len() && (#[trigger] s.entries[i]).id == id;
                (s.entries[i].name, s.entries[i].config)
            },
    )
}

pub open spec fn store_wf(s: StoreView) -> bool {
    &&& forall|i: int, j: int|
        0 <= i < s.entries.len() && 0 <= j < s.entries.len() && i != j ==> (#[trigger] s.entries[i]).id
            != (#[trigger] s.entries[j]).id
    &&& forall|i: int, j: int|
        0 <= i < s.groups.len() && 0 <= j < s.groups.len() && i != j ==> (#[trigger] s.groups[i]).0
            != (#[trigger] s.groups[j]).0 && s.groups[i].1 != s.groups[j].1
    &&& forall|i: int| 0 <= i < s.entries.len() ==> guid_of(s.groups, (#[trigger] s.entries[i]).group) is Some
    &&& ids_unique(s.records)
}

pub open spec fn is_lower_hex(c: char) -> bool {
    ('0' <= c && c <= '9') || ('a' <= c && c <= 'f')
}

/// Relies on `uuid::Uuid::new_v4` and its `simple` form: 32 lower-case hex
/// digits, drawn at random.
#[verifier::external_body]
fn new_guid() -> (r: String)
    ensures
        r@.len() == 32,
        forall|i: int| 0 <= i < r@.len() ==> is_lower_hex(#[trigger] r@[i]),
{
    uuid::Uuid::new_v4().simple().to_string()
}

/// How many tokens a new group draws before giving up.
const GUID_DRAWS: usize = 4;

/// Whether some group has the token `g`.
fn guid_taken(groups: &Vec<GroupRecord>, g: &String) -> (r: bool)
    ensures
        r == exists|i: int| 0 <= i < groups@.len() && (#[trigger] groups_view(groups@)[i]).1 == g@,
{
    let mut i: usize = 0;
    while i < groups.len()
        invariant
            0 <= i <= groups@.len(),
            forall|j: int| 0 <= j < i ==> (#[trigger] groups_view(groups@)[j]).1 != g@,
        decreases groups@.len() - i,
    {
        if groups[i].guid == *g {
            assert(groups_view(groups@)[i as int].1 == g@);
            return true;
        }
        i = i + 1;
    }
    false
}

/// A token that no group has, if one of a few draws gives one.
fn fresh_guid(groups: &Vec<GroupRecord>) -> (r: Option<String>)
    ensures
        r matches Some(g) ==> forall|i: int| 0 <= i < groups@.len() ==> (#[trigger] groups_view(groups@)[i]).1 != g@,
{
    let mut n: usize = 0;
    while n < GUID_DRAWS
        decreases GUID_DRAWS - n,
    {
        let g = new_guid();
        if !guid_taken(groups, &g) {
            return Some(g);
        }
        n = n + 1;
    }
    None
}

/// The page of group `g`.
fn build_page(entries: &Vec<PageEntry>, g: &String) -> (r: PageData)
    ensures
        page_view(r) == page_configs(entries_view(entries@), g@),
{
    let ghost ev = entries_view(entries@);
    let mut configs: Vec<Config> = Vec::new();
    let mut i: usize = 0;
    proof { reveal(Seq::filter); }
    assert(ev.take(0).filter(|e: EntryView| e.group == g@) =~= Seq::<EntryView>::empty());
    while i < entries.len()
        invariant
            0 <= i <= entries@.len(),
            ev == entries_view(entries@),
            configs@.map_values(|c: Config| config_view(c)) == page_configs(ev.take(i as int), g@),
        decreases entries@.len() - i,
    {
        proof { reveal(Seq::filter); }
        assert(ev.take(i + 1).drop_last() =~= ev.take(i as int));
        assert(ev.take(i + 1).last() == entries@[i as int]@);
        let e = &entries[i];
        if e.group == *g {
            let mut file = e.name.clone();
            file.append(".conf");
            let ghost before = configs@;
            configs.push(Config { name: e.name.clone(), file, config: e.config.clone() });
            assert(configs@.map_values(|c: Config| config_view(c)) =~= before.map_values(
                |c: Config| config_view(c),
            ).push((e.name@, e.name@ + ".conf"@, e.config@)));
        }
        assert(configs@.map_values(|c: Config| config_view(c)) =~= page_configs(ev.take(i + 1), g@));
        i = i + 1;
    }
    assert(ev.take(i as int) =~= ev);
    PageData { configs }
}

/// The position of the group `g`.
fn find_group(groups: &Vec<GroupRecord>, g: &String) -> (r: Option<usize>)
    ensures
        match r {
            Some(i) => i < groups@.len() && groups@[i as int].group@ == g@,
            None => guid_of(groups_view(groups@), g@) is None,
        },
{
    let mut i: usize = 0;
    while i < groups.len()
        invariant
            0 <= i <= groups@.len(),
            forall|j: int| 0 <= j < i ==> (#[trigger] groups@[j]).group@ != g@,
        decreases groups@.len() - i,
    {
        if groups[i].group == *g {
            return Some(i);
        }
        i = i + 1;
    }
    assert forall|j: int| 0 <= j < groups@.len() implies (#[trigger] groups_view(groups@)[j]).0 != g@ by {
        assert(groups@[j].group@ != g@);
    };
    None
}

/// The position of the peer `id`.
fn find_entry(entries: &Vec<PageEntry>, id: &String) -> (r: Option<usize>)
    ensures
        match r {
            Some(i) => i < entries@.len() && entries@[i as int].id@ == id@,
            None => !has_entry(entries_view(entries@), id@),
        },
{
    let mut i: usize = 0;
    while i < entries.len()
        invariant
            0 <= i <= entries@.len(),
            forall|j: int| 0 <= j < i ==> (#[trigger] entries@[j]).id@ != id@,
        decreases entries@.len() - i,
    {
        if entries[i].id == *id {
            return Some(i);
        }
        i = i + 1;
    }
    assert forall|j: int| 0 <= j < entries@.len() implies (#[trigger] entries_view(entries@)[j]).id != id@ by {
        assert(entries@[j].id@ != id@);
    };
    None
}

impl View for StoredUsers {
    type V = StoreView;

    closed spec fn view(&self) -> StoreView {
        StoreView {
            records: self.records@,
            entries: entries_view(self.entries@),
            groups: groups_view(self.groups@),
        }
    }
}

impl StoredUsers {
    pub open spec fn wf(&self) -> bool {
        store_wf(self@)
    }

    /// An empty cache.
    pub fn new() -> (r: StoredUsers)
        ensures
            r@ == empty_store(),
            r.wf(),
    {
        let r = StoredUsers { records: Vec::new(), entries: Vec::new(), groups: Vec::new() };
        assert(r@.entries =~= Seq::<EntryView>::empty());
        assert(r@.groups =~= Seq::<(Seq<char>, Seq<char>)>::empty());
        assert(r@.records =~= Seq::<ClientTableRecord>::empty());
        r
    }

    /// The metadata records, one per peer.
    pub fn records(&self) -> (r: &Vec<ClientTableRecord>)
        ensures
            r@ == self@.records,
    {
        &self.records
    }

    /// The cached peers, in the order in which they were added.
    pub fn entries(&self) -> (r: &Vec<PageEntry>)
        ensures
            entries_view(r@) == self@.entries,
    {
        &self.entries
    }

    /// The groups and their tokens, in the order in which they were made.
    pub fn groups(&self) -> (r: &Vec<GroupRecord>)
        ensures
            groups_view(r@) == self@.groups,
    {
        &self.groups
    }

    /// A cache made of saved parts; `None` where they break its rules.
    pub fn from_parts(
        records: Vec<ClientTableRecord>,
        entries: Vec<PageEntry>,
        groups: Vec<GroupRecord>,
    ) -> (r: Option<StoredUsers>)
        ensures
            match r {
                Some(s) => s.wf() && s@.entries == entries_view(entries@) && s@.groups == groups_view(
                    groups@,
                ) && s@.records == last_per_id(records@),
                None => !store_wf(
                    StoreView {
                        records: last_per_id(records@),
                        entries: entries_view(entries@),
                        groups: groups_view(groups@),
                    },
                ),
            },
    {
        let records = dedup_by_id(records);
        let ghost ev = entries_view(entries@);
        let ghost gv = groups_view(groups@);
        let mut i: usize = 0;
        while i < entries.len()
            invariant
                0 <= i <= entries@.len(),
                ev == entries_view(entries@),
                gv == groups_view(groups@),
                forall|a: int, b: int|
                    0 <= a < i && 0 <= b < entries@.len() && a != b ==> (#[trigger] ev[a]).id != (#[trigger] ev[b]).id,
                forall|a: int| 0 <= a < i ==> guid_of(gv, (#[trigger] ev[a]).group) is Some,
            decreases entries@.len() - i,
        {
            let mut j: usize = 0;
            while j < entries.len()
                invariant
                    0 <= i < entries@.len(),
                    0 <= j <= entries@.len(),
                    ev == entries_view(entries@),
                    forall|b: int| 0 <= b < j && b != i ==> ev[i as int].id != (#[trigger] ev[b]).id,
                decreases entries@.len() - j,
            {
                if j != i && entries[j].id == entries[i].id {
                    assert(ev[j as int].id == ev[i as int].id);
                    return None;
                }
                j = j + 1;
            }
            match find_group(&groups, &entries[i].group) {
                Some(k) => {
                    assert(gv[k as int].0 == ev[i as int].group);
                },
                None => {
                    assert(ev[i as int].group == entries@[i as int].group@);
                    return None;
                },
            }
            i = i + 1;
        }
        let mut i: usize = 0;
        while i < groups.len()
            invariant
                0 <= i <= groups@.len(),
                gv == groups_view(groups@),
                forall|a: int, b: int|
                    0 <= a < i && 0 <= b < groups@.len() && a != b ==> (#[trigger] gv[a]).0 != (#[trigger] gv[b]).0
                        && gv[a].1 != gv[b].1,
            decreases groups@.len() - i,
        {
            let mut j: usize = 0;
            while j < groups.len()
                invariant
                    0 <= i < groups@.len(),
                    0 <= j <= groups@.len(),
                    gv == groups_view(groups@),
                    forall|b: int| 0 <= b < j && b != i ==> gv[i as int].0 != (#[trigger] gv[b]).0 && gv[i as int].1 != gv[b].1,
                decreases groups@.len() - j,
            {
                if j != i && groups[j].group == groups[i].group {
                    assert(gv[j as int].0 == gv[i as int].0);
                    return None;
                }
                if j != i && groups[j].guid == groups[i].guid {
                    assert(gv[j as int].1 == gv[i as int].1);
                    return None;
                }
                j = j + 1;
            }
            i = i + 1;
        }
        Some(StoredUsers { records, entries, groups })
    }

    /// Adds the peer `public_id` to `group`, giving a new group a token that
    /// no group has, and says which page to write. `None`, with nothing
    /// changed, where the group is new and every token drawn was taken.
    pub fn add_user_raw(&mut self, public_id: String, name: String, config: String, group: String) -> (r: Option<(
        GroupRecord,
        PageUpdate,
    )>)
        requires
            old(self).wf(),
        ensures
            final(self).wf(),
            match r {
                None => guid_of(old(self)@.groups, group@) is None && final(self)@ == old(self)@,
                Some((rec, page)) => {
                    &&& final(self)@.records == old(self)@.records
                    &&& final(self)@.entries == drop_entry(old(self)@.entries, public_id@).push(
                        EntryView { id: public_id@, name: name@, group: group@, config: config@ },
                    )
                    &&& rec.group@ == group@
                    &&& match guid_of(old(self)@.groups, group@) {
                        Some(g) => rec.guid@ == g && final(self)@.groups == old(self)@.groups,
                        None => final(self)@.groups == old(self)@.groups.push((group@, rec.guid@))
                            && forall|i: int|
                            0 <= i < old(self)@.groups.len() ==> (#[trigger] old(self)@.groups[i]).1 != rec.guid@,
                    }
                    &&& guid_of(final(self)@.groups, group@) == Some(rec.guid@)
                    &&& match page {
                        PageUpdate::Write { guid, page } => guid@ == rec.guid@ && page_view(page) == page_configs(
                            final(self)@.entries,
                            group@,
                        ),
                        PageUpdate::Remove { .. } => false,
                    }
                },
            },
    {
        let fresh = match find_group(&self.groups, &group) {
            Some(k) => {
                assert(groups_view(self.groups@)[k as int].0 == group@);
                String::new()
            },
            None => match fresh_guid(&self.groups) {
                Some(g) => {
                    assert(self@.groups == groups_view(self.groups@));
                    assert forall|i: int| 0 <= i < self@.groups.len() implies (#[trigger] self@.groups[i]).1 != g@ by {
                        assert(groups_view(self.groups@)[i].1 != g@);
                    };
                    g
                },
                None => return None,
            },
        };
        let r = self.add_in_group(public_id, name, config, group, fresh);
        Some(r)
    }

    /// Adds the peer `public_id` to `group`; a new group gets the token
    /// `fresh`, which no group has yet.
    fn add_in_group(&mut self, public_id: String, name: String, config: String, group: String, fresh: String) -> (r: (
        GroupRecord,
        PageUpdate,
    ))
        requires
            old(self).wf(),
            guid_of(old(self)@.groups, group@) is None ==> forall|i: int|
                0 <= i < old(self)@.groups.len() ==> (#[trigger] old(self)@.groups[i]).1 != fresh@,
        ensures
            final(self).wf(),
            final(self)@.records == old(self)@.records,
            final(self)@.entries == drop_entry(old(self)@.entries, public_id@).push(
                EntryView { id: public_id@, name: name@, group: group@, config: config@ },
            ),
            r.0.group@ == group@,
            match guid_of(old(self)@.groups, group@) {
                Some(g) => r.0.guid@ == g && final(self)@.groups == old(self)@.groups,
                None => r.0.guid@ == fresh@ && final(self)@.groups == old(self)@.groups.push((group@, r.0.guid@)),
            },
            guid_of(final(self)@.groups, group@) == Some(r.0.guid@),
            match r.1 {
                PageUpdate::Write { guid, page } => guid@ == r.0.guid@ && page_view(page) == page_configs(
                    final(self)@.entries,
                    group@,
                ),
                PageUpdate::Remove { .. } => false,
            },
    {
        let ghost old_entries = self@.entries;
        let ghost old_groups = self@.groups;
        let ghost new_entry = EntryView { id: public_id@, name: name@, group: group@, config: config@ };
        match find_entry(&self.entries, &public_id) {
            Some(i) => {
                self.entries.remove(i);
                assert(entries_view(self.entries@) =~= old_entries.remove(i as int));
                assert(old_entries[i as int].id == public_id@);
                assert(has_entry(old_entries, public_id@));
                let ghost c = choose|c: int| 0 <= c < old_entries.len() && (#[trigger] old_entries[c]).id == public_id@;
                assert(c == i);
            },
            None => {},
        }
        let ghost mid = entries_view(self.entries@);
        assert(mid == drop_entry(old_entries, public_id@));
        assert(forall|a: int| 0 <= a < mid.len() ==> (#[trigger] mid[a]).id != public_id@);
        assert forall|a: int| 0 <= a < mid.len() implies exists|b: int| 0 <= b < old_entries.len() && #[trigger] mid[a] == old_entries[b] by {
            if has_entry(old_entries, public_id@) {
                let c = choose|c: int| 0 <= c < old_entries.len() && (#[trigger] old_entries[c]).id == public_id@;
                if a < c {
                    assert(mid[a] == old_entries[a]);
                } else {
                    assert(mid[a] == old_entries[a + 1]);
                }
            } else {
                assert(mid[a] == old_entries[a]);
            }
        };
        let guid = match find_group(&self.groups, &group) {
            Some(k) => {
                proof { lemma_guid_at(old_groups, k as int); }
                self.groups[k].guid.clone()
            },
            None => {
                let g = fresh;
                self.groups.push(GroupRecord { group: group.clone(), guid: g.clone() });
                assert(groups_view(self.groups@) =~= old_groups.push((group@, g@)));
                proof { lemma_guid_at(groups_view(self.groups@), old_groups.len() as int); }
                g
            },
        };
        let ghost gs = groups_view(self.groups@);
        assert(forall|a: int| 0 <= a < old_groups.len() ==> gs[a] == old_groups[a]);
        self.entries.push(PageEntry { id: public_id, name, group: group.clone(), config });
        assert(entries_view(self.entries@) =~= mid.push(new_entry));
        let page = build_page(&self.entries, &group);
        assert(guid_of(gs, group@) is Some);
        assert forall|a: int| 0 <= a < self@.entries.len() implies guid_of(gs, (#[trigger] self@.entries[a]).group) is Some by {
            if a < mid.len() {
                let b = choose|b: int| 0 <= b < old_entries.len() && #[trigger] mid[a] == old_entries[b];
                assert(guid_of(old_groups, old_entries[b].group) is Some);
                let c = choose|c: int| 0 <= c < old_groups.len() && (#[trigger] old_groups[c]).0 == old_entries[b].group;
                assert(gs[c].0 == old_entries[b].group);
            }
        };
        (GroupRecord { group: group.clone(), guid: guid.clone() }, PageUpdate::Write { guid, page })
    }

    /// Takes the peer `client_id` out of the cache and says what becomes of
    /// its group's page: written again without it, or removed where the
    /// group has no peer left. `None` where the peer is not cached.
    pub fn rm_by_id(&mut self, client_id: &String) -> (r: Option<PageUpdate>)
        requires
            old(self).wf(),
        ensures
            final(self).wf(),
            final(self)@.records == without_client(old(self)@.records, client_id@),
            final(self)@.entries == drop_entry(old(self)@.entries, client_id@),
            final(self)@.groups == old(self)@.groups,
            r is None <==> !has_entry(old(self)@.entries, client_id@),
            match r {
                Some(PageUpdate::Write { guid, page }) => {
                    let g = group_of(old(self)@.entries, client_id@);
                    &&& guid_of(old(self)@.groups, g) == Some(guid@)
                    &&& page_view(page) == page_configs(final(self)@.entries, g)
                    &&& page_view(page).len() > 0
                },
                Some(PageUpdate::Remove { guid }) => {
                    let g = group_of(old(self)@.entries, client_id@);
                    &&& guid_of(old(self)@.groups, g) == Some(guid@)
                    &&& page_configs(final(self)@.entries, g).len() == 0
                },
                None => true,
            },
    {
        let ghost old_entries = self@.entries;
        let ghost old_records = self@.records;
        remove_client(&mut self.records, client_id);
        proof { lemma_without_client_unique(old_records, client_id@); }
        let i = match find_entry(&self.entries, client_id) {
            Some(i) => i,
            None => {
                return None;
            },
        };
        assert(old_entries[i as int].id == client_id@);
        let ghost c = choose|c: int| 0 <= c < old_entries.len() && (#[trigger] old_entries[c]).id == client_id@;
        assert(c == i);
        let group = self.entries[i].group.clone();
        self.entries.remove(i);
        let ghost mid = entries_view(self.entries@);
        assert(mid =~= old_entries.remove(i as int));
        assert forall|a: int| 0 <= a < mid.len() implies guid_of(self@.groups, (#[trigger] mid[a]).group) is Some by {
            if a < i {
                assert(mid[a] == old_entries[a]);
            } else {
                assert(mid[a] == old_entries[a + 1]);
            }
        };
        assert forall|a: int, b: int| 0 <= a < mid.len() && 0 <= b < mid.len() && a != b implies (#[trigger] mid[a]).id != (#[trigger] mid[b]).id by {
            let a2 = if a < i { a } else { a + 1 };
            let b2 = if b < i { b } else { b + 1 };
            assert(mid[a] == old_entries[a2]);
            assert(mid[b] == old_entries[b2]);
        };
        let k = match find_group(&self.groups, &group) {
            Some(k) => k,
            None => {
                assert(guid_of(self@.groups, old_entries[i as int].group) is Some);
                return None;
            },
        };
        proof { lemma_guid_at(self@.groups, k as int); }
        let guid = self.groups[k].guid.clone();
        let page = build_page(&self.entries, &group);
        if page.configs.len() == 0 {
            assert(page_view(page).len() == 0);
            Some(PageUpdate::Remove { guid })
        } else {
            Some(PageUpdate::Write { guid, page })
        }
    }

    /// Empties the cache.
    pub fn clear(&mut self)
        ensures
            final(self)@ == cleared(old(self)@),
            final(self).wf(),
    {
        *self = StoredUsers::new();
    }

    /// Replaces the metadata records with those the remote table holds,
    /// the last one given for each id.
    pub fn set_records(&mut self, table: Vec<ClientTableRecord>)
        requires
            old(self).wf(),
        ensures
            final(self).wf(),
            final(self)@.records == last_per_id(table@),
            forall|id: Seq<char>| has_client(final(self)@.records, id) <==> has_client(table@, id),
            final(self)@.entries == old(self)@.entries,
            final(self)@.groups == old(self)@.groups,
    {
        proof {
            assert forall|id: Seq<char>| has_client(last_per_id(table@), id) <==> has_client(table@, id) by {
                lemma_last_per_id_ids(table@, id);
            };
        }
        self.records = dedup_by_id(table);
    }

    /// The groups and their tokens.
    pub fn group_records(&self) -> (r: Vec<GroupRecord>)
        ensures
            groups_view(r@) == self@.groups,
    {
        let mut r: Vec<GroupRecord> = Vec::new();
        let mut i: usize = 0;
        while i < self.groups.len()
            invariant
                0 <= i <= self.groups@.len(),
                groups_view(r@) == groups_view(self.groups@).take(i as int),
            decreases self.groups@.len() - i,
        {
            let g = &self.groups[i];
            let ghost before = r@;
            r.push(GroupRecord { group: g.group.clone(), guid: g.guid.clone() });
            assert(groups_view(r@) =~= groups_view(before).push((g.group@, g.guid@)));
            assert(groups_view(self.groups@).take(i + 1) =~= groups_view(self.groups@).take(i as int).push(
                groups_view(self.groups@)[i as int],
            ));
            assert(groups_view(r@) =~= groups_view(self.groups@).take(i + 1));
            i = i + 1;
        }
        assert(groups_view(self.groups@).take(i as int) =~= groups_view(self.groups@));
        r
    }

    /// The cached peers, by id and name.
    pub fn user_list(&self) -> (r: Vec<User>)
        ensures
            r@.len() == self@.records.len(),
            forall|i: int|
                0 <= i < r@.len() ==> (#[trigger] r@[i]).uid@ == self@.records[i].client_id@ && r@[i].name@
                    == self@.records[i].user_data.client_name@,
    {
        let mut r: Vec<User> = Vec::new();
        let mut i: usize = 0;
        while i < self.records.len()
            invariant
                0 <= i <= self.records@.len(),
                r@.len() == i,
                forall|j: int|
                    0 <= j < i ==> (#[trigger] r@[j]).uid@ == self.records@[j].client_id@ && r@[j].name@
                        == self.records@[j].user_data.client_name@,
            decreases self.records@.len() - i,
        {
            r.push(User::from(&self.records[i]));
            i = i + 1;
        }
        r
    }

    /// The cached peers with their telemetry.
    pub fn user_stats(&self) -> (r: Vec<UserStats>)
        ensures
            r@.len() == self@.records.len(),
            forall|i: int|
                0 <= i < r@.len() ==> {
                    let rec = self@.records[i];
                    &&& (#[trigger] r@[i]).uid@ == rec.client_id@
                    &&& r@[i].name@ == rec.user_data.client_name@
                    &&& r@[i].recv@ == crate::table::or_default(rec.user_data.data_received, "0 KiB"@)
                    &&& r@[i].sent@ == crate::table::or_default(rec.user_data.data_sent, "0 KiB"@)
                    &&& r@[i].last_seen@ == crate::table::or_default(rec.user_data.latest_handshake, "Never"@)
                    &&& r@[i].created@ == rec.user_data.creation_date@
                },
    {
        let mut r: Vec<UserStats> = Vec::new();
        let mut i: usize = 0;
        while i < self.records.len()
            invariant
                0 <= i <= self.records@.len(),
                r@.len() == i,
                forall|j: int|
                    0 <= j < i ==> {
                        let rec = self.records@[j];
                        &&& (#[trigger] r@[j]).uid@ == rec.client_id@
                        &&& r@[j].name@ == rec.user_data.client_name@
                        &&& r@[j].recv@ == crate::table::or_default(rec.user_data.data_received, "0 KiB"@)
                        &&& r@[j].sent@ == crate::table::or_default(rec.user_data.data_sent, "0 KiB"@)
                        &&& r@[j].last_seen@ == crate::table::or_default(rec.user_data.latest_handshake, "Never"@)
                        &&& r@[j].created@ == rec.user_data.creation_date@
                    },
            decreases self.records@.len() - i,
        {
            r.push(UserStats::from(&self.records[i]));
            i = i + 1;
        }
        r
    }

    /// The page of group `group` as it stands.
    pub fn page_data(&self, group: &String) -> (r: PageData)
        ensures
            page_view(r) == page_configs(self@.entries, group@),
    {
        build_page(&self.entries, group)
    }
}

/// Clearing twice leaves the same empty cache as clearing once.
pub proof fn lemma_clear_idempotent(s: StoreView)
    ensures
        cleared(cleared(s)) == cleared(s),
        cleared(s) == empty_store(),
{
}

/// In every well-formed cache, a peer is in group `g` exactly when it is on
/// `g`'s page, so the peers that have a group are those on some page.
pub proof fn lemma_pages_match_groups(s: StoreView)
    requires
        store_wf(s),
    ensures
        forall|id: Seq<char>, g: Seq<char>|
            (#[trigger] id_to_group(s).contains_key(id) && id_to_group(s)[id] == g) <==> #[trigger] page_of(
                s,
                g,
            ).contains_key(id),
        id_to_group(s).dom() == Set::new(|id: Seq<char>| exists|g: Seq<char>| #[trigger] page_of(s, g).contains_key(id)),
{
    assert forall|id: Seq<char>, g: Seq<char>|
        (#[trigger] id_to_group(s).contains_key(id) && id_to_group(s)[id] == g) <==> #[trigger] page_of(
            s,
            g,
        ).contains_key(id) by {
        if page_of(s, g).contains_key(id) {
            let i = choose|i: int| 0 <= i < s.entries.len() && (#[trigger] s.entries[i]).id == id && s.entries[i].group == g;
            assert(has_entry(s.entries, id));
            let c = choose|c: int| 0 <= c < s.entries.len() && (#[trigger] s.entries[c]).id == id;
            assert(c == i);
        }
        if id_to_group(s).contains_key(id) && id_to_group(s)[id] == g {
            let c = choose|c: int| 0 <= c < s.entries.len() && (#[trigger] s.entries[c]).id == id;
            assert(s.entries[c].group == g);
        }
    };
    assert forall|id: Seq<char>| id_to_group(s).dom().contains(id) <==> (exists|g: Seq<char>| #[trigger] page_of(s, g).contains_key(id)) by {
        if id_to_group(s).dom().contains(id) {
            assert(page_of(s, id_to_group(s)[id]).contains_key(id));
        }
    };
    assert(id_to_group(s).dom() =~= Set::new(|id: Seq<char>| exists|g: Seq<char>| #[trigger] page_of(s, g).contains_key(id)));
}

} // verus!
