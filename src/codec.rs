//! The peer configuration document: an `[Interface]` section kept verbatim
//! and one `[Peer]` section per peer, each with `PublicKey`, `PresharedKey`
//! and `AllowedIPs`. Peers are kept in insertion order, keyed by public key.

use vstd::prelude::*;
use vstd::string::*;
use crate::text::{
    after_last, before_first, chars_of, find_first, find_last, first_at, has_prefix,
    parse_u32, starts_with, string_of, trim, trim_range, u32_of, split_lines, lemma_split_nonempty,
};

verus! {

/// One peer of the document.
pub struct AwgPeer {
    pub public_key: String,
    pub preshared_key: String,
    pub allowed_ips: String,
}

pub struct PeerView {
    pub public_key: Seq<char>,
    pub preshared_key: Seq<char>,
    pub allowed_ips: Seq<char>,
}

impl View for AwgPeer {
    type V = PeerView;

    open spec fn view(&self) -> PeerView {
        PeerView {
            public_key: self.public_key@,
            preshared_key: self.preshared_key@,
            allowed_ips: self.allowed_ips@,
        }
    }
}

pub open spec fn lines_view(v: Seq<String>) -> Seq<Seq<char>> {
    v.map_values(|l: String| l@)
}

pub open spec fn opt_view(o: Option<String>) -> Option<Seq<char>> {
    match o {
        Some(s) => Some(s@),
        None => None,
    }
}

/// The trimmed text after the first `=` of a `key = value` line.
pub open spec fn value_of(line: Seq<char>) -> Option<Seq<char>> {
    if exists|k: int| first_at(line, '=', k) {
        let k = choose|k: int| first_at(line, '=', k);
        Some(trim(line.subrange(k + 1, line.len() as int)))
    } else {
        None
    }
}

/// The fields of a `[Peer]` section seen so far.
pub struct PeerFields {
    pub public_key: Option<Seq<char>>,
    pub preshared_key: Option<Seq<char>>,
    pub allowed_ips: Option<Seq<char>>,
}

/// One line of a `[Peer]` section: a recognised key without `=` spoils the
/// section, a later value of a key replaces an earlier one, other lines are
/// dropped.
pub open spec fn peer_step(acc: Option<PeerFields>, line: Seq<char>) -> Option<PeerFields> {
    match acc {
        None => None,
        Some(f) => if starts_with(line, "PublicKey"@) {
            match value_of(line) {
                Some(v) => Some(PeerFields { public_key: Some(v), ..f }),
                None => None,
            }
        } else if starts_with(line, "PresharedKey"@) {
            match value_of(line) {
                Some(v) => Some(PeerFields { preshared_key: Some(v), ..f }),
                None => None,
            }
        } else if starts_with(line, "AllowedIPs"@) {
            match value_of(line) {
                Some(v) => Some(PeerFields { allowed_ips: Some(v), ..f }),
                None => None,
            }
        } else {
            Some(f)
        },
    }
}

pub open spec fn peer_fields(lines: Seq<Seq<char>>) -> Option<PeerFields>
    decreases lines.len(),
{
    if lines.len() == 0 {
        Some(PeerFields { public_key: None, preshared_key: None, allowed_ips: None })
    } else {
        peer_step(peer_fields(lines.drop_last()), lines.last())
    }
}

/// The peer that the lines of a `[Peer]` section describe: all three keys
/// must be there.
pub open spec fn peer_of(lines: Seq<Seq<char>>) -> Option<PeerView> {
    match peer_fields(lines) {
        Some(PeerFields { public_key: Some(a), preshared_key: Some(b), allowed_ips: Some(c) }) => Some(
            PeerView { public_key: a, preshared_key: b, allowed_ips: c },
        ),
        _ => None,
    }
}

/// The text of one `[Peer]` section.
pub open spec fn peer_text(p: PeerView) -> Seq<char> {
    "[Peer]\nPublicKey = "@ + p.public_key + "\nPresharedKey = "@ + p.preshared_key
        + "\nAllowedIPs = "@ + p.allowed_ips
}

/// The address suffix of an `AllowedIPs` value `W.X.Y.Z/32`: the last dotted
/// part before the first `/`, read as a `u32`.
pub open spec fn id_of(allowed_ips: Seq<char>) -> Option<u32> {
    u32_of(after_last(before_first(allowed_ips, '/'), '.'))
}

/// The largest address suffix among the peers, and at least 1.
pub open spec fn last_id(peers: Seq<PeerView>) -> u32
    decreases peers.len(),
{
    if peers.len() == 0 {
        1
    } else {
        let m = last_id(peers.drop_last());
        match id_of(peers.last().allowed_ips) {
            Some(id) => if id > m {
                id
            } else {
                m
            },
            None => m,
        }
    }
}

/// The trimmed value of the line `cs` after its first `=`.
fn line_value(cs: &[char]) -> (r: Option<String>)
    ensures
        opt_view(r) == value_of(cs@),
{
    match find_first(cs, 0, cs.len(), '=') {
        Some(k) => {
            assert(cs@.subrange(0, cs@.len() as int) =~= cs@);
            assert(first_at(cs@, '=', k as int));
            let (a, b) = trim_range(cs, k + 1, cs.len());
            let v = string_of(&cs[a..b]);
            Some(v)
        },
        None => {
            assert(!exists|k: int| first_at(cs@, '=', k));
            None
        },
    }
}

impl AwgPeer {
    /// Reads a `[Peer]` section from its lines; `None` where a key is missing
    /// or a recognised line has no `=`.
    pub fn parse_str(lines: &Vec<String>) -> (r: Option<AwgPeer>)
        ensures
            match r {
                Some(p) => peer_of(lines_view(lines@)) == Some(p@),
                None => peer_of(lines_view(lines@)) is None,
            },
    {
        let pk_tag = chars_of("PublicKey");
        let psk_tag = chars_of("PresharedKey");
        let ips_tag = chars_of("AllowedIPs");
        let mut public_key: Option<String> = None;
        let mut preshared_key: Option<String> = None;
        let mut allowed_ips: Option<String> = None;
        let ghost all = lines_view(lines@);
        let mut i: usize = 0;
        while i < lines.len()
            invariant
                0 <= i <= lines@.len(),
                all == lines_view(lines@),
                pk_tag@ == "PublicKey"@,
                psk_tag@ == "PresharedKey"@,
                ips_tag@ == "AllowedIPs"@,
                peer_fields(all.take(i as int)) == Some(
                    PeerFields {
                        public_key: opt_view(public_key),
                        preshared_key: opt_view(preshared_key),
                        allowed_ips: opt_view(allowed_ips),
                    },
                ),
            decreases lines@.len() - i,
        {
            let cs = chars_of(lines[i].as_str());
            assert(all.take(i + 1).drop_last() =~= all.take(i as int));
            assert(all.take(i + 1).last() == cs@);
            assert(cs@.subrange(0, cs@.len() as int) =~= cs@);
            if has_prefix(&cs, 0, cs.len(), &pk_tag) {
                match line_value(&cs) {
                    Some(v) => public_key = Some(v),
                    None => {
                        proof { lemma_spoiled_stays(all, i as int + 1); }
                        return None;
                    },
                }
            } else if has_prefix(&cs, 0, cs.len(), &psk_tag) {
                match line_value(&cs) {
                    Some(v) => preshared_key = Some(v),
                    None => {
                        proof { lemma_spoiled_stays(all, i as int + 1); }
                        return None;
                    },
                }
            } else if has_prefix(&cs, 0, cs.len(), &ips_tag) {
                match line_value(&cs) {
                    Some(v) => allowed_ips = Some(v),
                    None => {
                        proof { lemma_spoiled_stays(all, i as int + 1); }
                        return None;
                    },
                }
            }
            i = i + 1;
        }
        assert(all.take(i as int) =~= all);
        match (public_key, preshared_key, allowed_ips) {
            (Some(a), Some(b), Some(c)) => Some(
                AwgPeer { public_key: a, preshared_key: b, allowed_ips: c },
            ),
            _ => None,
        }
    }

    /// The `[Peer]` section of this peer.
    pub fn to_string(&self) -> (r: String)
        ensures
            r@ == peer_text(self@),
    {
        let mut s = String::from_str("[Peer]\nPublicKey = ");
        s.append(self.public_key.as_str());
        s.append("\nPresharedKey = ");
        s.append(self.preshared_key.as_str());
        s.append("\nAllowedIPs = ");
        s.append(self.allowed_ips.as_str());
        s
    }
}

/// Once a section is spoiled, no later line mends it.
proof fn lemma_spoiled_stays(lines: Seq<Seq<char>>, k: int)
    requires
        0 <= k <= lines.len(),
        peer_fields(lines.take(k)) is None,
    ensures
        peer_fields(lines) is None,
    decreases lines.len() - k,
{
    if k < lines.len() {
        assert(lines.take(k + 1).drop_last() =~= lines.take(k));
        lemma_spoiled_stays(lines, k + 1);
    } else {
        assert(lines.take(k) =~= lines);
    }
}

/// The peer configuration document.
pub struct AwgInterfaceConf {
    /// The `[Interface]` lines, joined by newlines, kept as they were read.
    pub interface: String,
    /// The peers, in the order in which they were first seen or added.
    pub peers: Vec<AwgPeer>,
}

pub struct DocView {
    pub interface: Seq<char>,
    pub peers: Seq<PeerView>,
}

impl View for AwgInterfaceConf {
    type V = DocView;

    open spec fn view(&self) -> DocView {
        DocView { interface: self.interface@, peers: self.peers@.map_values(|p: AwgPeer| p@) }
    }
}

/// No two peers share a public key.
pub open spec fn keys_unique(peers: Seq<PeerView>) -> bool {
    forall|i: int, j: int|
        0 <= i < peers.len() && 0 <= j < peers.len() && i != j ==> (#[trigger] peers[i]).public_key
            != (#[trigger] peers[j]).public_key
}

/// Whether some peer has public key `k`.
pub open spec fn has_key(peers: Seq<PeerView>, k: Seq<char>) -> bool {
    exists|i: int| 0 <= i < peers.len() && (#[trigger] peers[i]).public_key == k
}

/// `p` put in the place of the peer with its key, or appended.
pub open spec fn upsert(peers: Seq<PeerView>, p: PeerView) -> Seq<PeerView> {
    if has_key(peers, p.public_key) {
        let i = choose|i: int| 0 <= i < peers.len() && (#[trigger] peers[i]).public_key == p.public_key;
        peers.update(i, p)
    } else {
        peers.push(p)
    }
}

/// The peers without the one whose key is `k`.
pub open spec fn without_key(peers: Seq<PeerView>, k: Seq<char>) -> Seq<PeerView> {
    peers.filter(|p: PeerView| p.public_key != k)
}

/// Lines joined by newlines.
pub open spec fn join_lines(ls: Seq<Seq<char>>) -> Seq<char>
    decreases ls.len(),
{
    if ls.len() == 0 {
        Seq::<char>::empty()
    } else if ls.len() == 1 {
        ls[0]
    } else {
        join_lines(ls.drop_last()) + "\n"@ + ls.last()
    }
}

/// The state of a reading of the document, line by line.
pub struct DocScan {
    /// The name of the section being read.
    pub section: Seq<char>,
    /// Its lines so far.
    pub current: Seq<Seq<char>>,
    pub interface: Seq<Seq<char>>,
    pub peers: Seq<PeerView>,
}

pub open spec fn empty_scan() -> DocScan {
    DocScan {
        section: Seq::<char>::empty(),
        current: Seq::<Seq<char>>::empty(),
        interface: Seq::<Seq<char>>::empty(),
        peers: Seq::<PeerView>::empty(),
    }
}

/// The section being read, put away: the lines of an `Interface` section
/// replace the interface, a complete `Peer` section is put in by its key,
/// anything else is dropped.
pub open spec fn store(st: DocScan) -> DocScan {
    if st.section == "Interface"@ {
        DocScan { interface: st.current, ..st }
    } else if st.section == "Peer"@ {
        match peer_of(st.current) {
            Some(p) => DocScan { peers: upsert(st.peers, p), ..st },
            None => st,
        }
    } else {
        st
    }
}

pub open spec fn is_header(l: Seq<char>) -> bool {
    l.len() >= 2 && l[0] == '[' && l.last() == ']'
}

/// One raw line: blank and `#` lines are skipped, a `[name]` header opens a
/// section, anything else is a line of the current section, trimmed.
pub open spec fn doc_step(st: DocScan, raw: Seq<char>) -> DocScan {
    let l = trim(raw);
    if l.len() == 0 || l[0] == '#' {
        st
    } else if is_header(l) {
        DocScan {
            section: l.subrange(1, l.len() - 1),
            current: Seq::<Seq<char>>::empty(),
            ..store(st)
        }
    } else {
        DocScan { current: st.current.push(l), ..st }
    }
}

pub open spec fn scan_lines(lines: Seq<Seq<char>>) -> DocScan
    decreases lines.len(),
{
    if lines.len() == 0 {
        empty_scan()
    } else {
        doc_step(scan_lines(lines.drop_last()), lines.last())
    }
}

/// What the document text `s` holds: `None` where it has no (non-empty)
/// `[Interface]` section.
pub open spec fn parse_doc(s: Seq<char>) -> Option<DocView> {
    let st = store(scan_lines(split_lines(s)));
    if st.interface.len() == 0 {
        None
    } else {
        Some(DocView { interface: join_lines(st.interface), peers: st.peers })
    }
}

/// Peer sections joined by blank lines.
pub open spec fn peers_text(ps: Seq<PeerView>) -> Seq<char>
    decreases ps.len(),
{
    if ps.len() == 0 {
        Seq::<char>::empty()
    } else if ps.len() == 1 {
        peer_text(ps[0])
    } else {
        peers_text(ps.drop_last()) + "\n\n"@ + peer_text(ps.last())
    }
}

/// The text of a document.
pub open spec fn doc_text(d: DocView) -> Seq<char> {
    "[Interface]\n"@ + d.interface + "\n\n"@ + peers_text(d.peers) + "\n\n"@
}

/// The exec side of a `DocScan`.
struct Scanner {
    section: Vec<char>,
    current: Vec<String>,
    interface: Vec<String>,
    peers: Vec<AwgPeer>,
}

impl Scanner {
    spec fn view(&self) -> DocScan {
        DocScan {
            section: self.section@,
            current: lines_view(self.current@),
            interface: lines_view(self.interface@),
            peers: self.peers@.map_values(|p: AwgPeer| p@),
        }
    }

    fn store(&mut self, interface_tag: &Vec<char>, peer_tag: &Vec<char>)
        requires
            interface_tag@ == "Interface"@,
            peer_tag@ == "Peer"@,
            keys_unique(old(self).view().peers),
        ensures
            final(self).view() == store(old(self).view()),
            keys_unique(final(self).view().peers),
    {
        if crate::text::same_chars(&self.section, interface_tag) {
            self.interface = self.current.clone();
            assert(lines_view(self.interface@) =~= lines_view(self.current@));
        } else if crate::text::same_chars(&self.section, peer_tag) {
            match AwgPeer::parse_str(&self.current) {
                Some(p) => {
                    upsert_peer(&mut self.peers, p);
                },
                None => {},
            }
        }
    }

    fn step(&mut self, cs: &[char], lo: usize, hi: usize, interface_tag: &Vec<char>, peer_tag: &Vec<char>)
        requires
            lo <= hi <= cs@.len(),
            interface_tag@ == "Interface"@,
            peer_tag@ == "Peer"@,
            keys_unique(old(self).view().peers),
        ensures
            final(self).view() == doc_step(old(self).view(), cs@.subrange(lo as int, hi as int)),
            keys_unique(final(self).view().peers),
    {
        let (a, b) = trim_range(cs, lo, hi);
        let ghost l = cs@.subrange(a as int, b as int);
        if a == b || cs[a] == '#' {
            return;
        }
        if b - a >= 2 && cs[a] == '[' && cs[b - 1] == ']' {
            self.store(interface_tag, peer_tag);
            let mut section: Vec<char> = Vec::new();
            let mut i = a + 1;
            while i < b - 1
                invariant
                    a + 1 <= i <= b - 1,
                    b <= cs@.len(),
                    section@ == cs@.subrange(a + 1, i as int),
                decreases b - 1 - i,
            {
                section.push(cs[i]);
                assert(section@ =~= cs@.subrange(a + 1, i + 1));
                i = i + 1;
            }
            assert(section@ =~= l.subrange(1, l.len() - 1));
            self.section = section;
            self.current = Vec::new();
            assert(lines_view(self.current@) =~= Seq::<Seq<char>>::empty());
        } else {
            let line = string_of(&cs[a..b]);
            self.current.push(line);
            assert(lines_view(self.current@) =~= lines_view(old(self).current@).push(l));
        }
    }
}

/// Puts `p` in the place of the peer with its key, or appends it.
fn upsert_peer(peers: &mut Vec<AwgPeer>, p: AwgPeer)
    requires
        keys_unique(old(peers)@.map_values(|q: AwgPeer| q@)),
    ensures
        final(peers)@.map_values(|q: AwgPeer| q@) == upsert(old(peers)@.map_values(|q: AwgPeer| q@), p@),
        keys_unique(final(peers)@.map_values(|q: AwgPeer| q@)),
{
    let ghost before = peers@.map_values(|q: AwgPeer| q@);
    match find_peer(peers, &p.public_key) {
        Some(i) => {
            assert(before[i as int].public_key == p@.public_key);
            assert(has_key(before, p@.public_key));
            let ghost j = choose|j: int| 0 <= j < before.len() && (#[trigger] before[j]).public_key == p@.public_key;
            assert(j == i);
            peers.set(i, p);
            assert(peers@.map_values(|q: AwgPeer| q@) =~= before.update(i as int, p@));
        },
        None => {
            peers.push(p);
            assert(peers@.map_values(|q: AwgPeer| q@) =~= before.push(p@));
        },
    }
}

/// The position of the peer whose public key is `key`.
fn find_peer(peers: &Vec<AwgPeer>, key: &String) -> (r: Option<usize>)
    ensures
        match r {
            Some(i) => i < peers@.len() && peers@[i as int].public_key@ == key@,
            None => !has_key(peers@.map_values(|q: AwgPeer| q@), key@),
        },
{
    let ghost v = peers@.map_values(|q: AwgPeer| q@);
    let mut i: usize = 0;
    while i < peers.len()
        invariant
            0 <= i <= peers@.len(),
            v == peers@.map_values(|q: AwgPeer| q@),
            forall|j: int| 0 <= j < i ==> (#[trigger] v[j]).public_key != key@,
        decreases peers@.len() - i,
    {
        if peers[i].public_key == *key {
            return Some(i);
        }
        i = i + 1;
    }
    None
}

impl AwgInterfaceConf {
    /// No two peers share a public key.
    pub open spec fn wf(&self) -> bool {
        keys_unique(self@.peers)
    }

    /// Reads the document text: `None` where it has no `[Interface]`
    /// section with a line in it, which stands for a store not set up yet.
    /// Incomplete `[Peer]` sections are dropped.
    pub fn from_text(text: &str) -> (r: Option<AwgInterfaceConf>)
        ensures
            match r {
                Some(d) => parse_doc(text@) == Some(d@) && d.wf(),
                None => parse_doc(text@) is None,
            },
    {
        let cs = chars_of(text);
        let interface_tag = chars_of("Interface");
        let peer_tag = chars_of("Peer");
        let mut sc = Scanner {
            section: Vec::new(),
            current: Vec::new(),
            interface: Vec::new(),
            peers: Vec::new(),
        };
        assert(lines_view(sc.current@) =~= Seq::<Seq<char>>::empty());
        assert(lines_view(sc.interface@) =~= Seq::<Seq<char>>::empty());
        assert(sc.peers@.map_values(|p: AwgPeer| p@) =~= Seq::<PeerView>::empty());
        assert(sc.section@ =~= Seq::<char>::empty());
        assert(sc.view() == empty_scan());
        let mut start: usize = 0;
        let mut i: usize = 0;
        proof { lemma_split_nonempty(cs@.take(0)); }
        assert(split_lines(cs@.take(0)) =~= seq![Seq::<char>::empty()]);
        assert(split_lines(cs@.take(0)).drop_last() =~= Seq::<Seq<char>>::empty());
        while i < cs.len()
            invariant
                0 <= start <= i <= cs@.len(),
                interface_tag@ == "Interface"@,
                peer_tag@ == "Peer"@,
                keys_unique(sc.view().peers),
                split_lines(cs@.take(i as int)).len() >= 1,
                sc.view() == scan_lines(split_lines(cs@.take(i as int)).drop_last()),
                split_lines(cs@.take(i as int)).last() == cs@.subrange(start as int, i as int),
            decreases cs@.len() - i,
        {
            let ghost before = split_lines(cs@.take(i as int));
            assert(cs@.take(i + 1).drop_last() =~= cs@.take(i as int));
            if cs[i] == '\n' {
                sc.step(&cs, start, i, &interface_tag, &peer_tag);
                assert(split_lines(cs@.take(i + 1)) == before.push(Seq::<char>::empty()));
                assert(split_lines(cs@.take(i + 1)).drop_last() =~= before);
                assert(before.drop_last().push(before.last()) =~= before);
                assert(cs@.subrange(i + 1, i + 1) =~= Seq::<char>::empty());
                start = i + 1;
            } else {
                let ghost after = split_lines(cs@.take(i + 1));
                assert(after == before.update(before.len() - 1, before.last().push(cs@[i as int])));
                assert(after.drop_last() =~= before.drop_last());
                assert(cs@.subrange(start as int, i + 1) =~= before.last().push(cs@[i as int]));
            }
            i = i + 1;
        }
        sc.step(&cs, start, cs.len(), &interface_tag, &peer_tag);
        let ghost all = split_lines(cs@);
        assert(cs@.take(cs@.len() as int) =~= cs@);
        assert(all.drop_last().push(all.last()) =~= all);
        sc.store(&interface_tag, &peer_tag);
        if sc.interface.len() == 0 {
            return None;
        }
        let interface = join_strings(&sc.interface);
        Some(AwgInterfaceConf { interface, peers: sc.peers })
    }

    /// The document text: the `[Interface]` section, then the peers in
    /// order, each section followed by a blank line.
    pub fn to_string(&self) -> (r: String)
        ensures
            r@ == doc_text(self@),
    {
        let mut s = String::from_str("[Interface]\n");
        s.append(self.interface.as_str());
        s.append("\n\n");
        let mut body = String::new();
        let ghost ps = self@.peers;
        let mut i: usize = 0;
        while i < self.peers.len()
            invariant
                0 <= i <= self.peers@.len(),
                ps == self@.peers,
                body@ == peers_text(ps.take(i as int)),
            decreases self.peers@.len() - i,
        {
            assert(ps.take(i + 1).drop_last() =~= ps.take(i as int));
            if i > 0 {
                body.append("\n\n");
            } else {
                assert(ps.take(0) =~= Seq::<PeerView>::empty());
            }
            let t = self.peers[i].to_string();
            body.append(t.as_str());
            i = i + 1;
        }
        assert(ps.take(i as int) =~= ps);
        s.append(body.as_str());
        s.append("\n\n");
        s
    }

    /// Reads the address suffix of an `AllowedIPs` value.
    pub fn try_parse_id(p: &str) -> (r: Option<u32>)
        ensures
            r == id_of(p@),
    {
        let cs = chars_of(p);
        let end = match find_first(&cs, 0, cs.len(), '/') {
            Some(k) => k,
            None => cs.len(),
        };
        let ghost head = before_first(cs@, '/');
        assert(cs@.subrange(0, cs@.len() as int) =~= cs@);
        assert(head =~= cs@.subrange(0, end as int));
        let start = match find_last(&cs, 0, end, '.') {
            Some(k) => k + 1,
            None => 0,
        };
        assert(after_last(head, '.') =~= cs@.subrange(start as int, end as int));
        parse_u32(&cs, start, end)
    }

    /// The largest address suffix in use, and at least 1; values that do
    /// not read as a suffix are passed over.
    pub fn get_last_id(&self) -> (r: u32)
        ensures
            r == last_id(self@.peers),
    {
        let ghost ps = self@.peers;
        let mut last: u32 = 1;
        let mut i: usize = 0;
        while i < self.peers.len()
            invariant
                0 <= i <= self.peers@.len(),
                ps == self@.peers,
                last == last_id(ps.take(i as int)),
            decreases self.peers@.len() - i,
        {
            assert(ps.take(i + 1).drop_last() =~= ps.take(i as int));
            match Self::try_parse_id(self.peers[i].allowed_ips.as_str()) {
                Some(id) => {
                    if id > last {
                        last = id;
                    }
                },
                None => {},
            }
            i = i + 1;
        }
        assert(ps.take(i as int) =~= ps);
        last
    }

    /// The suffix for the next peer: one past the largest in use.
    pub fn next_id(&self) -> (r: u64)
        ensures
            r == last_id(self@.peers) + 1,
    {
        self.get_last_id() as u64 + 1
    }

    /// Puts in `p`, in the place of the peer with the same public key if
    /// there is one.
    pub fn add_peer(&mut self, p: AwgPeer)
        requires
            old(self).wf(),
        ensures
            final(self).wf(),
            final(self)@.interface == old(self)@.interface,
            final(self)@.peers == upsert(old(self)@.peers, p@),
    {
        upsert_peer(&mut self.peers, p);
    }

    /// Takes out the peer whose public key is `key`, if there is one.
    pub fn remove_peer(&mut self, key: &String)
        requires
            old(self).wf(),
        ensures
            final(self).wf(),
            final(self)@.interface == old(self)@.interface,
            final(self)@.peers == without_key(old(self)@.peers, key@),
    {
        let ghost before = self@.peers;
        let mut kept: Vec<AwgPeer> = Vec::new();
        let mut rest: Vec<AwgPeer> = Vec::new();
        std::mem::swap(&mut rest, &mut self.peers);
        assert(rest@.map_values(|q: AwgPeer| q@) == before);
        assert(rest@.len() == before.len());
        let n = rest.len();
        assert(rest@.len() == n);
        assert(before.subrange(0, before.len() as int) =~= before);
        assert(kept@.map_values(|q: AwgPeer| q@) =~= Seq::<PeerView>::empty());
        proof { reveal(Seq::filter); }
        assert(before.take(0) =~= Seq::<PeerView>::empty());
        let mut i: usize = 0;
        while rest.len() > 0
            invariant
                i + rest@.len() == before.len(),
                before.len() <= usize::MAX,
                rest@.map_values(|q: AwgPeer| q@) == before.subrange(i as int, before.len() as int),
                kept@.map_values(|q: AwgPeer| q@) == without_key(before.take(i as int), key@),
                keys_unique(before),
            decreases rest@.len(),
        {
            let ghost old_rest = rest@;
            assert(old_rest.map_values(|q: AwgPeer| q@)[0] == before[i as int]);
            let p = rest.remove(0);
            assert(rest@ =~= old_rest.subrange(1, old_rest.len() as int));
            proof { reveal(Seq::filter); }
            assert(before.take(i + 1).drop_last() =~= before.take(i as int));
            assert(before.take(i + 1).last() == p@);
            assert forall|j: int| 0 <= j < rest@.len() implies rest@[j]@ == before[i + 1 + j] by {
                assert(old_rest.map_values(|q: AwgPeer| q@)[j + 1] == before[i + 1 + j]);
            };
            assert(rest@.map_values(|q: AwgPeer| q@) =~= before.subrange(i + 1, before.len() as int));
            if p.public_key != *key {
                kept.push(p);
                assert(kept@.map_values(|q: AwgPeer| q@) =~= without_key(before.take(i as int), key@).push(p@));
            }
            i = i + 1;
        }
        assert(before.take(i as int) =~= before);
        self.peers = kept;
        proof { lemma_filter_keeps_unique(before, key@); }
    }

    /// Takes out every peer.
    pub fn clear_peers(&mut self)
        ensures
            final(self).wf(),
            final(self)@.interface == old(self)@.interface,
            final(self)@.peers == Seq::<PeerView>::empty(),
    {
        self.peers = Vec::new();
        assert(self@.peers =~= Seq::<PeerView>::empty());
    }
}

/// A `[Peer]` section without a `PresharedKey` line describes no peer.
proof fn lemma_no_preshared_key_field(lines: Seq<Seq<char>>)
    requires
        forall|i: int| 0 <= i < lines.len() ==> !starts_with(#[trigger] lines[i], "PresharedKey"@),
    ensures
        peer_fields(lines) matches Some(f) ==> f.preshared_key is None,
    decreases lines.len(),
{
    if lines.len() > 0 {
        assert forall|i: int| 0 <= i < lines.drop_last().len() implies !starts_with(
            #[trigger] lines.drop_last()[i],
            "PresharedKey"@,
        ) by {
            assert(lines.drop_last()[i] == lines[i]);
        };
        lemma_no_preshared_key_field(lines.drop_last());
        assert(!starts_with(lines[lines.len() - 1], "PresharedKey"@));
    }
}

/// A `[Peer]` section without a `PresharedKey` line is dropped when it is
/// put away: the peers and the interface read so far stay as they were,
/// and reading goes on with the next section.
pub proof fn lemma_incomplete_peer_dropped(st: DocScan)
    requires
        st.section == "Peer"@,
        forall|i: int| 0 <= i < st.current.len() ==> !starts_with(#[trigger] st.current[i], "PresharedKey"@),
    ensures
        peer_of(st.current) is None,
        store(st) == st,
{
    lemma_no_preshared_key_field(st.current);
    reveal_strlit("Peer");
    reveal_strlit("Interface");
    assert("Peer"@.len() != "Interface"@.len());
}

/// An empty document hands out suffix 2 first: the base is 1.
pub proof fn lemma_first_suffix()
    ensures
        last_id(Seq::<PeerView>::empty()) + 1 == 2,
{
}

/// The allocator's base is the largest readable suffix, and at least 1:
/// no readable suffix is above it, and unless it is 1 some peer has it.
pub proof fn lemma_last_id_is_max(peers: Seq<PeerView>)
    ensures
        last_id(peers) >= 1,
        forall|i: int|
            0 <= i < peers.len() && (#[trigger] id_of(peers[i].allowed_ips)) is Some ==> id_of(
                peers[i].allowed_ips,
            )->Some_0 <= last_id(peers),
        last_id(peers) == 1 || exists|i: int|
            0 <= i < peers.len() && #[trigger] id_of(peers[i].allowed_ips) == Some(last_id(peers)),
    decreases peers.len(),
{
    if peers.len() > 0 {
        let q = peers.drop_last();
        lemma_last_id_is_max(q);
        assert forall|i: int|
            0 <= i < peers.len() && (#[trigger] id_of(peers[i].allowed_ips)) is Some implies id_of(
                peers[i].allowed_ips,
            )->Some_0 <= last_id(peers) by {
            if i < q.len() {
                assert(q[i] == peers[i]);
            }
        };
        if last_id(peers) != 1 {
            if last_id(peers) == last_id(q) {
                let i = choose|i: int| 0 <= i < q.len() && #[trigger] id_of(q[i].allowed_ips) == Some(last_id(q));
                assert(q[i] == peers[i]);
            } else {
                assert(id_of(peers[peers.len() - 1].allowed_ips) == Some(last_id(peers)));
            }
        }
    }
}

/// A new peer that carries the next suffix moves the allocator on by
/// exactly one: adds made one after another get consecutive suffixes.
pub proof fn lemma_allocation_advances(peers: Seq<PeerView>, p: PeerView)
    requires
        !has_key(peers, p.public_key),
        last_id(peers) < u32::MAX,
        id_of(p.allowed_ips) == Some((last_id(peers) + 1) as u32),
    ensures
        upsert(peers, p) == peers.push(p),
        last_id(upsert(peers, p)) == last_id(peers) + 1,
{
    assert(peers.push(p).drop_last() =~= peers);
}

/// Consecutive adds of new peers, each carrying the suffix that the
/// allocator gives at its turn, take the suffixes one past the old base,
/// in order and without gaps.
pub proof fn lemma_batch_allocation(peers: Seq<PeerView>, news: Seq<PeerView>)
    requires
        last_id(peers) + news.len() <= u32::MAX,
        forall|k: int| 0 <= k < news.len() ==> !has_key(peers + news.take(k), (#[trigger] news[k]).public_key),
        forall|k: int|
            0 <= k < news.len() ==> id_of((#[trigger] news[k]).allowed_ips) == Some(
                (last_id(peers) + k + 1) as u32,
            ),
    ensures
        last_id(peers + news) == last_id(peers) + news.len(),
    decreases news.len(),
{
    if news.len() == 0 {
        assert(peers + news =~= peers);
    } else {
        let init = news.drop_last();
        assert forall|k: int| 0 <= k < init.len() implies !has_key(peers + init.take(k), (#[trigger] init[k]).public_key) by {
            assert(init.take(k) =~= news.take(k));
            assert(news[k] == init[k]);
        };
        assert forall|k: int| 0 <= k < init.len() implies id_of((#[trigger] init[k]).allowed_ips) == Some(
            (last_id(peers) + k + 1) as u32,
        ) by {
            assert(news[k] == init[k]);
        };
        lemma_batch_allocation(peers, init);
        let k = news.len() - 1;
        assert(news.take(k) =~= init);
        assert(peers + news =~= (peers + init).push(news[k]));
        lemma_allocation_advances(peers + init, news[k]);
    }
}

proof fn lemma_filter_keeps_unique(ps: Seq<PeerView>, k: Seq<char>)
    requires
        keys_unique(ps),
    ensures
        keys_unique(without_key(ps, k)),
    decreases ps.len(),
{
    if ps.len() > 0 {
        lemma_filter_keeps_unique(ps.drop_last(), k);
        assert(ps.drop_last().push(ps.last()) =~= ps);
        let f = |p: PeerView| p.public_key != k;
        reveal(Seq::filter);
        let r = without_key(ps, k);
        let q = without_key(ps.drop_last(), k);
        if f(ps.last()) {
            assert forall|j: int| 0 <= j < q.len() implies (#[trigger] q[j]).public_key != ps.last().public_key by {
                assert(q.contains(q[j]));
                ps.drop_last().lemma_filter_contains_rev(f, q[j]);
                let m = choose|m: int| 0 <= m < ps.drop_last().len() && ps.drop_last()[m] == q[j];
                assert(ps[m] == q[j]);
                assert(ps[ps.len() - 1] == ps.last());
            };
            assert(r == q.push(ps.last()));
        }
    }
}

/// Strings joined by newlines.
fn join_strings(ls: &Vec<String>) -> (r: String)
    ensures
        r@ == join_lines(lines_view(ls@)),
{
    let ghost v = lines_view(ls@);
    let mut s = String::new();
    let mut i: usize = 0;
    while i < ls.len()
        invariant
            0 <= i <= ls@.len(),
            v == lines_view(ls@),
            s@ == join_lines(v.take(i as int)),
        decreases ls@.len() - i,
    {
        assert(v.take(i + 1).drop_last() =~= v.take(i as int));
        if i > 0 {
            s.append("\n");
        } else {
            assert(v.take(1) =~= seq![v[0]]);
            assert(v.take(0) =~= Seq::<Seq<char>>::empty());
        }
        s.append(ls[i].as_str());
        i = i + 1;
    }
    assert(v.take(i as int) =~= v);
    s
}

} // verus!
