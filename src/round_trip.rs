//! Reading back a written document gives the same document.

use vstd::prelude::*;
use crate::codec::{
    peer_step, DocScan, DocView, PeerFields, PeerView, doc_step, doc_text, empty_scan, has_key, is_header,
    join_lines, keys_unique, parse_doc, peer_fields, peer_of, peer_text, peers_text, scan_lines,
    store, value_of,
};
use crate::text::{first_at, is_space, lemma_split_nonempty, split_lines, starts_with, trim, trim_end, trim_start};

verus! {

/// A value as parsing leaves it: no surrounding whitespace, one line.
pub open spec fn clean_value(v: Seq<char>) -> bool {
    &&& trim(v) == v
    &&& forall|i: int| 0 <= i < v.len() ==> v[i] != '\n'
}

/// An `[Interface]` line as parsing keeps it.
pub open spec fn plain_line(l: Seq<char>) -> bool {
    &&& l.len() > 0
    &&& trim(l) == l
    &&& l[0] != '#'
    &&& !is_header(l)
}

/// A document in the form that parsing produces.
pub open spec fn doc_readable(d: DocView) -> bool {
    &&& keys_unique(d.peers)
    &&& forall|i: int| 0 <= i < split_lines(d.interface).len() ==> plain_line(#[trigger] split_lines(d.interface)[i])
    &&& forall|i: int|
        0 <= i < d.peers.len() ==> clean_value((#[trigger] d.peers[i]).public_key) && clean_value(
            d.peers[i].preshared_key,
        ) && clean_value(d.peers[i].allowed_ips)
}

pub open spec fn nl() -> Seq<char> {
    seq!['\n']
}

pub open spec fn pk_tag() -> Seq<char> {
    seq!['P', 'u', 'b', 'l', 'i', 'c', 'K', 'e', 'y']
}

pub open spec fn psk_tag() -> Seq<char> {
    seq!['P', 'r', 'e', 's', 'h', 'a', 'r', 'e', 'd', 'K', 'e', 'y']
}

pub open spec fn ips_tag() -> Seq<char> {
    seq!['A', 'l', 'l', 'o', 'w', 'e', 'd', 'I', 'P', 's']
}

pub open spec fn assign() -> Seq<char> {
    seq![' ', '=', ' ']
}

pub open spec fn pk_prefix() -> Seq<char> {
    pk_tag() + assign()
}

pub open spec fn psk_prefix() -> Seq<char> {
    psk_tag() + assign()
}

pub open spec fn ips_prefix() -> Seq<char> {
    ips_tag() + assign()
}

pub open spec fn peer_header() -> Seq<char> {
    seq!['[', 'P', 'e', 'e', 'r', ']']
}

pub open spec fn interface_header() -> Seq<char> {
    seq!['[', 'I', 'n', 't', 'e', 'r', 'f', 'a', 'c', 'e', ']']
}

/// The lines of a peer's section after its header, as written.
pub open spec fn raw_body(p: PeerView) -> Seq<Seq<char>> {
    seq![pk_prefix() + p.public_key, psk_prefix() + p.preshared_key, ips_prefix() + p.allowed_ips]
}

/// The same lines as reading keeps them.
pub open spec fn peer_body(p: PeerView) -> Seq<Seq<char>> {
    raw_body(p).map_values(|l: Seq<char>| trim(l))
}

/// A line that reading keeps as a line of the current section.
pub open spec fn kept_line(raw: Seq<char>) -> bool {
    let l = trim(raw);
    l.len() > 0 && l[0] != '#' && !is_header(l)
}

proof fn lemma_literals()
    ensures
        "[Interface]\n"@ == interface_header() + nl(),
        "\n\n"@ == nl() + nl(),
        "\n"@ == nl(),
        "[Peer]\nPublicKey = "@ == peer_header() + nl() + pk_prefix(),
        "\nPresharedKey = "@ == nl() + psk_prefix(),
        "\nAllowedIPs = "@ == nl() + ips_prefix(),
        "Interface"@ == interface_header().subrange(1, 10),
        "Peer"@ == peer_header().subrange(1, 5),
        "PublicKey"@ == pk_tag(),
        "PresharedKey"@ == psk_tag(),
        "AllowedIPs"@ == ips_tag(),
{
    reveal_strlit("[Interface]\n");
    reveal_strlit("\n\n");
    reveal_strlit("\n");
    reveal_strlit("[Peer]\nPublicKey = ");
    reveal_strlit("\nPresharedKey = ");
    reveal_strlit("\nAllowedIPs = ");
    reveal_strlit("Interface");
    reveal_strlit("Peer");
    reveal_strlit("PublicKey");
    reveal_strlit("PresharedKey");
    reveal_strlit("AllowedIPs");
    assert("[Interface]\n"@ =~= interface_header() + nl());
    assert("\n\n"@ =~= nl() + nl());
    assert("\n"@ =~= nl());
    assert("[Peer]\nPublicKey = "@ =~= peer_header() + nl() + pk_prefix());
    assert("\nPresharedKey = "@ =~= nl() + psk_prefix());
    assert("\nAllowedIPs = "@ =~= nl() + ips_prefix());
    assert("Interface"@ =~= interface_header().subrange(1, 10));
    assert("Peer"@ =~= peer_header().subrange(1, 5));
    assert("PublicKey"@ =~= pk_tag());
    assert("PresharedKey"@ =~= psk_tag());
    assert("AllowedIPs"@ =~= ips_tag());
}

proof fn lemma_split_concat(a: Seq<char>, b: Seq<char>)
    ensures
        split_lines(a + nl() + b) == split_lines(a) + split_lines(b),
    decreases b.len(),
{
    lemma_split_nonempty(a);
    if b.len() == 0 {
        let s = a + nl() + b;
        assert(s.drop_last() =~= a);
        assert(split_lines(b) =~= seq![Seq::<char>::empty()]);
        assert(split_lines(s) =~= split_lines(a) + split_lines(b));
    } else {
        let b2 = b.drop_last();
        lemma_split_concat(a, b2);
        lemma_split_nonempty(b2);
        let s = a + nl() + b;
        assert(s.drop_last() =~= a + nl() + b2);
        assert(s.last() == b.last());
        let r = split_lines(a + nl() + b2);
        if b.last() == '\n' {
            assert(split_lines(s) =~= split_lines(a) + split_lines(b));
        } else {
            assert(split_lines(s) =~= split_lines(a) + split_lines(b));
        }
    }
}

proof fn lemma_split_single(s: Seq<char>)
    requires
        forall|i: int| 0 <= i < s.len() ==> s[i] != '\n',
    ensures
        split_lines(s) == seq![s],
    decreases s.len(),
{
    if s.len() > 0 {
        lemma_split_single(s.drop_last());
        assert(s.last() == s[s.len() - 1]);
        assert(s.last() != '\n');
        assert(s.drop_last().push(s.last()) =~= s);
        let r = split_lines(s.drop_last());
        assert(r.len() - 1 == 0);
        assert(r.last() == s.drop_last());
        assert(r.update(0, s) =~= seq![s]);
    } else {
        assert(s =~= Seq::<char>::empty());
    }
}

proof fn lemma_join_extend(r: Seq<Seq<char>>, c: char)
    requires
        r.len() >= 1,
    ensures
        join_lines(r.update(r.len() - 1, r.last().push(c))) == join_lines(r).push(c),
{
    let u = r.update(r.len() - 1, r.last().push(c));
    if r.len() == 1 {
        assert(u[0] == r[0].push(c));
    } else {
        assert(u.drop_last() =~= r.drop_last());
        assert(join_lines(u) =~= join_lines(r).push(c));
    }
}

proof fn lemma_join_split(s: Seq<char>)
    ensures
        join_lines(split_lines(s)) == s,
    decreases s.len(),
{
    lemma_literals();
    if s.len() > 0 {
        let s2 = s.drop_last();
        lemma_join_split(s2);
        lemma_split_nonempty(s2);
        let r = split_lines(s2);
        if s.last() == '\n' {
            let u = r.push(Seq::<char>::empty());
            assert(u.drop_last() =~= r);
            assert(join_lines(u) =~= s2 + nl() + Seq::<char>::empty());
            assert(s2.push('\n') =~= s);
        } else {
            lemma_join_extend(r, s.last());
            assert(s2.push(s.last()) =~= s);
        }
    }
}

proof fn lemma_trim_fixed(s: Seq<char>)
    requires
        s.len() > 0,
        !is_space(s[0]),
        !is_space(s.last()),
    ensures
        trim(s) == s,
{
    assert(trim_start(s) == s);
    assert(trim_end(s) == s);
}

proof fn lemma_trim_space_first(v: Seq<char>)
    requires
        clean_value(v),
    ensures
        trim(seq![' '] + v) == v,
{
    let s = seq![' '] + v;
    assert(s.drop_first() =~= v);
    assert(trim_start(s) == trim_start(v));
}

proof fn lemma_scan_one(st: DocScan, l: Seq<char>)
    ensures
        scan_from(st, seq![l]) == doc_step(st, l),
{
    assert(seq![l].drop_last() =~= Seq::<Seq<char>>::empty());
    assert(scan_from(st, Seq::<Seq<char>>::empty()) == st);
}

proof fn lemma_distinct_sections()
    ensures
        peer_header().subrange(1, 5) != interface_header().subrange(1, 10),
        peer_header().subrange(1, 5) != Seq::<char>::empty(),
        interface_header().subrange(1, 10) != Seq::<char>::empty(),
{
    assert(peer_header().subrange(1, 5).len() == 4);
    assert(interface_header().subrange(1, 10).len() == 9);
}

/// Reading on from state `st`.
pub open spec fn scan_from(st: DocScan, lines: Seq<Seq<char>>) -> DocScan
    decreases lines.len(),
{
    if lines.len() == 0 {
        st
    } else {
        doc_step(scan_from(st, lines.drop_last()), lines.last())
    }
}

proof fn lemma_scan_lines_from(lines: Seq<Seq<char>>)
    ensures
        scan_lines(lines) == scan_from(empty_scan(), lines),
    decreases lines.len(),
{
    if lines.len() > 0 {
        lemma_scan_lines_from(lines.drop_last());
    }
}

proof fn lemma_scan_append(st: DocScan, xs: Seq<Seq<char>>, ys: Seq<Seq<char>>)
    ensures
        scan_from(st, xs + ys) == scan_from(scan_from(st, xs), ys),
    decreases ys.len(),
{
    if ys.len() == 0 {
        assert(xs + ys =~= xs);
    } else {
        lemma_scan_append(st, xs, ys.drop_last());
        assert((xs + ys).drop_last() =~= xs + ys.drop_last());
    }
}

/// Kept lines join the current section, trimmed.
proof fn lemma_scan_kept(st: DocScan, ls: Seq<Seq<char>>)
    requires
        forall|i: int| 0 <= i < ls.len() ==> kept_line(#[trigger] ls[i]),
    ensures
        scan_from(st, ls) == (DocScan { current: st.current + ls.map_values(|l: Seq<char>| trim(l)), ..st }),
    decreases ls.len(),
{
    if ls.len() == 0 {
        assert(st.current + ls.map_values(|l: Seq<char>| trim(l)) =~= st.current);
    } else {
        lemma_scan_kept(st, ls.drop_last());
        assert(kept_line(ls[ls.len() - 1]));
        assert((st.current + ls.drop_last().map_values(|l: Seq<char>| trim(l))).push(trim(ls.last()))
            =~= st.current + ls.map_values(|l: Seq<char>| trim(l)));
    }
}

/// Plain lines join the current section as they are.
proof fn lemma_scan_plain(st: DocScan, ls: Seq<Seq<char>>)
    requires
        forall|i: int| 0 <= i < ls.len() ==> plain_line(#[trigger] ls[i]),
    ensures
        scan_from(st, ls) == (DocScan { current: st.current + ls, ..st }),
{
    assert forall|i: int| 0 <= i < ls.len() implies kept_line(#[trigger] ls[i]) by {
        assert(plain_line(ls[i]));
    };
    lemma_scan_kept(st, ls);
    assert(ls.map_values(|l: Seq<char>| trim(l)) =~= ls) by {
        assert forall|i: int| 0 <= i < ls.len() implies trim(ls[i]) == ls[i] by {
            assert(plain_line(ls[i]));
        };
    };
}

proof fn lemma_trim_start_len(s: Seq<char>)
    ensures
        trim_start(s).len() <= s.len(),
    decreases s.len(),
{
    if s.len() > 0 && is_space(s[0]) {
        lemma_trim_start_len(s.drop_first());
    }
}

proof fn lemma_trim_end_len(s: Seq<char>)
    ensures
        trim_end(s).len() <= s.len(),
    decreases s.len(),
{
    if s.len() > 0 && is_space(s.last()) {
        lemma_trim_end_len(s.drop_last());
    }
}

/// A non-empty trimmed value neither begins nor ends with whitespace.
proof fn lemma_trimmed_ends(v: Seq<char>)
    requires
        trim(v) == v,
        v.len() > 0,
    ensures
        !is_space(v[0]),
        !is_space(v.last()),
{
    lemma_trim_start_len(v.drop_first());
    lemma_trim_end_len(trim_start(v));
    if is_space(v[0]) {
        assert(trim_start(v) == trim_start(v.drop_first()));
    }
    assert(trim_start(v).len() == v.len());
    assert(trim_start(v) == v) by {
        if is_space(v[0]) {
            assert(false);
        }
    };
    if is_space(v.last()) {
        lemma_trim_end_len(v.drop_last());
    }
}

/// A `tag = value` line, trimmed, keeps its tag in front and gives back
/// its value.
proof fn lemma_value_line(tag: Seq<char>, v: Seq<char>)
    requires
        tag.len() > 0,
        forall|i: int| 0 <= i < tag.len() ==> tag[i] != '=' && !is_space(tag[i]),
        clean_value(v),
    ensures
        trim(tag + assign() + v).len() > tag.len(),
        trim(tag + assign() + v).subrange(0, tag.len() as int) == tag,
        trim(tag + assign() + v)[0] == tag[0],
        value_of(trim(tag + assign() + v)) == Some(v),
{
    let raw = tag + assign() + v;
    assert(raw[0] == tag[0]);
    assert(trim_start(raw) == raw);
    let n = tag.len() as int;
    let t = trim(raw);
    if v.len() > 0 {
        lemma_trimmed_ends(v);
        assert(raw.last() == v.last());
        assert(trim_end(raw) == raw);
        assert(t == raw);
        assert(t[n] == ' ' && t[n + 1] == '=');
        assert(first_at(t, '=', n + 1));
        assert(t.subrange(n + 2, t.len() as int) =~= seq![' '] + v);
        lemma_trim_space_first(v);
    } else {
        assert(raw =~= tag + assign());
        assert(raw.drop_last() =~= tag + seq![' ', '=']);
        assert(trim_end(raw) == trim_end(raw.drop_last()));
        assert(trim_end(raw.drop_last()) == raw.drop_last());
        assert(t =~= tag + seq![' ', '=']);
        assert(first_at(t, '=', n + 1));
        assert(t.subrange(n + 2, t.len() as int) =~= Seq::<char>::empty());
        assert(trim_start(Seq::<char>::empty()) == Seq::<char>::empty());
        assert(trim_end(Seq::<char>::empty()) == Seq::<char>::empty());
        assert(v =~= Seq::<char>::empty());
    }
    assert(t.subrange(0, n) =~= tag);
}

proof fn lemma_body_plain(p: PeerView)
    requires
        clean_value(p.public_key),
        clean_value(p.preshared_key),
        clean_value(p.allowed_ips),
    ensures
        forall|i: int| 0 <= i < raw_body(p).len() ==> kept_line(#[trigger] raw_body(p)[i]),
        peer_of(peer_body(p)) == Some(p),
{
    lemma_literals();
    let r = raw_body(p);
    let b = peer_body(p);
    lemma_value_line(pk_tag(), p.public_key);
    lemma_value_line(psk_tag(), p.preshared_key);
    lemma_value_line(ips_tag(), p.allowed_ips);
    let l1 = trim(pk_tag() + assign() + p.public_key);
    let l2 = trim(psk_tag() + assign() + p.preshared_key);
    let l3 = trim(ips_tag() + assign() + p.allowed_ips);
    assert(r[0] == pk_tag() + assign() + p.public_key);
    assert(r[1] == psk_tag() + assign() + p.preshared_key);
    assert(r[2] == ips_tag() + assign() + p.allowed_ips);
    assert(b[0] == l1 && b[1] == l2 && b[2] == l3);
    assert(kept_line(r[0]) && kept_line(r[1]) && kept_line(r[2]));
    // the keys
    assert(starts_with(l1, "PublicKey"@));
    assert(!starts_with(l2, "PublicKey"@)) by {
        assert(l2.subrange(0, 12)[1] == 'r');
        assert(l2.subrange(0, 9)[1] == l2[1]);
    };
    assert(starts_with(l2, "PresharedKey"@));
    assert(!starts_with(l3, "PublicKey"@)) by {
        assert(l3.subrange(0, 9)[0] == l3[0]);
    };
    assert(!starts_with(l3, "PresharedKey"@)) by {
        assert(l3.subrange(0, 10)[0] == 'A');
    };
    assert(starts_with(l3, "AllowedIPs"@));
    let b0 = b.drop_last().drop_last().drop_last();
    assert(b0 =~= Seq::<Seq<char>>::empty());
    assert(b.drop_last().drop_last().last() == l1);
    assert(b.drop_last().last() == l2);
    assert(b.last() == l3);
    let f0 = PeerFields { public_key: None, preshared_key: None, allowed_ips: None };
    assert(peer_fields(b0) == Some(f0));
    let f1 = PeerFields { public_key: Some(p.public_key), ..f0 };
    let f2 = PeerFields { preshared_key: Some(p.preshared_key), ..f1 };
    let f3 = PeerFields { allowed_ips: Some(p.allowed_ips), ..f2 };
    assert(peer_step(Some(f0), l1) == Some(f1));
    assert(peer_step(Some(f1), l2) == Some(f2));
    assert(peer_step(Some(f2), l3) == Some(f3));
    assert(peer_fields(b.drop_last().drop_last()) == Some(f1));
    assert(peer_fields(b.drop_last()) == Some(f2));
    assert(peer_fields(b) == Some(f3));
}

proof fn lemma_peer_lines(p: PeerView)
    requires
        clean_value(p.public_key),
        clean_value(p.preshared_key),
        clean_value(p.allowed_ips),
    ensures
        split_lines(peer_text(p)) == seq![peer_header()] + raw_body(p),
{
    lemma_literals();
    let l1 = pk_prefix() + p.public_key;
    let l2 = psk_prefix() + p.preshared_key;
    let l3 = ips_prefix() + p.allowed_ips;
    assert(peer_text(p) =~= ((peer_header() + nl() + l1) + nl() + l2) + nl() + l3);
    lemma_split_concat((peer_header() + nl() + l1) + nl() + l2, l3);
    lemma_split_concat(peer_header() + nl() + l1, l2);
    lemma_split_concat(peer_header(), l1);
    lemma_split_single(peer_header());
    lemma_split_single(l1);
    lemma_split_single(l2);
    lemma_split_single(l3);
    assert(split_lines(peer_text(p)) =~= seq![peer_header()] + raw_body(p));
}

/// The state after the interface part of a written document.
pub open spec fn after_interface(ils: Seq<Seq<char>>) -> DocScan {
    DocScan {
        section: interface_header().subrange(1, 10),
        current: ils,
        interface: Seq::<Seq<char>>::empty(),
        peers: Seq::<PeerView>::empty(),
    }
}

proof fn lemma_header_step(st: DocScan, h: Seq<char>)
    requires
        h.len() >= 2,
        h[0] == '[',
        h.last() == ']',
    ensures
        doc_step(st, h) == (DocScan { section: h.subrange(1, h.len() - 1), current: Seq::<Seq<char>>::empty(), ..store(st) }),
{
    lemma_trim_fixed(h);
}

proof fn lemma_blank_step(st: DocScan)
    ensures
        doc_step(st, Seq::<char>::empty()) == st,
{
    assert(trim_start(Seq::<char>::empty()) == Seq::<char>::empty());
    assert(trim_end(Seq::<char>::empty()) == Seq::<char>::empty());
}

proof fn lemma_scan_peers(ils: Seq<Seq<char>>, ps: Seq<PeerView>)
    requires
        ps.len() >= 1,
        keys_unique(ps),
        forall|i: int|
            0 <= i < ps.len() ==> clean_value((#[trigger] ps[i]).public_key) && clean_value(ps[i].preshared_key)
                && clean_value(ps[i].allowed_ips),
    ensures
        scan_from(after_interface(ils), split_lines(peers_text(ps))) == (DocScan {
            section: peer_header().subrange(1, 5),
            current: peer_body(ps.last()),
            interface: ils,
            peers: ps.drop_last(),
        }),
    decreases ps.len(),
{
    lemma_literals();
    let st0 = after_interface(ils);
    let p = ps.last();
    assert(ps[ps.len() - 1] == p);
    lemma_peer_lines(p);
    lemma_body_plain(p);
    let hdr = peer_header();
    lemma_distinct_sections();
    let opened = DocScan { section: hdr.subrange(1, 5), current: Seq::<Seq<char>>::empty(), interface: ils, peers: ps.drop_last() };
    if ps.len() == 1 {
        assert(store(st0) == (DocScan { interface: ils, ..st0 }));
        lemma_header_step(st0, hdr);
        assert(ps.drop_last() =~= Seq::<PeerView>::empty());
        lemma_scan_one(st0, hdr);
        lemma_scan_append(st0, seq![hdr], raw_body(p));
        lemma_scan_kept(opened, raw_body(p));
        assert(Seq::<Seq<char>>::empty() + peer_body(p) =~= peer_body(p));
    } else {
        let init = ps.drop_last();
        assert forall|i: int|
            0 <= i < init.len() implies clean_value((#[trigger] init[i]).public_key) && clean_value(init[i].preshared_key)
                && clean_value(init[i].allowed_ips) by {
            assert(init[i] == ps[i]);
        };
        assert forall|i: int, j: int|
            0 <= i < init.len() && 0 <= j < init.len() && i != j implies (#[trigger] init[i]).public_key
                != (#[trigger] init[j]).public_key by {
            assert(init[i] == ps[i] && init[j] == ps[j]);
        };
        lemma_scan_peers(ils, init);
        let q = init.last();
        assert(init[init.len() - 1] == q);
        lemma_body_plain(q);
        let mid = DocScan { section: hdr.subrange(1, 5), current: peer_body(q), interface: ils, peers: init.drop_last() };
        // the text: earlier peers, a blank line, this peer
        assert(peers_text(ps) == peers_text(init) + "\n\n"@ + peer_text(p));
        assert(peers_text(ps) =~= (peers_text(init) + nl() + Seq::<char>::empty()) + nl() + peer_text(p));
        lemma_split_concat(peers_text(init) + nl() + Seq::<char>::empty(), peer_text(p));
        lemma_split_concat(peers_text(init), Seq::<char>::empty());
        let e = Seq::<char>::empty();
        assert(split_lines(e) =~= seq![e]);
        let head = split_lines(peers_text(init)) + seq![e];
        assert(split_lines(peers_text(ps)) =~= head + (seq![hdr] + raw_body(p)));
        lemma_scan_append(st0, split_lines(peers_text(init)), seq![e]);
        lemma_scan_one(mid, e);
        lemma_blank_step(mid);
        // the header stores the previous peer
        assert(!has_key(init.drop_last(), q.public_key)) by {
            if has_key(init.drop_last(), q.public_key) {
                let k = choose|k: int| 0 <= k < init.drop_last().len() && (#[trigger] init.drop_last()[k]).public_key == q.public_key;
                assert(init[k] == init.drop_last()[k]);
            }
        };
        assert(init.drop_last().push(q) =~= init);
        assert(store(mid) == (DocScan { peers: init, ..mid }));
        lemma_header_step(mid, hdr);
        lemma_scan_one(mid, hdr);
        lemma_scan_append(mid, seq![hdr], raw_body(p));
        lemma_scan_kept(opened, raw_body(p));
        assert(Seq::<Seq<char>>::empty() + peer_body(p) =~= peer_body(p));
        lemma_scan_append(st0, head, seq![hdr] + raw_body(p));
    }
}

/// A raw `tag = value` line gives back its value.
proof fn lemma_raw_value_line(tag: Seq<char>, v: Seq<char>)
    requires
        tag.len() > 0,
        forall|i: int| 0 <= i < tag.len() ==> tag[i] != '=',
        clean_value(v),
    ensures
        starts_with(tag + assign() + v, tag),
        value_of(tag + assign() + v) == Some(v),
{
    let raw = tag + assign() + v;
    let n = tag.len() as int;
    assert(raw[n] == ' ' && raw[n + 1] == '=');
    assert(first_at(raw, '=', n + 1));
    assert(raw.subrange(n + 2, raw.len() as int) =~= seq![' '] + v);
    lemma_trim_space_first(v);
    assert(raw.subrange(0, n) =~= tag);
}

/// Writing one peer's section and reading its lines after the header gives
/// back the same peer: its key, shared secret and allowed addresses.
pub proof fn lemma_peer_round_trip(p: PeerView)
    requires
        clean_value(p.public_key),
        clean_value(p.preshared_key),
        clean_value(p.allowed_ips),
    ensures
        split_lines(peer_text(p)) == seq![peer_header()] + raw_body(p),
        peer_of(raw_body(p)) == Some(p),
{
    lemma_peer_lines(p);
    lemma_literals();
    let b = raw_body(p);
    let l1 = pk_tag() + assign() + p.public_key;
    let l2 = psk_tag() + assign() + p.preshared_key;
    let l3 = ips_tag() + assign() + p.allowed_ips;
    lemma_raw_value_line(pk_tag(), p.public_key);
    lemma_raw_value_line(psk_tag(), p.preshared_key);
    lemma_raw_value_line(ips_tag(), p.allowed_ips);
    assert(b[0] == l1 && b[1] == l2 && b[2] == l3);
    assert(!starts_with(l2, "PublicKey"@)) by {
        assert(l2.subrange(0, 9)[1] == l2[1]);
    };
    assert(!starts_with(l3, "PublicKey"@)) by {
        assert(l3.subrange(0, 9)[0] == l3[0]);
    };
    assert(!starts_with(l3, "PresharedKey"@)) by {
        assert(l3.subrange(0, 12)[0] == l3[0]);
    };
    let b0 = b.drop_last().drop_last().drop_last();
    assert(b0 =~= Seq::<Seq<char>>::empty());
    assert(b.drop_last().drop_last().last() == l1);
    assert(b.drop_last().last() == l2);
    assert(b.last() == l3);
    let f0 = PeerFields { public_key: None, preshared_key: None, allowed_ips: None };
    assert(peer_fields(b0) == Some(f0));
    let f1 = PeerFields { public_key: Some(p.public_key), ..f0 };
    let f2 = PeerFields { preshared_key: Some(p.preshared_key), ..f1 };
    let f3 = PeerFields { allowed_ips: Some(p.allowed_ips), ..f2 };
    assert(peer_step(Some(f0), l1) == Some(f1));
    assert(peer_step(Some(f1), l2) == Some(f2));
    assert(peer_step(Some(f2), l3) == Some(f3));
    assert(peer_fields(b.drop_last().drop_last()) == Some(f1));
    assert(peer_fields(b.drop_last()) == Some(f2));
    assert(peer_fields(b) == Some(f3));
}

/// Writing a document in the form that parsing produces and reading it back
/// gives the same document: the same `[Interface]` text and the same peers,
/// keys, shared secrets and allowed addresses, in the same order.
pub proof fn lemma_round_trip(d: DocView)
    requires
        doc_readable(d),
    ensures
        parse_doc(doc_text(d)) == Some(d),
{
    lemma_literals();
    let ils = split_lines(d.interface);
    let e = Seq::<char>::empty();
    let ih = interface_header();
    let p = peers_text(d.peers);
    let text = doc_text(d);
    assert(text =~= ((((ih + nl() + d.interface) + nl() + e) + nl() + p) + nl() + e) + nl() + e);
    lemma_split_concat((((ih + nl() + d.interface) + nl() + e) + nl() + p) + nl() + e, e);
    lemma_split_concat(((ih + nl() + d.interface) + nl() + e) + nl() + p, e);
    lemma_split_concat((ih + nl() + d.interface) + nl() + e, p);
    lemma_split_concat(ih + nl() + d.interface, e);
    lemma_split_concat(ih, d.interface);
    lemma_split_single(ih);
    assert(split_lines(e) =~= seq![e]);
    let lines = split_lines(text);
    let part1 = seq![ih] + ils + seq![e];
    let tail = seq![e, e];
    assert(lines =~= part1 + split_lines(p) + tail);
    lemma_scan_lines_from(lines);
    // the interface part
    let st0 = after_interface(ils);
    lemma_distinct_sections();
    assert(store(empty_scan()) == empty_scan());
    lemma_header_step(empty_scan(), ih);
    let opened = DocScan { section: ih.subrange(1, 10), current: Seq::<Seq<char>>::empty(), ..empty_scan() };
    lemma_scan_one(empty_scan(), ih);
    lemma_scan_plain(opened, ils);
    assert(Seq::<Seq<char>>::empty() + ils =~= ils);
    lemma_scan_append(empty_scan(), seq![ih], ils);
    lemma_scan_append(empty_scan(), seq![ih] + ils, seq![e]);
    lemma_scan_one(st0, e);
    lemma_blank_step(st0);
    assert(scan_from(empty_scan(), part1) == st0);
    lemma_scan_append(empty_scan(), part1, split_lines(p));
    lemma_scan_append(empty_scan(), part1 + split_lines(p), tail);
    lemma_split_nonempty(d.interface);
    lemma_join_split(d.interface);
    if d.peers.len() == 0 {
        assert(split_lines(p) =~= seq![e]);
        assert(scan_from(st0, seq![e]) == st0);
        assert(seq![e] + seq![e] =~= tail);
        lemma_scan_append(st0, seq![e], seq![e]);
        assert(store(st0) == (DocScan { interface: ils, ..st0 }));
        assert(d.peers =~= Seq::<PeerView>::empty());
    } else {
        lemma_scan_peers(ils, d.peers);
        let last = d.peers.last();
        assert(d.peers[d.peers.len() - 1] == last);
        lemma_body_plain(last);
        let st1 = DocScan {
            section: peer_header().subrange(1, 5),
            current: peer_body(last),
            interface: ils,
            peers: d.peers.drop_last(),
        };
        lemma_scan_one(st1, e);
        lemma_blank_step(st1);
        assert(seq![e] + seq![e] =~= tail);
        lemma_scan_append(st1, seq![e], seq![e]);
        lemma_distinct_sections();
        assert(!has_key(d.peers.drop_last(), last.public_key)) by {
            if has_key(d.peers.drop_last(), last.public_key) {
                let k = choose|k: int| 0 <= k < d.peers.drop_last().len() && (#[trigger] d.peers.drop_last()[k]).public_key == last.public_key;
                assert(d.peers[k] == d.peers.drop_last()[k]);
            }
        };
        assert(d.peers.drop_last().push(last) =~= d.peers);
        assert(store(st1) == (DocScan { peers: d.peers, ..st1 }));
    }
}

} // verus!
