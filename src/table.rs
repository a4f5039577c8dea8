//! The client metadata table: one record per peer with its display name,
//! creation time and the telemetry that the remote store fills in.

use vstd::prelude::*;
use vstd::string::*;

verus! {

pub struct ClientTableRecordUserData {
    pub client_name: String,
    pub creation_date: String,
    pub data_received: Option<String>,
    pub data_sent: Option<String>,
    pub latest_handshake: Option<String>,
    pub allowed_ips: Option<String>,
}

/// One row of the table; `client_id` is the peer's public key.
pub struct ClientTableRecord {
    pub client_id: String,
    pub user_data: ClientTableRecordUserData,
}

/// A peer as listed to callers.
pub struct User {
    pub uid: String,
    pub name: String,
}

/// A peer with its telemetry, defaults filled in.
pub struct UserStats {
    pub uid: String,
    pub name: String,
    pub recv: String,
    pub sent: String,
    pub last_seen: String,
    pub created: String,
}

/// The value of `o`, or `d` where there is none.
pub open spec fn or_default(o: Option<String>, d: Seq<char>) -> Seq<char> {
    match o {
        Some(s) => s@,
        None => d,
    }
}

fn value_or(o: &Option<String>, d: &str) -> (r: String)
    ensures
        r@ == or_default(*o, d@),
{
    match o {
        Some(s) => s.clone(),
        None => String::from_str(d),
    }
}

impl User {
    pub fn from(record: &ClientTableRecord) -> (r: User)
        ensures
            r.uid@ == record.client_id@,
            r.name@ == record.user_data.client_name@,
    {
        User { uid: record.client_id.clone(), name: record.user_data.client_name.clone() }
    }
}

impl UserStats {
    /// The record's telemetry, with `0 KiB` for traffic and `Never` for the
    /// handshake where the store has not reported them.
    pub fn from(record: &ClientTableRecord) -> (r: UserStats)
        ensures
            r.uid@ == record.client_id@,
            r.name@ == record.user_data.client_name@,
            r.recv@ == or_default(record.user_data.data_received, "0 KiB"@),
            r.sent@ == or_default(record.user_data.data_sent, "0 KiB"@),
            r.last_seen@ == or_default(record.user_data.latest_handshake, "Never"@),
            r.created@ == record.user_data.creation_date@,
    {
        UserStats {
            uid: record.client_id.clone(),
            name: record.user_data.client_name.clone(),
            recv: value_or(&record.user_data.data_received, "0 KiB"),
            sent: value_or(&record.user_data.data_sent, "0 KiB"),
            last_seen: value_or(&record.user_data.latest_handshake, "Never"),
            created: record.user_data.creation_date.clone(),
        }
    }
}

pub open spec fn has_client(t: Seq<ClientTableRecord>, id: Seq<char>) -> bool {
    exists|i: int| 0 <= i < t.len() && (#[trigger] t[i]).client_id@ == id
}

/// The records of `t` whose id does not come again later, in order.
pub open spec fn last_per_id(t: Seq<ClientTableRecord>) -> Seq<ClientTableRecord>
    decreases t.len(),
{
    if t.len() == 0 {
        t
    } else if has_client(t.drop_first(), t[0].client_id@) {
        last_per_id(t.drop_first())
    } else {
        seq![t[0]] + last_per_id(t.drop_first())
    }
}

pub open spec fn ids_unique(t: Seq<ClientTableRecord>) -> bool {
    forall|i: int, j: int|
        0 <= i < t.len() && 0 <= j < t.len() && i != j ==> (#[trigger] t[i]).client_id@ != (#[trigger] t[j]).client_id@
}

/// Keeping the last record per id keeps every id of the table.
pub proof fn lemma_last_per_id_ids(t: Seq<ClientTableRecord>, id: Seq<char>)
    ensures
        has_client(last_per_id(t), id) <==> has_client(t, id),
    decreases t.len(),
{
    if t.len() > 0 {
        let rest = t.drop_first();
        lemma_last_per_id_ids(rest, id);
        if has_client(rest, id) {
            let k = choose|k: int| 0 <= k < rest.len() && (#[trigger] rest[k]).client_id@ == id;
            assert(t[k + 1] == rest[k]);
        }
        if has_client(t, id) {
            let k = choose|k: int| 0 <= k < t.len() && (#[trigger] t[k]).client_id@ == id;
            if k > 0 {
                assert(rest[k - 1] == t[k]);
            }
        }
        let r = last_per_id(t);
        let q = last_per_id(rest);
        if !has_client(rest, t[0].client_id@) {
            assert(r == seq![t[0]] + q);
            if has_client(q, id) {
                let k = choose|k: int| 0 <= k < q.len() && (#[trigger] q[k]).client_id@ == id;
                assert(r[k + 1] == q[k]);
            }
            if has_client(r, id) {
                let k = choose|k: int| 0 <= k < r.len() && (#[trigger] r[k]).client_id@ == id;
                if k > 0 {
                    assert(q[k - 1] == r[k]);
                } else {
                    assert(t[0] == r[0]);
                }
            }
            if t[0].client_id@ == id {
                assert(r[0] == t[0]);
            }
        } else {
            assert(r == q);
            if t[0].client_id@ == id {
                let k = choose|k: int| 0 <= k < rest.len() && (#[trigger] rest[k]).client_id@ == t[0].client_id@;
                assert(rest[k].client_id@ == id);
            }
        }
        if t[0].client_id@ == id {
            assert(has_client(t, id));
        }
    }
}

/// The table without the record of `id`.
pub open spec fn without_client(t: Seq<ClientTableRecord>, id: Seq<char>) -> Seq<ClientTableRecord> {
    t.filter(|r: ClientTableRecord| r.client_id@ != id)
}

/// Whether some record of `t` has id `id`.
pub fn contains_client(t: &Vec<ClientTableRecord>, id: &String) -> (r: bool)
    ensures
        r == has_client(t@, id@),
{
    let mut i: usize = 0;
    while i < t.len()
        invariant
            0 <= i <= t@.len(),
            forall|j: int| 0 <= j < i ==> (#[trigger] t@[j]).client_id@ != id@,
        decreases t@.len() - i,
    {
        if t[i].client_id == *id {
            return true;
        }
        i = i + 1;
    }
    false
}

/// One record per id, the last one given for it, in the order given.
pub fn dedup_by_id(table: Vec<ClientTableRecord>) -> (r: Vec<ClientTableRecord>)
    ensures
        r@ == last_per_id(table@),
        ids_unique(r@),
{
    let ghost all = table@;
    let mut rest = table;
    let n = rest.len();
    let mut out: Vec<ClientTableRecord> = Vec::new();
    let mut i: usize = 0;
    assert(all.subrange(0, all.len() as int) =~= all);
    while rest.len() > 0
        invariant
            0 <= i <= all.len(),
            all.len() == n,
            rest@ == all.subrange(i as int, all.len() as int),
            out@ + last_per_id(rest@) == last_per_id(all),
            ids_unique(out@),
            forall|k: int| 0 <= k < out@.len() ==> !has_client(rest@, (#[trigger] out@[k]).client_id@),
        decreases rest@.len(),
    {
        let ghost before = rest@;
        let rec = rest.remove(0);
        assert(rest@ =~= before.drop_first());
        assert(rest@ =~= all.subrange(i + 1, all.len() as int));
        if contains_client(&rest, &rec.client_id) {
            assert forall|k: int| 0 <= k < out@.len() implies !has_client(rest@, (#[trigger] out@[k]).client_id@) by {
                if has_client(rest@, out@[k].client_id@) {
                    let m = choose|m: int| 0 <= m < rest@.len() && (#[trigger] rest@[m]).client_id@ == out@[k].client_id@;
                    assert(before[m + 1] == rest@[m]);
                }
            };
        } else {
            let ghost old_out = out@;
            out.push(rec);
            assert(old_out + last_per_id(before) =~= out@ + last_per_id(rest@));
            assert forall|k: int| 0 <= k < out@.len() implies !has_client(rest@, (#[trigger] out@[k]).client_id@) by {
                if k < old_out.len() && has_client(rest@, out@[k].client_id@) {
                    let m = choose|m: int| 0 <= m < rest@.len() && (#[trigger] rest@[m]).client_id@ == out@[k].client_id@;
                    assert(before[m + 1] == rest@[m]);
                }
            };
            assert forall|a: int, b: int|
                0 <= a < out@.len() && 0 <= b < out@.len() && a != b implies (#[trigger] out@[a]).client_id@
                    != (#[trigger] out@[b]).client_id@ by {
                if a == old_out.len() && b < old_out.len() {
                    assert(before[0] == rec);
                    assert(!has_client(before, old_out[b].client_id@));
                }
                if b == old_out.len() && a < old_out.len() {
                    assert(before[0] == rec);
                    assert(!has_client(before, old_out[a].client_id@));
                }
            };
        }
        i = i + 1;
    }
    assert(last_per_id(rest@) =~= Seq::<ClientTableRecord>::empty());
    assert(out@ + Seq::<ClientTableRecord>::empty() =~= out@);
    out
}

/// Takes the record of `id` out of the table.
pub fn remove_client(table: &mut Vec<ClientTableRecord>, id: &String)
    ensures
        final(table)@ == without_client(old(table)@, id@),
{
    let ghost before = table@;
    let mut rest: Vec<ClientTableRecord> = Vec::new();
    std::mem::swap(&mut rest, table);
    let mut i: usize = 0;
    let n = rest.len();
    proof { reveal(Seq::filter); }
    assert(before.take(0) =~= Seq::<ClientTableRecord>::empty());
    assert(before.subrange(0, before.len() as int) =~= before);
    while rest.len() > 0
        invariant
            i + rest@.len() == before.len(),
            before.len() == n,
            rest@ == before.subrange(i as int, before.len() as int),
            table@ == without_client(before.take(i as int), id@),
        decreases rest@.len(),
    {
        proof { reveal(Seq::filter); }
        let ghost old_rest = rest@;
        let rec = rest.remove(0);
        assert(rest@ =~= before.subrange(i + 1, before.len() as int));
        assert(before.take(i + 1).drop_last() =~= before.take(i as int));
        assert(before.take(i + 1).last() == rec);
        if rec.client_id != *id {
            table.push(rec);
        }
        i = i + 1;
    }
    assert(before.take(i as int) =~= before);
}

proof fn lemma_kept_from(t: Seq<ClientTableRecord>, id: Seq<char>, x: ClientTableRecord)
    requires
        without_client(t, id).contains(x),
    ensures
        t.contains(x),
    decreases t.len(),
{
    reveal(Seq::filter);
    if t.len() > 0 {
        let q = without_client(t.drop_last(), id);
        if x != t.last() {
            if t.last().client_id@ != id {
                let k = choose|k: int| 0 <= k < without_client(t, id).len() && without_client(t, id)[k] == x;
                assert(without_client(t, id) == q.push(t.last()));
                assert(q[k] == x);
                assert(q.contains(x));
            }
            lemma_kept_from(t.drop_last(), id, x);
            let m = choose|m: int| 0 <= m < t.drop_last().len() && t.drop_last()[m] == x;
            assert(t[m] == x);
        } else {
            assert(t[t.len() - 1] == x);
        }
    }
}

/// Taking records out keeps the ids apart.
pub proof fn lemma_without_client_unique(t: Seq<ClientTableRecord>, id: Seq<char>)
    requires
        ids_unique(t),
    ensures
        ids_unique(without_client(t, id)),
    decreases t.len(),
{
    reveal(Seq::filter);
    if t.len() > 0 {
        let f = |r: ClientTableRecord| r.client_id@ != id;
        lemma_without_client_unique(t.drop_last(), id);
        let q = without_client(t.drop_last(), id);
        if f(t.last()) {
            assert forall|j: int| 0 <= j < q.len() implies (#[trigger] q[j]).client_id@ != t.last().client_id@ by {
                assert(q.contains(q[j]));
                lemma_kept_from(t.drop_last(), id, q[j]);
                let m = choose|m: int| 0 <= m < t.drop_last().len() && t.drop_last()[m] == q[j];
                assert(t[m] == q[j]);
                assert(t[t.len() - 1] == t.last());
            };
            assert(without_client(t, id) == q.push(t.last()));
        }
    }
}

} // verus!
