//! Client artifacts: credentials from the key generator, the client's
//! configuration, and the changes that adding, removing or clearing peers
//! make to the peer document and the metadata table.

use vstd::prelude::*;
use vstd::string::*;
use crate::codec::{AwgInterfaceConf, AwgPeer, PeerView, last_id, upsert, without_key};
use crate::iface::AWGInterfaceData;
use crate::table::{ClientTableRecord, ClientTableRecordUserData, remove_client, without_client};
use crate::text::{
    after_last, all_digits, before_first, chars_of, decimal_value, digit_value, first_at, is_digit,
    last_at, line_ranges, split_lines, string_of, unsigned_digits,
};
use crate::codec::{has_key, id_of, lemma_allocation_advances};

verus! {

/// Why an operation against the remote store failed.
#[derive(PartialEq, Eq, Structural, Clone, Copy, Debug)]
pub enum ProvisionError {
    /// A command or a transfer into the store failed.
    RemoteUnavailable,
    /// The peer document or the metadata table could not be read.
    MalformedDocument,
    /// The peer document has no `[Interface]` section: the store is not set up.
    NotConfigured,
    /// The key generator printed fewer lines than expected.
    IncompleteCredential,
    /// The interface parameters could not be read.
    IdUnavailable,
}

/// Deployment settings that go into every client configuration.
pub struct Settings {
    pub host: String,
    pub dns: String,
    pub keepalive: String,
    /// The address prefix, such as `10.8.1.`, that the suffix completes.
    pub mask: String,
}

/// A fresh key triple.
pub struct Credentials {
    pub public_key: String,
    pub private_key: String,
    pub preshared_key: String,
}

/// The first three lines of the generator's output: public key, private
/// key and shared secret, each non-empty.
pub open spec fn credentials_of(out: Seq<char>) -> Option<(Seq<char>, Seq<char>, Seq<char>)> {
    let ls = split_lines(out);
    if ls.len() >= 3 && ls[0].len() > 0 && ls[1].len() > 0 && ls[2].len() > 0 {
        Some((ls[0], ls[1], ls[2]))
    } else {
        None
    }
}

/// Reads the key generator's output.
pub fn parse_credentials(out: &str) -> (r: Result<Credentials, ProvisionError>)
    ensures
        match r {
            Ok(c) => credentials_of(out@) == Some((c.public_key@, c.private_key@, c.preshared_key@)),
            Err(e) => e == ProvisionError::IncompleteCredential && credentials_of(out@) is None,
        },
{
    let cs = chars_of(out);
    let ls = line_ranges(&cs);
    if ls.len() < 3 {
        return Err(ProvisionError::IncompleteCredential);
    }
    let (a0, b0) = ls[0];
    let (a1, b1) = ls[1];
    let (a2, b2) = ls[2];
    if a0 == b0 || a1 == b1 || a2 == b2 {
        return Err(ProvisionError::IncompleteCredential);
    }
    Ok(
        Credentials {
            public_key: string_of(&cs[a0..b0]),
            private_key: string_of(&cs[a1..b1]),
            preshared_key: string_of(&cs[a2..b2]),
        },
    )
}

pub open spec fn digit_char(d: nat) -> char {
    seq!['0', '1', '2', '3', '4', '5', '6', '7', '8', '9'][d as int]
}

/// The decimal text of `n`, without leading zeros.
pub open spec fn decimal_text(n: nat) -> Seq<char>
    decreases n,
{
    if n < 10 {
        seq![digit_char(n)]
    } else {
        decimal_text(n / 10).push(digit_char(n % 10))
    }
}

fn push_decimal(n: u64, out: &mut Vec<char>)
    ensures
        final(out)@ == old(out)@ + decimal_text(n as nat),
    decreases n,
{
    let digits = vec!['0', '1', '2', '3', '4', '5', '6', '7', '8', '9'];
    assert(digits@ =~= seq!['0', '1', '2', '3', '4', '5', '6', '7', '8', '9']);
    if n >= 10 {
        push_decimal(n / 10, out);
    }
    out.push(digits[(n % 10) as usize]);
    assert(out@ =~= old(out)@ + decimal_text(n as nat));
}

/// The decimal text of `n`.
pub fn decimal_string(n: u64) -> (r: String)
    ensures
        r@ == decimal_text(n as nat),
{
    let mut v: Vec<char> = Vec::new();
    push_decimal(n, &mut v);
    assert(v@ =~= decimal_text(n as nat));
    string_of(&v)
}

/// The fields of a client configuration document.
pub struct ClientConfig {
    pub addr: String,
    pub dns: String,
    pub private_key: String,
    pub jc: u32,
    pub jmin: u32,
    pub jmax: u32,
    pub s1: u32,
    pub s2: u32,
    pub h1: u32,
    pub h2: u32,
    pub h3: u32,
    pub h4: u32,
    pub peer_public_key: String,
    pub peer_preshared_key: String,
    pub peer_allowed_ips: String,
    pub peer_endpoint: String,
    pub peer_persistent_keepalive: String,
}

/// `c` is the configuration of the client with suffix `id` and keys `creds`.
pub open spec fn config_for(
    c: ClientConfig,
    settings: Settings,
    iface: AWGInterfaceData,
    id: nat,
    creds: Credentials,
) -> bool {
    &&& c.addr@ == settings.mask@ + decimal_text(id)
    &&& c.dns@ == settings.dns@
    &&& c.private_key@ == creds.private_key@
    &&& c.jc == iface.jc && c.jmin == iface.jmin && c.jmax == iface.jmax
    &&& c.s1 == iface.s1 && c.s2 == iface.s2
    &&& c.h1 == iface.h1 && c.h2 == iface.h2 && c.h3 == iface.h3 && c.h4 == iface.h4
    &&& c.peer_public_key@ == iface.public_key@
    &&& c.peer_preshared_key@ == creds.preshared_key@
    &&& c.peer_allowed_ips@ == settings.host@
    &&& c.peer_endpoint@ == settings.host@ + ":"@ + decimal_text(iface.port as nat)
    &&& c.peer_persistent_keepalive@ == settings.keepalive@
}

/// The `AllowedIPs` value of a client address.
pub open spec fn host_route(addr: Seq<char>) -> Seq<char> {
    addr + "/32"@
}

proof fn lemma_digit_char(d: nat)
    requires
        d < 10,
    ensures
        is_digit(digit_char(d)),
        digit_value(digit_char(d)) == d,
{
    let ds = seq!['0', '1', '2', '3', '4', '5', '6', '7', '8', '9'];
    assert(ds[0] == '0' && ds[1] == '1' && ds[2] == '2' && ds[3] == '3' && ds[4] == '4');
    assert(ds[5] == '5' && ds[6] == '6' && ds[7] == '7' && ds[8] == '8' && ds[9] == '9');
}

/// The decimal text of `n` is a run of digits that reads back as `n`.
pub proof fn lemma_decimal_reads_back(n: nat)
    ensures
        decimal_text(n).len() > 0,
        all_digits(decimal_text(n)),
        decimal_value(decimal_text(n)) == n,
    decreases n,
{
    if n < 10 {
        lemma_digit_char(n);
        let t = decimal_text(n);
        assert(t.drop_last() =~= Seq::<char>::empty());
        assert(decimal_value(t.drop_last()) == 0);
        assert(decimal_value(t) == decimal_value(t.drop_last()) * 10 + digit_value(t.last()));
    } else {
        lemma_decimal_reads_back(n / 10);
        lemma_digit_char(n % 10);
        let t = decimal_text(n);
        assert(t.drop_last() == decimal_text(n / 10));
        assert forall|i: int| 0 <= i < t.len() implies is_digit(#[trigger] t[i]) by {
            if i < t.len() - 1 {
                assert(t[i] == decimal_text(n / 10)[i]);
            }
        };
        assert(t.last() == digit_char(n % 10));
        assert(decimal_value(t) == decimal_value(t.drop_last()) * 10 + digit_value(t.last()));
        assert(n == (n / 10) * 10 + n % 10);
    }
}

/// The address of a client with suffix `id` reads back as `id`, where the
/// prefix holds no `/` and ends in `.`.
pub proof fn lemma_route_id(mask: Seq<char>, id: u32)
    requires
        mask.len() > 0,
        mask.last() == '.',
        forall|i: int| 0 <= i < mask.len() ==> mask[i] != '/',
    ensures
        id_of(host_route(mask + decimal_text(id as nat))) == Some(id),
{
    reveal_strlit("/32");
    let d = decimal_text(id as nat);
    lemma_decimal_reads_back(id as nat);
    let a = mask + d;
    let r = host_route(a);
    assert(r == a + "/32"@);
    assert(forall|i: int| 0 <= i < d.len() ==> is_digit(#[trigger] d[i]));
    assert(first_at(r, '/', a.len() as int)) by {
        assert forall|j: int| 0 <= j < a.len() implies r[j] != '/' by {
            if j >= mask.len() {
                assert(is_digit(d[j - mask.len()]));
            }
        };
    };
    assert(before_first(r, '/') =~= a);
    assert(last_at(a, '.', mask.len() - 1)) by {
        assert forall|j: int| mask.len() - 1 < j < a.len() implies a[j] != '.' by {
            assert(is_digit(d[j - mask.len()]));
        };
    };
    assert(after_last(a, '.') =~= d);
    assert(unsigned_digits(d) == d) by {
        assert(is_digit(d[0]));
    };
}

/// The peer that `create_user` adds carries the suffix one past the old
/// base, and the next add starts from it: adds made one after another,
/// with fresh keys, take consecutive suffixes.
pub proof fn lemma_created_peer_advances(peers: Seq<PeerView>, mask: Seq<char>, pk: Seq<char>, psk: Seq<char>)
    requires
        mask.len() > 0,
        mask.last() == '.',
        forall|i: int| 0 <= i < mask.len() ==> mask[i] != '/',
        !has_key(peers, pk),
        last_id(peers) < u32::MAX,
    ensures
        last_id(
            upsert(
                peers,
                PeerView {
                    public_key: pk,
                    preshared_key: psk,
                    allowed_ips: host_route(mask + decimal_text((last_id(peers) + 1) as nat)),
                },
            ),
        ) == last_id(peers) + 1,
{
    let id = (last_id(peers) + 1) as u32;
    lemma_route_id(mask, id);
    let p = PeerView { public_key: pk, preshared_key: psk, allowed_ips: host_route(mask + decimal_text(id as nat)) };
    lemma_allocation_advances(peers, p);
}

/// Relies on `chrono::Local::now` and its `format`: the time now as
/// `Mon Jan 01 12:00:00 2024`.
#[verifier::external_body]
fn creation_stamp() -> (r: String)
    ensures
        r@.len() > 0,
{
    chrono::Local::now().format("%a %b %d %H:%M:%S %Y").to_string()
}

impl ClientConfig {
    /// The configuration of the client with suffix `id` and keys `creds`.
    pub fn new(settings: &Settings, iface: &AWGInterfaceData, id: u64, creds: &Credentials) -> (r: ClientConfig)
        ensures
            config_for(r, *settings, *iface, id as nat, *creds),
    {
        let mut addr = settings.mask.clone();
        let digits = decimal_string(id);
        addr.append(digits.as_str());
        let mut endpoint = settings.host.clone();
        endpoint.append(":");
        let port = decimal_string(iface.port as u64);
        endpoint.append(port.as_str());
        ClientConfig {
            addr,
            dns: settings.dns.clone(),
            private_key: creds.private_key.clone(),
            jc: iface.jc,
            jmin: iface.jmin,
            jmax: iface.jmax,
            s1: iface.s1,
            s2: iface.s2,
            h1: iface.h1,
            h2: iface.h2,
            h3: iface.h3,
            h4: iface.h4,
            peer_public_key: iface.public_key.clone(),
            peer_preshared_key: creds.preshared_key.clone(),
            peer_allowed_ips: settings.host.clone(),
            peer_endpoint: endpoint,
            peer_persistent_keepalive: settings.keepalive.clone(),
        }
    }

    /// The document entry of the client whose public key is `client_pub`.
    pub fn to_peer(&self, client_pub: String) -> (r: AwgPeer)
        ensures
            r@ == (PeerView {
                public_key: client_pub@,
                preshared_key: self.peer_preshared_key@,
                allowed_ips: host_route(self.addr@),
            }),
    {
        let mut allowed_ips = self.addr.clone();
        allowed_ips.append("/32");
        AwgPeer { public_key: client_pub, preshared_key: self.peer_preshared_key.clone(), allowed_ips }
    }

    /// The metadata record of a new client created at `stamp`: its name,
    /// that time, no telemetry.
    pub fn to_record_at(&self, name: String, public: String, stamp: String) -> (r: ClientTableRecord)
        ensures
            r.client_id@ == public@,
            r.user_data.client_name@ == name@,
            r.user_data.creation_date@ == stamp@,
            r.user_data.data_received is None,
            r.user_data.data_sent is None,
            r.user_data.latest_handshake is None,
            r.user_data.allowed_ips is None,
    {
        ClientTableRecord {
            client_id: public,
            user_data: ClientTableRecordUserData {
                client_name: name,
                creation_date: stamp,
                data_received: None,
                data_sent: None,
                latest_handshake: None,
                allowed_ips: None,
            },
        }
    }

    /// The metadata record of a new client, created now.
    pub fn to_record(&self, name: String, public: String) -> (r: ClientTableRecord)
        ensures
            r.client_id@ == public@,
            r.user_data.client_name@ == name@,
            r.user_data.creation_date@.len() > 0,
            r.user_data.data_received is None,
            r.user_data.data_sent is None,
            r.user_data.latest_handshake is None,
            r.user_data.allowed_ips is None,
    {
        self.to_record_at(name, public, creation_stamp())
    }
}

/// Reads the peer document and the interface status: the document must have
/// an `[Interface]` section, the status all interface parameters.
pub fn read_remote(doc_text: &str, status_text: &str) -> (r: Result<(AwgInterfaceConf, AWGInterfaceData), ProvisionError>)
    ensures
        match r {
            Ok((d, i)) => crate::codec::parse_doc(doc_text@) == Some(d@) && d.wf()
                && crate::iface::interface_of(status_text@) == Some(i@),
            Err(ProvisionError::NotConfigured) => crate::codec::parse_doc(doc_text@) is None,
            Err(ProvisionError::IdUnavailable) => crate::codec::parse_doc(doc_text@) is Some
                && crate::iface::interface_of(status_text@) is None,
            Err(_) => false,
        },
{
    let doc = match AwgInterfaceConf::from_text(doc_text) {
        Some(d) => d,
        None => return Err(ProvisionError::NotConfigured),
    };
    let iface = match AWGInterfaceData::from_str(status_text) {
        Some(i) => i,
        None => return Err(ProvisionError::IdUnavailable),
    };
    Ok((doc, iface))
}

/// A client that `create_user` added.
pub struct NewClient {
    pub public_id: String,
    pub config: ClientConfig,
}

/// Adds a client named `name` with the keys that the generator printed:
/// the next free suffix, its configuration, its peer entry in `doc` and its
/// record at the end of `table`. Nothing changes where the keys are
/// incomplete. The record is dated `stamp`.
pub fn create_user_at(
    name: &str,
    settings: &Settings,
    iface: &AWGInterfaceData,
    cred_output: &str,
    stamp: String,
    doc: &mut AwgInterfaceConf,
    table: &mut Vec<ClientTableRecord>,
) -> (r: Result<NewClient, ProvisionError>)
    requires
        old(doc).wf(),
    ensures
        final(doc).wf(),
        final(doc)@.interface == old(doc)@.interface,
        match r {
            Ok(c) => {
                let id = last_id(old(doc)@.peers) + 1;
                &&& credentials_of(cred_output@) matches Some((pk, sk, psk))
                &&& c.public_id@ == pk
                &&& c.config.private_key@ == sk
                &&& exists|creds: Credentials| creds.public_key@ == pk && creds.private_key@ == sk
                    && creds.preshared_key@ == psk && config_for(c.config, *settings, *iface, id as nat, creds)
                &&& final(doc)@.peers == upsert(
                    old(doc)@.peers,
                    PeerView { public_key: pk, preshared_key: psk, allowed_ips: host_route(c.config.addr@) },
                )
                &&& final(table)@.len() == old(table)@.len() + 1
                &&& final(table)@.drop_last() == old(table)@
                &&& final(table)@.last().client_id@ == pk
                &&& final(table)@.last().user_data.client_name@ == name@
                &&& final(table)@.last().user_data.data_received is None
                &&& final(table)@.last().user_data.data_sent is None
                &&& final(table)@.last().user_data.latest_handshake is None
                &&& final(table)@.last().user_data.allowed_ips is None
                &&& final(table)@.last().user_data.creation_date@ == stamp@
            },
            Err(e) => e == ProvisionError::IncompleteCredential && credentials_of(cred_output@) is None
                && final(doc)@ == old(doc)@ && final(table)@ == old(table)@,
        },
{
    let creds = match parse_credentials(cred_output) {
        Ok(c) => c,
        Err(e) => return Err(e),
    };
    let id = doc.next_id();
    let config = ClientConfig::new(settings, iface, id, &creds);
    let peer = config.to_peer(creds.public_key.clone());
    let record = config.to_record_at(String::from_str(name), creds.public_key.clone(), stamp);
    doc.add_peer(peer);
    table.push(record);
    assert(table@.drop_last() =~= old(table)@);
    Ok(NewClient { public_id: creds.public_key, config })
}

/// Adds a client as `create_user_at` does, dated now.
pub fn create_user(
    name: &str,
    settings: &Settings,
    iface: &AWGInterfaceData,
    cred_output: &str,
    doc: &mut AwgInterfaceConf,
    table: &mut Vec<ClientTableRecord>,
) -> (r: Result<NewClient, ProvisionError>)
    requires
        old(doc).wf(),
    ensures
        final(doc).wf(),
        final(doc)@.interface == old(doc)@.interface,
        match r {
            Ok(c) => {
                let id = last_id(old(doc)@.peers) + 1;
                &&& credentials_of(cred_output@) matches Some((pk, sk, psk))
                &&& c.public_id@ == pk
                &&& c.config.private_key@ == sk
                &&& exists|creds: Credentials| creds.public_key@ == pk && creds.private_key@ == sk
                    && creds.preshared_key@ == psk && config_for(c.config, *settings, *iface, id as nat, creds)
                &&& final(doc)@.peers == upsert(
                    old(doc)@.peers,
                    PeerView { public_key: pk, preshared_key: psk, allowed_ips: host_route(c.config.addr@) },
                )
                &&& final(table)@.len() == old(table)@.len() + 1
                &&& final(table)@.drop_last() == old(table)@
                &&& final(table)@.last().client_id@ == pk
                &&& final(table)@.last().user_data.client_name@ == name@
                &&& final(table)@.last().user_data.data_received is None
                &&& final(table)@.last().user_data.data_sent is None
                &&& final(table)@.last().user_data.latest_handshake is None
                &&& final(table)@.last().user_data.allowed_ips is None
                &&& final(table)@.last().user_data.creation_date@.len() > 0
            },
            Err(e) => e == ProvisionError::IncompleteCredential && credentials_of(cred_output@) is None
                && final(doc)@ == old(doc)@ && final(table)@ == old(table)@,
        },
{
    create_user_at(name, settings, iface, cred_output, creation_stamp(), doc, table)
}

/// Takes the client `client_id` out of the peer document and the table.
pub fn rm_by_id(client_id: &String, doc: &mut AwgInterfaceConf, table: &mut Vec<ClientTableRecord>)
    requires
        old(doc).wf(),
    ensures
        final(doc).wf(),
        final(doc)@.interface == old(doc)@.interface,
        final(doc)@.peers == without_key(old(doc)@.peers, client_id@),
        final(table)@ == without_client(old(table)@, client_id@),
{
    doc.remove_peer(client_id);
    remove_client(table, client_id);
}

/// Empties the peer document, keeping its `[Interface]` section, and the table.
pub fn drop_all(doc: &mut AwgInterfaceConf, table: &mut Vec<ClientTableRecord>)
    ensures
        final(doc).wf(),
        final(doc)@.interface == old(doc)@.interface,
        final(doc)@.peers == Seq::<PeerView>::empty(),
        final(table)@ == Seq::<ClientTableRecord>::empty(),
{
    doc.clear_peers();
    *table = Vec::new();
}

} // verus!
