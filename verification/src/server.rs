//! The key-value store, the server's replication state, and the replica
//! handshake state machine.
//!
//! The store is a sequence of key/entry pairs with pairwise-distinct keys;
//! [`Server::store`] reads it as a map from key to entry. SET upserts under
//! that map, GET masks (but does not remove) entries whose expiry has
//! passed.

use crate::dec::dec_digits;
use crate::dec::parse_dec;
use crate::dec::parse_dec_u64;
use crate::dec::to_dec;
use crate::resp::bulk_views;
use crate::resp::split_ws;
use crate::resp::Array;
use crate::resp::BulkString;
use crate::resp::Payload;
use crate::resp::PayloadV;
use rand::distributions::Alphanumeric;
use rand::distributions::DistString;
use vstd::prelude::*;
use vstd::string::StrSliceExecFns;
use vstd::string::StringExecFns;

verus! {

/// The server's replication role.
#[derive(Clone, Copy, PartialEq, Eq, Structural, Debug)]
pub enum Role {
    Master,
    Slave,
}

/// The wire name of each role.
pub open spec fn role_text(r: Role) -> Seq<char> {
    if r == Role::Master {
        "master"@
    } else {
        "slave"@
    }
}

impl Role {
    /// The role's wire name.
    pub fn to_string(&self) -> (r: String)
        ensures
            r@ == role_text(*self),
    {
        match self {
            Role::Master => String::from_str("master"),
            Role::Slave => String::from_str("slave"),
        }
    }
}

/// One stored value and its optional absolute expiry, in milliseconds.
#[derive(Debug)]
pub struct Entry {
    pub value: String,
    pub expiry: Option<u64>,
}

/// The mathematical form of an [`Entry`].
pub struct EntryV {
    pub value: Seq<char>,
    pub expiry: Option<u64>,
}

impl View for Entry {
    type V = EntryV;

    open spec fn view(&self) -> EntryV {
        EntryV { value: self.value@, expiry: self.expiry }
    }
}

impl Entry {
    pub fn new(value: String, expiry: Option<u64>) -> (r: Self)
        ensures
            r@ == (EntryV { value: value@, expiry }),
    {
        Self { value, expiry }
    }
}

/// The mapping a store sequence denotes: later pairs win.
pub open spec fn assoc_map(s: Seq<(String, Entry)>) -> Map<Seq<char>, EntryV>
    decreases s.len(),
{
    if s.len() == 0 {
        Map::empty()
    } else {
        assoc_map(s.drop_last()).insert(s.last().0@, s.last().1@)
    }
}

/// No two pairs share a key.
pub open spec fn unique_keys(s: Seq<(String, Entry)>) -> bool {
    forall|i: int, j: int|
        0 <= i < j < s.len() ==> (#[trigger] s[i]).0@ != (#[trigger] s[j]).0@
}

/// A pair's key maps to that pair's entry when keys are unique.
proof fn lemma_assoc_found(s: Seq<(String, Entry)>, i: int)
    requires
        unique_keys(s),
        0 <= i < s.len(),
    ensures
        assoc_map(s).contains_key(s[i].0@),
        assoc_map(s)[s[i].0@] == s[i].1@,
    decreases s.len(),
{
    if i == s.len() - 1 {
    } else {
        let d = s.drop_last();
        assert(unique_keys(d)) by {
            assert(forall|k: int| 0 <= k < d.len() ==> d[k] == s[k]);
        }
        assert(d[i] == s[i]);
        assert(s.last().0@ != s[i].0@);
        lemma_assoc_found(d, i);
    }
}

/// A key held by no pair is not in the map.
proof fn lemma_assoc_absent(s: Seq<(String, Entry)>, key: Seq<char>)
    requires
        forall|i: int| 0 <= i < s.len() ==> (#[trigger] s[i]).0@ != key,
    ensures
        !assoc_map(s).contains_key(key),
    decreases s.len(),
{
    if s.len() > 0 {
        let d = s.drop_last();
        assert(forall|i: int| 0 <= i < d.len() ==> d[i] == s[i]);
        lemma_assoc_absent(d, key);
        assert(s.last() == s[s.len() - 1]);
    }
}

/// Replacing the pair that holds a key updates the map at that key alone.
proof fn lemma_assoc_update(s: Seq<(String, Entry)>, i: int, p: (String, Entry))
    requires
        unique_keys(s),
        0 <= i < s.len(),
        p.0@ == s[i].0@,
    ensures
        assoc_map(s.update(i, p)) == assoc_map(s).insert(p.0@, p.1@),
    decreases s.len(),
{
    let u = s.update(i, p);
    if i == s.len() - 1 {
        assert(u.drop_last() =~= s.drop_last());
        assert(u.last() == p);
        assert(assoc_map(s).insert(p.0@, p.1@) =~= assoc_map(s.drop_last()).insert(p.0@, p.1@));
    } else {
        let d = s.drop_last();
        assert(unique_keys(d)) by {
            assert(forall|k: int| 0 <= k < d.len() ==> d[k] == s[k]);
        }
        assert(d[i] == s[i]);
        lemma_assoc_update(d, i, p);
        assert(u.drop_last() =~= d.update(i, p));
        assert(u.last() == s.last());
        assert(s.last().0@ != p.0@);
        assert(assoc_map(d).insert(p.0@, p.1@).insert(s.last().0@, s.last().1@) =~= assoc_map(
            d,
        ).insert(s.last().0@, s.last().1@).insert(p.0@, p.1@));
    }
}

/// `c` is an ASCII letter or digit.
pub open spec fn is_alphanumeric_char(c: char) -> bool {
    (48 <= c as int && c as int <= 57) || (65 <= c as int && c as int <= 90) || (97 <= c as int
        && c as int <= 122)
}

/// Relies on rand's `Alphanumeric` distribution: `sample_string` returns a
/// string of exactly the requested number of characters, each drawn from
/// a-z, A-Z, 0-9. Nothing is assumed about which characters come out.
#[verifier::external_body]
fn random_alphanumeric_40() -> (r: String)
    ensures
        r@.len() == 40,
        forall|i: int| 0 <= i < r@.len() ==> is_alphanumeric_char(#[trigger] r@[i]),
{
    Alphanumeric.sample_string(&mut rand::thread_rng(), 40)
}

/// The expiry a SET carries, over its argument list `[key, value, ...]`:
/// none without the `px` token, `now + millis` with it.
pub open spec fn set_args_expiry(args: Seq<Seq<char>>, now_ms: u64) -> Option<u64> {
    if args.len() > 2 {
        Some((now_ms + parse_dec(args[3], u64::MAX as int)->Some_0) as u64)
    } else {
        None
    }
}

/// A SET argument list `[key, value, ...]` the interpreter accepts: the
/// key and value present, and any `px` token followed by a millisecond
/// count that parses and keeps `now + millis` within range.
pub open spec fn set_args_ok(args: Seq<Seq<char>>, now_ms: u64) -> bool {
    &&& args.len() >= 2
    &&& args.len() > 2 ==> {
        &&& args.len() >= 4
        &&& args[2] == "px"@
        &&& parse_dec(args[3], u64::MAX as int) is Some
        &&& now_ms + parse_dec(args[3], u64::MAX as int)->Some_0 <= u64::MAX
    }
}

/// What GET yields from mapping `m` for `key` at time `now_ms`: null when
/// the key is absent or strictly past its expiry, else the stored value.
pub open spec fn spec_get(m: Map<Seq<char>, EntryV>, key: Seq<char>, now_ms: u64) -> PayloadV {
    if !m.contains_key(key) {
        PayloadV::Null
    } else {
        let e = m[key];
        match e.expiry {
            Some(t) => if now_ms > t {
                PayloadV::Null
            } else {
                PayloadV::Bulk(e.value)
            },
            None => PayloadV::Bulk(e.value),
        }
    }
}

/// The key-value server: its store and its replication identity.
pub struct Server {
    pub replication_id: Option<String>,
    pub replication_offset: Option<usize>,
    pub cache: Vec<(String, Entry)>,
    pub role: Role,
}

impl Server {
    /// The server's key-value mapping.
    pub open spec fn store(&self) -> Map<Seq<char>, EntryV> {
        assoc_map(self.cache@)
    }

    /// Well-formed: a primary holds its 40-character alphanumeric
    /// replication id and its offset, a replica holds neither, and no key
    /// is stored twice.
    pub open spec fn wf(&self) -> bool {
        &&& (self.role == Role::Master <==> self.replication_id is Some)
        &&& (self.role == Role::Master <==> self.replication_offset is Some)
        &&& (self.replication_id is Some ==> self.replication_id->Some_0@.len() == 40)
        &&& (self.replication_id is Some ==> forall|i: int|
            0 <= i < self.replication_id->Some_0@.len() ==> is_alphanumeric_char(
                #[trigger] self.replication_id->Some_0@[i],
            ))
        &&& unique_keys(self.cache@)
    }

    /// The INFO text: the role line; a primary appends its replication id
    /// and offset, a replica adds nothing.
    pub open spec fn info_view(&self) -> Seq<char> {
        if self.role == Role::Master {
            "role:"@ + "master"@ + "master_replid:"@ + self.replication_id->Some_0@
                + "master_repl_offset:"@ + dec_digits(self.replication_offset->Some_0 as nat)
        } else {
            "role:"@ + "slave"@
        }
    }

    /// A fresh server with an empty store. A primary draws its 40-character
    /// alphanumeric replication id once, here, and starts at offset zero; a
    /// replica holds neither id nor offset.
    pub fn new(role: Role) -> (s: Server)
        ensures
            s.wf(),
            s.role == role,
            s.store() == Map::<Seq<char>, EntryV>::empty(),
            role == Role::Master ==> s.replication_offset == Some(0usize),
    {
        let (replication_id, replication_offset) = match role {
            Role::Slave => (None, None),
            Role::Master => (Some(random_alphanumeric_40()), Some(0usize)),
        };
        let s = Self { replication_id, replication_offset, cache: Vec::new(), role };
        proof {
            assert(assoc_map(s.cache@) =~= Map::<Seq<char>, EntryV>::empty());
        }
        s
    }

    /// The index of the pair holding `key`, if any.
    fn find_key(cache: &Vec<(String, Entry)>, key: &String) -> (r: Option<usize>)
        ensures
            match r {
                Some(i) => i < cache@.len() && cache@[i as int].0@ == key@,
                None => forall|k: int| 0 <= k < cache@.len() ==> (#[trigger] cache@[k]).0@ != key@,
            },
    {
        let n = cache.len();
        let mut i: usize = 0;
        while i < n
            invariant
                0 <= i <= n,
                n == cache@.len(),
                forall|k: int| 0 <= k < i ==> (#[trigger] cache@[k]).0@ != key@,
            decreases n - i,
        {
            if cache[i].0 == *key {
                return Some(i);
            }
            i = i + 1;
        }
        None
    }

    /// Upsert `args[0] -> args[1]`; with the `px` token the entry expires
    /// `args[3]` milliseconds after `now_ms`. Overwrites any prior entry
    /// for the key, its expiry included.
    pub fn set(&mut self, args: &[BulkString], now_ms: u64)
        requires
            old(self).wf(),
            set_args_ok(bulk_views(args@), now_ms),
        ensures
            final(self).wf(),
            final(self).role == old(self).role,
            final(self).replication_id == old(self).replication_id,
            final(self).replication_offset == old(self).replication_offset,
            final(self).store() == old(self).store().insert(
                args@[0]@,
                EntryV { value: args@[1]@, expiry: set_args_expiry(bulk_views(args@), now_ms) },
            ),
    {
        let key = &args[0].0;
        let val = args[1].0.clone();
        let expiry: Option<u64> = if args.len() > 2 {
            let ms = match parse_dec_u64(args[3].0.as_str()) {
                Some(v) => v,
                None => {
                    proof {
                        assert(false);
                    }
                    0
                },
            };
            Some(now_ms + ms)
        } else {
            None
        };
        let entry = Entry::new(val, expiry);
        match Self::find_key(&self.cache, key) {
            Some(i) => {
                let pair = (key.clone(), entry);
                proof {
                    lemma_assoc_update(self.cache@, i as int, pair);
                    assert(unique_keys(self.cache@.update(i as int, pair))) by {
                        assert(forall|k: int|
                            0 <= k < self.cache@.len() && k != i
                                ==> self.cache@.update(i as int, pair)[k] == self.cache@[k]);
                    }
                }
                self.cache.set(i, pair);
            },
            None => {
                let pair = (key.clone(), entry);
                proof {
                    assert(self.cache@.push(pair).drop_last() =~= self.cache@);
                    assert(unique_keys(self.cache@.push(pair))) by {
                        assert(forall|k: int|
                            0 <= k < self.cache@.len() ==> self.cache@.push(pair)[k]
                                == self.cache@[k]);
                    }
                }
                self.cache.push(pair);
            },
        }
    }

    /// Look `args[0]` up at `now_ms`: the stored value as a bulk string,
    /// or null when the key is absent or its expiry has passed. An expired
    /// entry is only masked, never removed.
    pub fn get(&self, args: &[BulkString], now_ms: u64) -> (r: Payload)
        requires
            self.wf(),
            args@.len() >= 1,
        ensures
            r@ == spec_get(self.store(), args@[0]@, now_ms),
    {
        let key = &args[0].0;
        match Self::find_key(&self.cache, key) {
            None => {
                proof {
                    lemma_assoc_absent(self.cache@, key@);
                }
                Payload::Null
            },
            Some(i) => {
                proof {
                    lemma_assoc_found(self.cache@, i as int);
                }
                let entry = &self.cache[i].1;
                match entry.expiry {
                    Some(t) => {
                        if now_ms > t {
                            Payload::Null
                        } else {
                            Payload::Bulk(BulkString(entry.value.clone()))
                        }
                    },
                    None => Payload::Bulk(BulkString(entry.value.clone())),
                }
            },
        }
    }

    /// The INFO reply text, per [`Server::info_view`].
    pub fn info(&self) -> (r: String)
        requires
            self.wf(),
        ensures
            r@ == self.info_view(),
    {
        let mut r = String::from_str("role:");
        r.append(self.role.to_string().as_str());
        match self.role {
            Role::Slave => {},
            Role::Master => {
                match (&self.replication_id, &self.replication_offset) {
                    (Some(id), Some(off)) => {
                        r.append("master_replid:");
                        r.append(id.as_str());
                        r.append("master_repl_offset:");
                        r.append(to_dec(*off as u64).as_str());
                    },
                    _ => {
                        proof {
                            assert(false);
                        }
                    },
                }
            },
        }
        r
    }

    /// A request payload built from a whitespace-separated command line.
    pub fn payload(&self, s: &str) -> (r: Option<Payload>)
        ensures
            match r {
                Some(p) => p@ == PayloadV::Array(split_ws(s@)),
                None => false,
            },
    {
        Some(Payload::from_str(s))
    }

    /// The primary's reply line to a PSYNC request: `FULLRESYNC <id> <offset>`.
    pub fn reply_psync(&self) -> (r: String)
        requires
            self.wf(),
            self.role == Role::Master,
        ensures
            r@ == "FULLRESYNC "@ + self.replication_id->Some_0@ + " "@ + dec_digits(
                self.replication_offset->Some_0 as nat,
            ),
    {
        let mut r = String::from_str("FULLRESYNC ");
        match (&self.replication_id, &self.replication_offset) {
            (Some(id), Some(off)) => {
                r.append(id.as_str());
                r.append(" ");
                r.append(to_dec(*off as u64).as_str());
            },
            _ => {
                proof {
                    assert(false);
                }
            },
        }
        r
    }
}

/// The value of a hexadecimal digit; anything else counts as zero.
pub open spec fn hex_val(c: char) -> int {
    if 48 <= c as int && c as int <= 57 {
        c as int - 48
    } else if 97 <= c as int && c as int <= 102 {
        c as int - 87
    } else if 65 <= c as int && c as int <= 70 {
        c as int - 55
    } else {
        0
    }
}

/// The bytes a hex string denotes, two digits to a byte; a dangling last
/// digit is dropped.
pub open spec fn hex_decode(s: Seq<char>) -> Seq<u8> {
    Seq::new((s.len() / 2) as nat, |k: int| (16 * hex_val(s[2 * k]) + hex_val(s[2 * k + 1])) as u8)
}

/// ASCII characters as their byte values.
pub open spec fn ascii_bytes(s: Seq<char>) -> Seq<u8> {
    Seq::new(s.len(), |i: int| s[i] as u8)
}

/// The hex text of the canonical empty-database snapshot image a primary
/// sends after `FULLRESYNC`.
pub open spec fn rdb_hex() -> Seq<char> {
    "524544495330303131fa0972656469732d76657205372e322e30fa0a72656469732d62697473c040fa056374696d65c26d08bc65fa08757365642d6d656dc2b0c41000fa08616f662d62617365c000fff06e3bfec0ff5aa2"@
}

/// The `$<len>\r\n<bytes>` framing of the snapshot — deliberately without
/// a trailing CRLF, as the full-resync exchange requires.
pub open spec fn rdb_frame() -> Seq<u8> {
    seq![36u8] + ascii_bytes(dec_digits(hex_decode(rdb_hex()).len())) + seq![13u8, 10u8]
        + hex_decode(rdb_hex())
}

fn hex_digit_val(c: char) -> (r: u8)
    ensures
        r as int == hex_val(c),
{
    let x = c as u32;
    if 48 <= x && x <= 57 {
        (x - 48) as u8
    } else if 97 <= x && x <= 102 {
        (x - 87) as u8
    } else if 65 <= x && x <= 70 {
        (x - 55) as u8
    } else {
        0
    }
}

impl Server {
    /// The bulk-framed empty-database snapshot, per [`rdb_frame`]: `$`,
    /// the byte count in decimal, CRLF, then the raw snapshot bytes, with
    /// no trailing CRLF.
    pub fn empty_rdb(&self) -> (r: Vec<u8>)
        ensures
            r@ == rdb_frame(),
    {
        let hex =
            "524544495330303131fa0972656469732d76657205372e322e30fa0a72656469732d62697473c040fa056374696d65c26d08bc65fa08757365642d6d656dc2b0c41000fa08616f662d62617365c000fff06e3bfec0ff5aa2";
        let hlen = hex.unicode_len();
        let mut decoded: Vec<u8> = Vec::new();
        let mut i: usize = 0;
        while i + 1 < hlen
            invariant
                hlen == rdb_hex().len(),
                hex@ == rdb_hex(),
                i % 2 == 0,
                i <= hlen,
                decoded@ == hex_decode(rdb_hex()).take(i as int / 2),
            decreases hlen - i,
        {
            let hi = hex_digit_val(hex.get_char(i));
            let lo = hex_digit_val(hex.get_char(i + 1));
            let b: u8 = 16 * hi + lo;
            decoded.push(b);
            proof {
                let k = i as int / 2;
                assert(2 * k == i as int);
                assert(hex_decode(rdb_hex())[k] == (16 * hex_val(rdb_hex()[2 * k]) + hex_val(
                    rdb_hex()[2 * k + 1],
                )) as u8);
                assert(decoded@ =~= hex_decode(rdb_hex()).take(k + 1));
            }
            i = i + 2;
        }
        proof {
            assert(i as int / 2 == rdb_hex().len() / 2);
            assert(decoded@ =~= hex_decode(rdb_hex()));
        }
        let digits = to_dec(decoded.len() as u64);
        proof {
            crate::dec::lemma_dec_digits_ascii(decoded@.len());
        }
        let dlen = digits.as_str().unicode_len();
        let mut r: Vec<u8> = Vec::new();
        r.push(36);
        let mut j: usize = 0;
        while j < dlen
            invariant
                dlen == digits@.len(),
                digits@ == dec_digits(decoded@.len()),
                vstd::utf8::is_ascii_chars(digits@),
                0 <= j <= dlen,
                r@ == seq![36u8] + ascii_bytes(digits@).take(j as int),
            decreases dlen - j,
        {
            let b = digits.as_str().get_ascii(j);
            r.push(b);
            proof {
                assert(r@ =~= seq![36u8] + ascii_bytes(digits@).take(j as int + 1));
            }
            j = j + 1;
        }
        r.push(13);
        r.push(10);
        let mut tail = decoded;
        r.append(&mut tail);
        proof {
            assert(ascii_bytes(digits@).take(dlen as int) =~= ascii_bytes(digits@));
            assert(r@ =~= rdb_frame());
        }
        r
    }
}

/// The replica-side handshake stages, in the order the protocol visits
/// them. A stage is left only after the reply to its message arrived.
#[derive(Clone, Copy, PartialEq, Eq, Structural, Debug)]
pub enum HandshakeState {
    Init,
    SentPing,
    SentListeningPort,
    SentCapa,
    SentPsync,
    Done,
}

/// The message a replica sends at each stage: PING, then its listening
/// port, then its capabilities, then PSYNC; nothing once all four are out.
pub open spec fn handshake_message_view(state: HandshakeState, port: u64) -> Option<PayloadV> {
    match state {
        HandshakeState::Init => Some(PayloadV::Array(seq!["ping"@])),
        HandshakeState::SentPing => Some(
            PayloadV::Array(seq!["REPLCONF"@, "listening-port"@, dec_digits(port as nat)]),
        ),
        HandshakeState::SentListeningPort => Some(
            PayloadV::Array(seq!["REPLCONF"@, "capa"@, "psync2"@]),
        ),
        HandshakeState::SentCapa => Some(PayloadV::Array(seq!["PSYNC"@, "?"@, "-1"@])),
        HandshakeState::SentPsync => None,
        HandshakeState::Done => None,
    }
}

/// The stage that follows once the current stage's send and reply are
/// complete.
pub open spec fn handshake_next(state: HandshakeState) -> HandshakeState {
    match state {
        HandshakeState::Init => HandshakeState::SentPing,
        HandshakeState::SentPing => HandshakeState::SentListeningPort,
        HandshakeState::SentListeningPort => HandshakeState::SentCapa,
        HandshakeState::SentCapa => HandshakeState::SentPsync,
        HandshakeState::SentPsync => HandshakeState::Done,
        HandshakeState::Done => HandshakeState::Done,
    }
}

/// How many stages remain at and after `state`.
pub open spec fn handshake_rank(state: HandshakeState) -> nat {
    match state {
        HandshakeState::Init => 5,
        HandshakeState::SentPing => 4,
        HandshakeState::SentListeningPort => 3,
        HandshakeState::SentCapa => 2,
        HandshakeState::SentPsync => 1,
        HandshakeState::Done => 0,
    }
}

/// The messages still to go out from `state`, in order.
pub open spec fn handshake_trace(state: HandshakeState, port: u64) -> Seq<PayloadV>
    decreases handshake_rank(state),
{
    match handshake_message_view(state, port) {
        None => Seq::empty(),
        Some(m) => seq![m] + handshake_trace(handshake_next(state), port),
    }
}

impl HandshakeState {
    /// The message to send at this stage, if one remains.
    pub fn message(&self, port: u64) -> (r: Option<Payload>)
        ensures
            match r {
                Some(p) => handshake_message_view(*self, port) == Some(p@),
                None => handshake_message_view(*self, port) is None,
            },
    {
        match self {
            HandshakeState::Init => {
                let mut v: Vec<BulkString> = Vec::new();
                v.push(BulkString(String::from_str("ping")));
                proof {
                    assert(bulk_views(v@) =~= seq!["ping"@]);
                }
                Some(Payload::Array(Array::new(v)))
            },
            HandshakeState::SentPing => {
                let mut v: Vec<BulkString> = Vec::new();
                v.push(BulkString(String::from_str("REPLCONF")));
                v.push(BulkString(String::from_str("listening-port")));
                v.push(BulkString(to_dec(port)));
                proof {
                    assert(bulk_views(v@) =~= seq![
                        "REPLCONF"@,
                        "listening-port"@,
                        dec_digits(port as nat),
                    ]);
                }
                Some(Payload::Array(Array::new(v)))
            },
            HandshakeState::SentListeningPort => {
                let mut v: Vec<BulkString> = Vec::new();
                v.push(BulkString(String::from_str("REPLCONF")));
                v.push(BulkString(String::from_str("capa")));
                v.push(BulkString(String::from_str("psync2")));
                proof {
                    assert(bulk_views(v@) =~= seq!["REPLCONF"@, "capa"@, "psync2"@]);
                }
                Some(Payload::Array(Array::new(v)))
            },
            HandshakeState::SentCapa => {
                let mut v: Vec<BulkString> = Vec::new();
                v.push(BulkString(String::from_str("PSYNC")));
                v.push(BulkString(String::from_str("?")));
                v.push(BulkString(String::from_str("-1")));
                proof {
                    assert(bulk_views(v@) =~= seq!["PSYNC"@, "?"@, "-1"@]);
                }
                Some(Payload::Array(Array::new(v)))
            },
            HandshakeState::SentPsync => None,
            HandshakeState::Done => None,
        }
    }

    /// The stage that follows this one, per [`handshake_next`].
    pub fn advance(&self) -> (r: HandshakeState)
        ensures
            r == handshake_next(*self),
    {
        match self {
            HandshakeState::Init => HandshakeState::SentPing,
            HandshakeState::SentPing => HandshakeState::SentListeningPort,
            HandshakeState::SentListeningPort => HandshakeState::SentCapa,
            HandshakeState::SentCapa => HandshakeState::SentPsync,
            HandshakeState::SentPsync => HandshakeState::Done,
            HandshakeState::Done => HandshakeState::Done,
        }
    }
}

/// Handshake ordering law: from the initial stage a replica sends exactly
/// PING, REPLCONF listening-port, REPLCONF capa psync2, PSYNC, in that
/// order; a stage advances only once the reply to its message arrived.
pub proof fn lemma_handshake_sequence(port: u64)
    ensures
        handshake_trace(HandshakeState::Init, port) == seq![
            PayloadV::Array(seq!["ping"@]),
            PayloadV::Array(seq!["REPLCONF"@, "listening-port"@, dec_digits(port as nat)]),
            PayloadV::Array(seq!["REPLCONF"@, "capa"@, "psync2"@]),
            PayloadV::Array(seq!["PSYNC"@, "?"@, "-1"@]),
        ],
{
    assert(handshake_trace(HandshakeState::SentPsync, port) =~= Seq::<PayloadV>::empty());
    assert(handshake_trace(HandshakeState::SentCapa, port) =~= seq![
        PayloadV::Array(seq!["PSYNC"@, "?"@, "-1"@]),
    ]);
    assert(handshake_trace(HandshakeState::SentListeningPort, port) =~= seq![
        PayloadV::Array(seq!["REPLCONF"@, "capa"@, "psync2"@]),
        PayloadV::Array(seq!["PSYNC"@, "?"@, "-1"@]),
    ]);
    assert(handshake_trace(HandshakeState::SentPing, port) =~= seq![
        PayloadV::Array(seq!["REPLCONF"@, "listening-port"@, dec_digits(port as nat)]),
        PayloadV::Array(seq!["REPLCONF"@, "capa"@, "psync2"@]),
        PayloadV::Array(seq!["PSYNC"@, "?"@, "-1"@]),
    ]);
    assert(handshake_trace(HandshakeState::Init, port) =~= seq![
        PayloadV::Array(seq!["ping"@]),
        PayloadV::Array(seq!["REPLCONF"@, "listening-port"@, dec_digits(port as nat)]),
        PayloadV::Array(seq!["REPLCONF"@, "capa"@, "psync2"@]),
        PayloadV::Array(seq!["PSYNC"@, "?"@, "-1"@]),
    ]);
}

/// A primary's INFO text opens with `role:master`; a replica's is exactly
/// `role:slave`, with no replication id or offset after it.
pub proof fn lemma_info_role(s: Server)
    requires
        s.wf(),
    ensures
        s.role == Role::Master ==> s.info_view().subrange(0, 11) == "role:master"@,
        s.role == Role::Slave ==> s.info_view() == "role:slave"@,
{
    reveal_strlit("role:");
    reveal_strlit("master");
    reveal_strlit("slave");
    reveal_strlit("role:master");
    reveal_strlit("role:slave");
    if s.role == Role::Master {
        assert(s.info_view().subrange(0, 11) =~= "role:master"@);
    } else {
        assert(s.info_view() =~= "role:slave"@);
    }
}

} // verus!
