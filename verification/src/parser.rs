//! Wire decoding.
//!
//! A request frame is `*<count>\r\n` followed by `<count>` bulk strings,
//! each `$<len>\r\n<chars>\r\n`. [`spec_parse`] is the mathematical decoder;
//! [`Parser::parse`] implements it, returning a frame error instead of a
//! partial result on any malformed input. [`lemma_decode_encode`] states the
//! round-trip law with the encoder.
//!
//! The decoder assumes its buffer holds one complete frame: it walks the
//! buffer positionally, ignores anything after the declared elements, and
//! does not reassemble frames split across reads.

use crate::dec::all_digits;
use crate::dec::dec_digits;
use crate::dec::is_digit;
use crate::dec::parse_dec;
use crate::dec::parse_dec_u64;
use crate::resp::bulk_views;
use crate::resp::crlf;
use crate::resp::encode_array;
use crate::resp::encode_bulk;
use crate::resp::encode_bulks;
use crate::resp::Array;
use crate::resp::BulkString;
use crate::resp::Payload;
use crate::resp::PayloadV;
use crate::resp::RespError;
use crate::resp::SimpleString;
use crate::server::set_args_expiry;
use crate::server::set_args_ok;
use crate::server::spec_get;
use crate::server::EntryV;
use crate::server::Server;
use vstd::prelude::*;
use vstd::slice::slice_subrange;
use vstd::string::StrSliceExecFns;
use vstd::string::StringExecFns;

verus! {

/// A CRLF pair starts at position `i` of `s`.
pub open spec fn crlf_at(s: Seq<char>, i: int) -> bool {
    0 <= i && i + 2 <= s.len() && s[i] == '\r' && s[i + 1] == '\n'
}

/// The position of the first CRLF pair in `s`, if any.
pub open spec fn first_crlf(s: Seq<char>) -> Option<int>
    decreases s.len(),
{
    if s.len() < 2 {
        None
    } else if s[0] == '\r' && s[1] == '\n' {
        Some(0)
    } else {
        match first_crlf(s.drop_first()) {
            Some(i) => Some(i + 1),
            None => None,
        }
    }
}

/// Everything before the first CRLF; the whole string when there is none.
pub open spec fn until_crlf(s: Seq<char>) -> Seq<char> {
    match first_crlf(s) {
        Some(i) => s.take(i),
        None => s,
    }
}

/// `first_crlf` finds a CRLF pair, and the earliest one.
proof fn lemma_first_crlf(s: Seq<char>)
    ensures
        match first_crlf(s) {
            Some(i) => crlf_at(s, i) && (forall|j: int| 0 <= j < i ==> !crlf_at(s, j)),
            None => forall|j: int| !crlf_at(s, j),
        },
    decreases s.len(),
{
    if s.len() < 2 {
    } else if s[0] == '\r' && s[1] == '\n' {
    } else {
        let d = s.drop_first();
        lemma_first_crlf(d);
        assert(forall|k: int| 0 <= k < d.len() ==> d[k] == s[k + 1]);
        match first_crlf(d) {
            Some(i) => {
                assert(crlf_at(s, i + 1));
                assert forall|j: int| 0 <= j < i + 1 implies !crlf_at(s, j) by {
                    if j == 0 {
                    } else {
                        assert(!crlf_at(d, j - 1));
                        if crlf_at(s, j) {
                            assert(d[j - 1] == s[j]);
                            assert(d[j] == s[j + 1]);
                            assert(crlf_at(d, j - 1));
                        }
                    }
                }
            },
            None => {
                assert forall|j: int| !crlf_at(s, j) by {
                    if crlf_at(s, j) {
                        assert(j != 0);
                        assert(d[j - 1] == s[j]);
                        assert(d[j] == s[j + 1]);
                        assert(crlf_at(d, j - 1));
                        assert(!crlf_at(d, j - 1));
                    }
                }
            },
        }
    }
}

/// A witnessed earliest CRLF pair pins `first_crlf` down.
proof fn lemma_first_crlf_is(s: Seq<char>, i: int)
    requires
        crlf_at(s, i),
        forall|j: int| 0 <= j < i ==> !crlf_at(s, j),
    ensures
        first_crlf(s) == Some(i),
{
    lemma_first_crlf(s);
    match first_crlf(s) {
        Some(k) => {
            if k < i {
                assert(!crlf_at(s, k));
            } else if i < k {
                assert(!crlf_at(s, i));
            }
        },
        None => {
            assert(!crlf_at(s, i));
        },
    }
}

/// The first CRLF after a CR-free prefix sits right at the prefix's end.
proof fn lemma_first_crlf_after(p: Seq<char>, rest: Seq<char>)
    requires
        forall|i: int| 0 <= i < p.len() ==> p[i] != '\r',
        rest.len() >= 2,
        rest[0] == '\r',
        rest[1] == '\n',
    ensures
        first_crlf(p + rest) == Some(p.len() as int),
{
    let s = p + rest;
    assert(s[p.len() as int] == rest[0]);
    assert(s[p.len() as int + 1] == rest[1]);
    assert(crlf_at(s, p.len() as int));
    assert forall|j: int| 0 <= j < p.len() implies !crlf_at(s, j) by {
        assert(s[j] == p[j]);
    }
    lemma_first_crlf_is(s, p.len() as int);
}

/// Digit characters are never a carriage return.
proof fn lemma_digits_no_cr(d: Seq<char>)
    requires
        all_digits(d),
    ensures
        forall|i: int| 0 <= i < d.len() ==> d[i] != '\r',
{
    assert forall|i: int| 0 <= i < d.len() implies d[i] != '\r' by {
        assert(is_digit(d[i]));
    }
}

/// What one bulk string at the front of `s` decodes to: the payload
/// characters and the number of characters the frame occupies.
pub open spec fn spec_parse_bulk(s: Seq<char>) -> Option<(Seq<char>, int)> {
    if s.len() == 0 || s[0] != '$' {
        None
    } else {
        let hdr = until_crlf(s.skip(1));
        match parse_dec(hdr, usize::MAX as int) {
            None => None,
            Some(size) => {
                let start = 3 + hdr.len() as int;
                if start + size > s.len() {
                    None
                } else {
                    Some((s.subrange(start, start + size), 5 + hdr.len() as int + size))
                }
            },
        }
    }
}

/// Prepend already-decoded elements to the outcome of the rest of a parse.
pub open spec fn with_prefix(pre: Seq<Seq<char>>, rest: Option<Seq<Seq<char>>>) -> Option<
    Seq<Seq<char>>,
> {
    match rest {
        Some(r) => Some(pre + r),
        None => None,
    }
}

/// Decode `n` consecutive bulk strings of `s` starting at `cursor`.
pub open spec fn spec_parse_bulks(s: Seq<char>, cursor: int, n: nat) -> Option<Seq<Seq<char>>>
    decreases n,
{
    if n == 0 {
        Some(Seq::empty())
    } else if !(0 <= cursor && cursor <= s.len()) {
        None
    } else {
        match spec_parse_bulk(s.skip(cursor)) {
            None => None,
            Some((w, used)) => with_prefix(
                seq![w],
                spec_parse_bulks(s, cursor + used, (n - 1) as nat),
            ),
        }
    }
}

/// What a whole request frame decodes to: the array's elements, or nothing
/// when the frame is malformed (wrong sigil, bad count or length header,
/// or a truncated body).
pub open spec fn spec_parse(s: Seq<char>) -> Option<Seq<Seq<char>>> {
    if s.len() == 0 || s[0] != '*' {
        None
    } else {
        let hdr = until_crlf(s.skip(1));
        match parse_dec(hdr, usize::MAX as int) {
            None => None,
            Some(n) => spec_parse_bulks(s, 3 + hdr.len() as int, n as nat),
        }
    }
}

/// A decoded bulk frame occupies at least its five framing characters and
/// at most the rest of the input plus the trailing CRLF it may lack.
proof fn lemma_parse_bulk_used(s: Seq<char>)
    ensures
        match spec_parse_bulk(s) {
            Some((w, used)) => {
                &&& 5 <= used
                &&& used <= s.len() + 2
                &&& used == 5 + until_crlf(s.skip(1)).len() + w.len()
            },
            None => true,
        },
{
    if s.len() != 0 && s[0] == '$' {
        let hdr = until_crlf(s.skip(1));
        match parse_dec(hdr, usize::MAX as int) {
            None => {},
            Some(size) => {
                crate::dec::lemma_dec_val_nonneg(hdr);
            },
        }
    }
}

/// The ASCII-lowercased value of a character: letters fold, everything
/// else stands.
pub open spec fn lower_char_val(c: char) -> int {
    if 65 <= c as int && c as int <= 90 {
        c as int + 32
    } else {
        c as int
    }
}

/// `name` is command `lit` up to ASCII case: lowercasing `name` yields
/// exactly `lit`.
pub open spec fn is_cmd(name: Seq<char>, lit: Seq<char>) -> bool {
    name.len() == lit.len() && forall|i: int|
        0 <= i < name.len() ==> lower_char_val(#[trigger] name[i]) == lit[i] as int
}

fn cmd_matches(name: &str, lit: &str) -> (r: bool)
    ensures
        r == is_cmd(name@, lit@),
{
    let nl = name.unicode_len();
    let ll = lit.unicode_len();
    if nl != ll {
        return false;
    }
    let mut i: usize = 0;
    while i < nl
        invariant
            0 <= i <= nl,
            nl == name@.len(),
            nl == lit@.len(),
            forall|k: int| 0 <= k < i ==> lower_char_val(#[trigger] name@[k]) == lit@[k] as int,
        decreases nl - i,
    {
        let c = name.get_char(i) as u32;
        let l = lit.get_char(i) as u32;
        let folded = if 65 <= c && c <= 90 {
            c + 32
        } else {
            c
        };
        if folded != l {
            proof {
                assert(lower_char_val(name@[i as int]) != lit@[i as int] as int);
            }
            return false;
        }
        i = i + 1;
    }
    true
}

/// The arguments joined with single spaces, as ECHO replies them.
pub open spec fn join_space(elems: Seq<Seq<char>>) -> Seq<char>
    decreases elems.len(),
{
    if elems.len() == 0 {
        Seq::empty()
    } else if elems.len() == 1 {
        elems[0]
    } else {
        elems[0] + seq![' '] + join_space(elems.drop_first())
    }
}

proof fn lemma_join_space_push(s: Seq<Seq<char>>, w: Seq<char>)
    ensures
        join_space(s.push(w)) == if s.len() == 0 {
            w
        } else {
            join_space(s) + seq![' '] + w
        },
    decreases s.len(),
{
    let p = s.push(w);
    if s.len() == 0 {
        assert(p.len() == 1);
        assert(p[0] == w);
    } else if s.len() == 1 {
        assert(p[0] == s[0]);
        assert(p.drop_first() =~= seq![w]);
        assert(join_space(p.drop_first()) == w);
        assert(join_space(s) == s[0]);
    } else {
        assert(p[0] == s[0]);
        assert(p.drop_first() =~= s.drop_first().push(w));
        lemma_join_space_push(s.drop_first(), w);
        assert(join_space(p) == s[0] + seq![' '] + (join_space(s.drop_first()) + seq![' '] + w));
        assert(join_space(s) == s[0] + seq![' '] + join_space(s.drop_first()));
        assert(s[0] + seq![' '] + (join_space(s.drop_first()) + seq![' '] + w) =~= (s[0]
            + seq![' '] + join_space(s.drop_first())) + seq![' '] + w);
    }
}

/// The stateless decoder.
pub struct Parser;

impl Parser {
    pub fn new() -> (r: Self) {
        Parser
    }

    /// Interpret a decoded request against the server at time `now_ms`.
    /// Dispatch is by the ASCII-lowercased first element; the guards below
    /// mirror that order, first match winning.
    pub fn from_array(value: Array, server: &mut Server, now_ms: u64) -> (r: Result<
        Payload,
        RespError,
    >)
        requires
            old(server).wf(),
            value@.len() >= 1,
            is_cmd(value@[0], "set"@) ==> set_args_ok(value@.skip(1), now_ms),
            is_cmd(value@[0], "get"@) ==> value@.len() >= 2,
        ensures
            final(server).wf(),
            is_cmd(value@[0], "ping"@) ==> *final(server) == *old(server) && r is Ok
                && r->Ok_0@ == PayloadV::Simple("PONG"@),
            !is_cmd(value@[0], "ping"@) && is_cmd(value@[0], "echo"@) ==> *final(server) == *old(
                server,
            ) && r is Ok && r->Ok_0@ == PayloadV::Bulk(join_space(value@.skip(1))),
            !is_cmd(value@[0], "ping"@) && !is_cmd(value@[0], "echo"@) && is_cmd(
                value@[0],
                "set"@,
            ) ==> {
                &&& r is Ok
                &&& r->Ok_0@ == PayloadV::Simple("OK"@)
                &&& final(server).role == old(server).role
                &&& final(server).replication_id == old(server).replication_id
                &&& final(server).replication_offset == old(server).replication_offset
                &&& final(server).store() == old(server).store().insert(
                    value@[1],
                    EntryV {
                        value: value@[2],
                        expiry: set_args_expiry(value@.skip(1), now_ms),
                    },
                )
            },
            !is_cmd(value@[0], "ping"@) && !is_cmd(value@[0], "echo"@) && !is_cmd(
                value@[0],
                "set"@,
            ) && is_cmd(value@[0], "get"@) ==> *final(server) == *old(server) && r is Ok
                && r->Ok_0@ == spec_get(old(server).store(), value@[1], now_ms),
            !is_cmd(value@[0], "ping"@) && !is_cmd(value@[0], "echo"@) && !is_cmd(
                value@[0],
                "set"@,
            ) && !is_cmd(value@[0], "get"@) && is_cmd(value@[0], "info"@) ==> *final(server)
                == *old(server) && r is Ok && r->Ok_0@ == PayloadV::Bulk(old(server).info_view()),
            !is_cmd(value@[0], "ping"@) && !is_cmd(value@[0], "echo"@) && !is_cmd(
                value@[0],
                "set"@,
            ) && !is_cmd(value@[0], "get"@) && !is_cmd(value@[0], "info"@) ==> *final(server)
                == *old(server) && r == Err::<Payload, RespError>(RespError::UnsupportedCommand),
    {
        let name = &value.contents[0].0;
        proof {
            assert(value@[0] == name@);
        }
        if cmd_matches(name.as_str(), "ping") {
            Ok(Payload::Simple(SimpleString(String::from_str("PONG"))))
        } else if cmd_matches(name.as_str(), "echo") {
            let n = value.contents.len();
            let ghost tail = value@.skip(1);
            let mut acc = String::new();
            let mut i: usize = 1;
            proof {
                assert(tail.take(0) =~= Seq::<Seq<char>>::empty());
            }
            while i < n
                invariant
                    1 <= i <= n,
                    n == value.contents@.len(),
                    tail == value@.skip(1),
                    acc@ == join_space(tail.take(i as int - 1)),
                decreases n - i,
            {
                if i > 1 {
                    acc.append(" ");
                }
                acc.append(value.contents[i].0.as_str());
                proof {
                    reveal_strlit(" ");
                    assert(" "@ =~= seq![' ']);
                    let k = i as int - 1;
                    assert(tail[k] == value@[i as int]);
                    assert(tail.take(k + 1) =~= tail.take(k).push(tail[k]));
                    lemma_join_space_push(tail.take(k), tail[k]);
                    assert(acc@ =~= join_space(tail.take(k + 1)));
                }
                i = i + 1;
            }
            proof {
                assert(tail.take(n as int - 1) =~= tail);
            }
            Ok(Payload::Bulk(BulkString(acc)))
        } else if cmd_matches(name.as_str(), "set") {
            let args = slice_subrange(value.contents.as_slice(), 1, value.contents.len());
            proof {
                assert(bulk_views(args@) =~= value@.skip(1));
            }
            server.set(args, now_ms);
            proof {
                assert(args@[0]@ == value@[1]);
                assert(args@[1]@ == value@[2]);
            }
            Ok(Payload::Simple(SimpleString(String::from_str("OK"))))
        } else if cmd_matches(name.as_str(), "get") {
            let args = slice_subrange(value.contents.as_slice(), 1, value.contents.len());
            proof {
                assert(args@[0]@ == value@[1]);
            }
            Ok(server.get(args, now_ms))
        } else if cmd_matches(name.as_str(), "info") {
            Ok(Payload::Bulk(BulkString(server.info())))
        } else {
            Err(RespError::UnsupportedCommand)
        }
    }

    /// The characters before the first CRLF of `s` (all of `s` when there
    /// is none), together with their count.
    pub fn extract_until_clrf<'a>(&self, s: &'a str) -> (r: (&'a str, usize))
        ensures
            match first_crlf(s@) {
                Some(i) => r.0@ == s@.take(i) && r.1 as int == i && 0 <= i && i + 2 <= s@.len(),
                None => r.0@ == s@ && r.1 == s@.len(),
            },
    {
        let len = s.unicode_len();
        let mut i: usize = 0;
        while i + 1 < len
            invariant
                len == s@.len(),
                i == 0 || i < len,
                forall|k: int| 0 <= k < i ==> !crlf_at(s@, k),
            decreases len - i,
        {
            let a = s.get_char(i);
            let b = s.get_char(i + 1);
            if a == '\r' && b == '\n' {
                proof {
                    assert(crlf_at(s@, i as int));
                    lemma_first_crlf_is(s@, i as int);
                }
                return (s.substring_char(0, i), i);
            }
            proof {
                assert(!crlf_at(s@, i as int));
            }
            i = i + 1;
        }
        proof {
            lemma_first_crlf(s@);
            if first_crlf(s@) is Some {
                let k = first_crlf(s@)->Some_0;
                assert(crlf_at(s@, k));
                assert(!crlf_at(s@, k));
            }
        }
        (s, len)
    }

    /// Decode one bulk string at the front of `s`, returning the payload
    /// and the number of characters consumed, per [`spec_parse_bulk`].
    pub fn parse_bulk_string(&self, s: &str) -> (r: Result<(BulkString, usize), RespError>)
        requires
            s@.len() + 2 <= usize::MAX,
        ensures
            match r {
                Ok((b, used)) => spec_parse_bulk(s@) == Some((b@, used as int)),
                Err(e) => spec_parse_bulk(s@) is None && e == RespError::Frame,
            },
    {
        let len = s.unicode_len();
        if len == 0 {
            return Err(RespError::Frame);
        }
        if s.get_char(0) != '$' {
            return Err(RespError::Frame);
        }
        let rest = s.substring_char(1, len);
        proof {
            assert(rest@ =~= s@.skip(1));
        }
        let (hdr, hlen) = self.extract_until_clrf(rest);
        proof {
            assert(hdr@ == until_crlf(s@.skip(1)));
            assert(hlen == hdr@.len());
        }
        let size: usize = match parse_dec_u64(hdr) {
            None => {
                return Err(RespError::Frame);
            },
            Some(v) => {
                if v > usize::MAX as u64 {
                    return Err(RespError::Frame);
                }
                v as usize
            },
        };
        let start: usize = 3 + hlen;
        let end = match start.checked_add(size) {
            None => {
                return Err(RespError::Frame);
            },
            Some(e) => e,
        };
        if end > len {
            return Err(RespError::Frame);
        }
        let word = s.substring_char(start, end);
        Ok((BulkString(word.to_owned()), end + 2))
    }

    /// Decode a full request frame, per [`spec_parse`]: the array of bulk
    /// strings, or a frame error on any malformed input.
    pub fn parse(&self, s: &str) -> (r: Result<Array, RespError>)
        requires
            s@.len() + 2 <= usize::MAX,
        ensures
            match r {
                Ok(a) => spec_parse(s@) == Some(a@),
                Err(e) => spec_parse(s@) is None && e == RespError::Frame,
            },
    {
        let len = s.unicode_len();
        if len == 0 {
            return Err(RespError::Frame);
        }
        if s.get_char(0) != '*' {
            return Err(RespError::Frame);
        }
        let rest = s.substring_char(1, len);
        proof {
            assert(rest@ =~= s@.skip(1));
        }
        let (hdr, hlen) = self.extract_until_clrf(rest);
        proof {
            assert(hdr@ == until_crlf(s@.skip(1)));
            assert(hlen == hdr@.len());
        }
        let n: usize = match parse_dec_u64(hdr) {
            None => {
                return Err(RespError::Frame);
            },
            Some(v) => {
                if v > usize::MAX as u64 {
                    return Err(RespError::Frame);
                }
                v as usize
            },
        };
        let mut cursor: usize = 3 + hlen;
        let ghost c0 = cursor as int;
        let mut contents: Vec<BulkString> = Vec::new();
        proof {
            assert(spec_parse(s@) == spec_parse_bulks(s@, c0, n as nat));
            assert(bulk_views(contents@) =~= Seq::<Seq<char>>::empty());
            if spec_parse_bulks(s@, c0, n as nat) is Some {
                let r0 = spec_parse_bulks(s@, c0, n as nat)->Some_0;
                assert(Seq::<Seq<char>>::empty() + r0 =~= r0);
            }
        }
        let mut idx: usize = 0;
        while idx < n
            invariant
                0 <= idx <= n,
                len == s@.len(),
                s@.len() + 2 <= usize::MAX,
                cursor as int <= s@.len() + 2,
                contents@.len() == idx,
                spec_parse(s@) == with_prefix(
                    bulk_views(contents@),
                    spec_parse_bulks(s@, cursor as int, (n - idx) as nat),
                ),
            decreases n - idx,
        {
            if cursor > len {
                return Err(RespError::Frame);
            }
            let sub = s.substring_char(cursor, len);
            proof {
                assert(sub@ =~= s@.skip(cursor as int));
            }
            match self.parse_bulk_string(sub) {
                Err(_) => {
                    return Err(RespError::Frame);
                },
                Ok((b, used)) => {
                    proof {
                        lemma_parse_bulk_used(s@.skip(cursor as int));
                        let views = bulk_views(contents@);
                        let x = spec_parse_bulks(
                            s@,
                            cursor as int + used as int,
                            (n - idx - 1) as nat,
                        );
                        assert(spec_parse_bulks(s@, cursor as int, (n - idx) as nat)
                            == with_prefix(seq![b@], x));
                        assert(bulk_views(contents@.push(b)) =~= views.push(b@));
                        if x is Some {
                            let r0 = x->Some_0;
                            assert(views + (seq![b@] + r0) =~= views.push(b@) + r0);
                        }
                    }
                    contents.push(b);
                    cursor = cursor + used;
                    idx = idx + 1;
                },
            }
        }
        proof {
            assert(spec_parse_bulks(s@, cursor as int, 0) == Some(Seq::<Seq<char>>::empty()));
            assert(bulk_views(contents@) + Seq::<Seq<char>>::empty() =~= bulk_views(contents@));
        }
        Ok(Array { contents })
    }
}

/// Decoding the encoding of one bulk string, whatever follows it, yields
/// exactly its characters and consumes exactly its frame.
proof fn lemma_parse_encode_bulk(w: Seq<char>, t: Seq<char>)
    requires
        w.len() <= usize::MAX,
    ensures
        spec_parse_bulk(encode_bulk(w) + t) == Some((w, encode_bulk(w).len() as int)),
{
    let dd = dec_digits(w.len());
    let s = encode_bulk(w) + t;
    let rest = crlf() + w + crlf() + t;
    crate::dec::lemma_dec_digits_digits(w.len());
    crate::dec::lemma_dec_digits_val(w.len());
    assert(s[0] == '$');
    assert(s.skip(1) =~= dd + rest);
    lemma_digits_no_cr(dd);
    assert(rest[0] == '\r');
    assert(rest[1] == '\n');
    lemma_first_crlf_after(dd, rest);
    assert(until_crlf(s.skip(1)) =~= dd);
    assert(parse_dec(dd, usize::MAX as int) == Some(w.len() as int));
    let start = 3 + dd.len() as int;
    assert(s.len() == 5 + dd.len() + w.len() + t.len());
    assert(s.subrange(start, start + w.len() as int) =~= w);
    assert(encode_bulk(w).len() == 5 + dd.len() + w.len());
}

/// Decoding the concatenated encodings of `elems`, starting where they
/// start and whatever follows them, yields exactly `elems`.
proof fn lemma_parse_bulks_encode(s: Seq<char>, cursor: int, elems: Seq<Seq<char>>, t: Seq<char>)
    requires
        0 <= cursor <= s.len(),
        s.skip(cursor) == encode_bulks(elems) + t,
        forall|i: int| 0 <= i < elems.len() ==> (#[trigger] elems[i]).len() <= usize::MAX,
    ensures
        spec_parse_bulks(s, cursor, elems.len()) == Some(elems),
    decreases elems.len(),
{
    if elems.len() == 0 {
        assert(elems =~= Seq::<Seq<char>>::empty());
    } else {
        let e0 = elems[0];
        let rest = elems.drop_first();
        assert(encode_bulks(elems) == encode_bulk(e0) + encode_bulks(rest));
        assert(s.skip(cursor) =~= encode_bulk(e0) + (encode_bulks(rest) + t));
        lemma_parse_encode_bulk(e0, encode_bulks(rest) + t);
        let used = encode_bulk(e0).len() as int;
        assert(spec_parse_bulk(s.skip(cursor)) == Some((e0, used)));
        let cursor2 = cursor + used;
        assert(s.skip(cursor).len() == s.len() - cursor);
        assert(cursor2 <= s.len());
        assert(s.skip(cursor2) =~= encode_bulks(rest) + t) by {
            assert forall|k: int| 0 <= k < s.len() - cursor2 implies s.skip(cursor2)[k] == (
            encode_bulks(rest) + t)[k] by {
                assert(s.skip(cursor2)[k] == s.skip(cursor)[used + k]);
            }
        }
        assert(forall|i: int| 0 <= i < rest.len() ==> rest[i] == elems[i + 1]);
        lemma_parse_bulks_encode(s, cursor2, rest, t);
        assert(seq![e0] + rest =~= elems);
    }
}

/// Round-trip law: decoding the encoding of any array of bulk strings
/// yields exactly that array.
pub proof fn lemma_decode_encode(elems: Seq<Seq<char>>)
    requires
        elems.len() <= usize::MAX,
        forall|i: int| 0 <= i < elems.len() ==> (#[trigger] elems[i]).len() <= usize::MAX,
    ensures
        spec_parse(encode_array(elems)) == Some(elems),
{
    let dd = dec_digits(elems.len());
    let s = encode_array(elems);
    let rest = crlf() + encode_bulks(elems);
    crate::dec::lemma_dec_digits_digits(elems.len());
    crate::dec::lemma_dec_digits_val(elems.len());
    assert(s[0] == '*');
    assert(s.skip(1) =~= dd + rest);
    lemma_digits_no_cr(dd);
    assert(rest[0] == '\r');
    assert(rest[1] == '\n');
    lemma_first_crlf_after(dd, rest);
    assert(until_crlf(s.skip(1)) =~= dd);
    assert(parse_dec(dd, usize::MAX as int) == Some(elems.len() as int));
    let c0 = 3 + dd.len() as int;
    assert(s.skip(c0) =~= encode_bulks(elems) + Seq::<char>::empty());
    lemma_parse_bulks_encode(s, c0, elems, Seq::<char>::empty());
}

} // verus!
