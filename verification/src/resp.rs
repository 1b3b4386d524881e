//! RESP types.
//!
//! The typed wire values (arrays, simple strings, bulk strings, null), their
//! mathematical form, and the total serialization function over them.

use crate::dec::dec_digits;
use crate::dec::to_dec;
use vstd::prelude::*;
use vstd::string::StrSliceExecFns;
use vstd::string::StringExecFns;

verus! {

/// A length-prefixed, binary-safe string frame: the atomic argument type
/// for commands.
#[derive(Debug)]
pub struct BulkString(pub String);

/// A `+`-prefixed, CRLF-terminated line.
#[derive(Debug)]
pub struct SimpleString(pub String);

/// An ordered sequence of bulk strings: the wire form of a client request.
#[derive(Debug)]
pub struct Array {
    pub contents: Vec<BulkString>,
}

/// Any wire value: exactly one variant is active, and serialization is
/// total over all of them.
#[derive(Debug)]
pub enum Payload {
    Array(Array),
    Simple(SimpleString),
    Bulk(BulkString),
    Null,
}

/// The mathematical form of a [`Payload`].
pub enum PayloadV {
    Array(Seq<Seq<char>>),
    Simple(Seq<char>),
    Bulk(Seq<char>),
    Null,
}

/// The error taxonomy of the protocol: a malformed frame, or a command
/// this core does not implement.
#[derive(Debug, PartialEq, Eq, Structural)]
pub enum RespError {
    Frame,
    UnsupportedCommand,
}

impl View for BulkString {
    type V = Seq<char>;

    open spec fn view(&self) -> Seq<char> {
        self.0@
    }
}

impl View for SimpleString {
    type V = Seq<char>;

    open spec fn view(&self) -> Seq<char> {
        self.0@
    }
}

/// The character sequences held by a sequence of bulk strings.
pub open spec fn bulk_views(s: Seq<BulkString>) -> Seq<Seq<char>> {
    Seq::new(s.len(), |i: int| s[i]@)
}

impl View for Array {
    type V = Seq<Seq<char>>;

    open spec fn view(&self) -> Seq<Seq<char>> {
        bulk_views(self.contents@)
    }
}

impl View for Payload {
    type V = PayloadV;

    open spec fn view(&self) -> PayloadV {
        match self {
            Payload::Array(a) => PayloadV::Array(a@),
            Payload::Simple(s) => PayloadV::Simple(s@),
            Payload::Bulk(b) => PayloadV::Bulk(b@),
            Payload::Null => PayloadV::Null,
        }
    }
}

impl Array {
    pub fn new(contents: Vec<BulkString>) -> (r: Self)
        ensures
            r@ == bulk_views(contents@),
    {
        Self { contents }
    }
}

impl PartialEq for BulkString {
    fn eq(&self, other: &BulkString) -> (r: bool) {
        self.0 == other.0
    }
}

impl vstd::std_specs::cmp::PartialEqSpecImpl for BulkString {
    open spec fn obeys_eq_spec() -> bool {
        true
    }

    open spec fn eq_spec(&self, other: &BulkString) -> bool {
        self@ == other@
    }
}

impl PartialEq for SimpleString {
    fn eq(&self, other: &SimpleString) -> (r: bool) {
        self.0 == other.0
    }
}

impl vstd::std_specs::cmp::PartialEqSpecImpl for SimpleString {
    open spec fn obeys_eq_spec() -> bool {
        true
    }

    open spec fn eq_spec(&self, other: &SimpleString) -> bool {
        self@ == other@
    }
}

impl PartialEq for Array {
    fn eq(&self, other: &Array) -> (r: bool) {
        if self.contents.len() != other.contents.len() {
            proof {
                assert(self@.len() != other@.len());
            }
            return false;
        }
        let n = self.contents.len();
        let mut i: usize = 0;
        while i < n
            invariant
                0 <= i <= n,
                n == self.contents@.len() == other.contents@.len(),
                forall|k: int| 0 <= k < i ==> self@[k] == other@[k],
            decreases n - i,
        {
            if !(self.contents[i] == other.contents[i]) {
                proof {
                    assert(self@[i as int] != other@[i as int]);
                }
                return false;
            }
            i = i + 1;
        }
        proof {
            assert(self@ =~= other@);
        }
        true
    }
}

impl vstd::std_specs::cmp::PartialEqSpecImpl for Array {
    open spec fn obeys_eq_spec() -> bool {
        true
    }

    open spec fn eq_spec(&self, other: &Array) -> bool {
        self@ == other@
    }
}

impl PartialEq for Payload {
    fn eq(&self, other: &Payload) -> (r: bool) {
        match (self, other) {
            (Payload::Array(a), Payload::Array(b)) => a == b,
            (Payload::Simple(a), Payload::Simple(b)) => a == b,
            (Payload::Bulk(a), Payload::Bulk(b)) => a == b,
            (Payload::Null, Payload::Null) => true,
            _ => false,
        }
    }
}

impl vstd::std_specs::cmp::PartialEqSpecImpl for Payload {
    open spec fn obeys_eq_spec() -> bool {
        true
    }

    open spec fn eq_spec(&self, other: &Payload) -> bool {
        self@ == other@
    }
}

/// `c` has the Unicode White_Space property: the separators on which a
/// command line splits into words, as `str::split_whitespace` draws the
/// line (tab through carriage return, space, next line, no-break space,
/// ogham space mark, the en-quad..hair-space run, the line and paragraph
/// separators, narrow no-break space, medium mathematical space, and the
/// ideographic space).
pub open spec fn is_ws(c: char) -> bool {
    ||| 9 <= c as int && c as int <= 13
    ||| c as int == 32
    ||| c as int == 0x85
    ||| c as int == 0xa0
    ||| c as int == 0x1680
    ||| 0x2000 <= c as int && c as int <= 0x200a
    ||| c as int == 0x2028
    ||| c as int == 0x2029
    ||| c as int == 0x202f
    ||| c as int == 0x205f
    ||| c as int == 0x3000
}

/// The words of `s`: maximal runs of non-whitespace characters, in order.
pub open spec fn split_ws(s: Seq<char>) -> Seq<Seq<char>>
    decreases s.len(),
{
    if s.len() == 0 {
        Seq::empty()
    } else {
        let rest = split_ws(s.drop_first());
        if is_ws(s[0]) {
            rest
        } else if s.len() >= 2 && !is_ws(s[1]) {
            seq![seq![s[0]] + rest[0]] + rest.drop_first()
        } else {
            seq![seq![s[0]]] + rest
        }
    }
}

/// A maximal word at the front of the input splits off whole.
proof fn lemma_split_ws_word(word: Seq<char>, t: Seq<char>)
    requires
        word.len() >= 1,
        forall|i: int| 0 <= i < word.len() ==> !is_ws(#[trigger] word[i]),
        t.len() == 0 || is_ws(t[0]),
    ensures
        split_ws(word + t) == seq![word] + split_ws(t),
    decreases word.len(),
{
    let s = word + t;
    assert(s[0] == word[0]);
    assert(!is_ws(s[0]));
    if word.len() == 1 {
        assert(s.drop_first() =~= t);
        if t.len() == 0 {
            assert(s.len() == 1);
            assert(seq![s[0]] =~= word);
            assert(split_ws(s) =~= seq![word] + split_ws(t));
        } else {
            assert(s[1] == t[0]);
            assert(is_ws(s[1]));
            assert(seq![s[0]] =~= word);
            assert(split_ws(s) =~= seq![word] + split_ws(t));
        }
    } else {
        assert(s[1] == word[1]);
        assert(!is_ws(s[1]));
        assert(s.drop_first() =~= word.drop_first() + t);
        assert(word.drop_first().len() >= 1);
        assert(forall|i: int|
            0 <= i < word.drop_first().len() ==> !is_ws(#[trigger] word.drop_first()[i]));
        lemma_split_ws_word(word.drop_first(), t);
        let rest = split_ws(s.drop_first());
        assert(rest == seq![word.drop_first()] + split_ws(t));
        assert(rest[0] == word.drop_first());
        assert(rest.drop_first() =~= split_ws(t));
        assert(seq![s[0]] + rest[0] =~= word);
        assert(split_ws(s) == seq![seq![s[0]] + rest[0]] + rest.drop_first());
        assert(split_ws(s) =~= seq![word] + split_ws(t));
    }
}

fn is_ws_exec(c: char) -> (r: bool)
    ensures
        r == is_ws(c),
{
    let x = c as u32;
    (9 <= x && x <= 13) || x == 32 || x == 0x85 || x == 0xa0 || x == 0x1680 || (0x2000 <= x && x
        <= 0x200a) || x == 0x2028 || x == 0x2029 || x == 0x202f || x == 0x205f || x == 0x3000
}

/// Split a command line into its whitespace-separated words.
fn split_words(s: &str) -> (v: Vec<BulkString>)
    ensures
        bulk_views(v@) == split_ws(s@),
{
    let len = s.unicode_len();
    let mut out: Vec<BulkString> = Vec::new();
    let mut i: usize = 0;
    proof {
        assert(bulk_views(out@) =~= Seq::<Seq<char>>::empty());
        assert(s@.skip(0) =~= s@);
        assert(Seq::<Seq<char>>::empty() + split_ws(s@) =~= split_ws(s@));
    }
    while i < len
        invariant
            0 <= i <= len,
            len == s@.len(),
            split_ws(s@) == bulk_views(out@) + split_ws(s@.skip(i as int)),
        decreases len - i,
    {
        let c = s.get_char(i);
        if is_ws_exec(c) {
            proof {
                assert(s@.skip(i as int)[0] == s@[i as int]);
                assert(s@.skip(i as int).drop_first() =~= s@.skip(i as int + 1));
            }
            i = i + 1;
        } else {
            let start: usize = i;
            let mut j: usize = i + 1;
            while j < len && !is_ws_exec(s.get_char(j))
                invariant
                    start < j <= len,
                    len == s@.len(),
                    start == i,
                    forall|k: int| start <= k < j ==> !is_ws(#[trigger] s@[k]),
                decreases len - j,
            {
                j = j + 1;
            }
            let word = s.substring_char(start, j).to_owned();
            proof {
                let wordv = s@.subrange(start as int, j as int);
                let tail = s@.skip(j as int);
                assert(!is_ws(s@[start as int]));
                assert(forall|k: int| 0 <= k < wordv.len() ==> !is_ws(#[trigger] wordv[k]));
                assert(tail.len() == 0 || is_ws(tail[0])) by {
                    if j < len {
                        assert(tail[0] == s@[j as int]);
                    }
                }
                assert(s@.skip(start as int) =~= wordv + tail);
                lemma_split_ws_word(wordv, tail);
                assert(bulk_views(out@.push(BulkString(word))) =~= bulk_views(out@).push(wordv));
                assert(bulk_views(out@) + (seq![wordv] + split_ws(tail)) =~= bulk_views(out@).push(
                    wordv,
                ) + split_ws(tail));
            }
            out.push(BulkString(word));
            i = j;
        }
    }
    proof {
        assert(s@.skip(len as int) =~= Seq::<char>::empty());
        assert(split_ws(Seq::<char>::empty()) =~= Seq::<Seq<char>>::empty());
        assert(bulk_views(out@) + Seq::<Seq<char>>::empty() =~= bulk_views(out@));
    }
    out
}

/// The frame terminator.
pub open spec fn crlf() -> Seq<char> {
    seq!['\r', '\n']
}

/// The wire form of one bulk string: `$<len>\r\n<chars>\r\n`.
pub open spec fn encode_bulk(s: Seq<char>) -> Seq<char> {
    seq!['$'] + dec_digits(s.len()) + crlf() + s + crlf()
}

/// The concatenated wire forms of a sequence of bulk strings.
pub open spec fn encode_bulks(elems: Seq<Seq<char>>) -> Seq<char>
    decreases elems.len(),
{
    if elems.len() == 0 {
        Seq::empty()
    } else {
        encode_bulk(elems[0]) + encode_bulks(elems.drop_first())
    }
}

/// The wire form of an array: `*<n>\r\n` followed by each element as a
/// bulk string, in order.
pub open spec fn encode_array(elems: Seq<Seq<char>>) -> Seq<char> {
    seq!['*'] + dec_digits(elems.len()) + crlf() + encode_bulks(elems)
}

/// The wire form of any payload. Null is the canonical `$-1\r\n` reply.
pub open spec fn encode_payload(p: PayloadV) -> Seq<char> {
    match p {
        PayloadV::Array(elems) => encode_array(elems),
        PayloadV::Simple(s) => seq!['+'] + s + crlf(),
        PayloadV::Bulk(s) => encode_bulk(s),
        PayloadV::Null => seq!['$', '-', '1', '\r', '\n'],
    }
}

proof fn lemma_encode_bulks_push(elems: Seq<Seq<char>>, w: Seq<char>)
    ensures
        encode_bulks(elems.push(w)) == encode_bulks(elems) + encode_bulk(w),
    decreases elems.len(),
{
    let p = elems.push(w);
    if elems.len() == 0 {
        assert(p[0] == w);
        assert(p.drop_first() =~= Seq::<Seq<char>>::empty());
        assert(encode_bulks(p.drop_first()) == Seq::<char>::empty());
        assert(encode_bulks(p) == encode_bulk(w) + Seq::<char>::empty());
        assert(encode_bulks(elems) == Seq::<char>::empty());
        assert(encode_bulks(p) =~= encode_bulks(elems) + encode_bulk(w));
    } else {
        assert(p[0] == elems[0]);
        assert(p.drop_first() =~= elems.drop_first().push(w));
        lemma_encode_bulks_push(elems.drop_first(), w);
        assert(encode_bulks(p) == encode_bulk(elems[0]) + (encode_bulks(elems.drop_first())
            + encode_bulk(w)));
        assert(encode_bulks(elems) == encode_bulk(elems[0]) + encode_bulks(elems.drop_first()));
        assert(encode_bulks(p) =~= encode_bulks(elems) + encode_bulk(w));
    }
}

/// The wire form of one bulk string.
fn bulk_wire(b: &BulkString) -> (r: String)
    ensures
        r@ == encode_bulk(b@),
{
    let len = b.0.as_str().unicode_len();
    let mut r = String::from_str("$");
    r.append(to_dec(len as u64).as_str());
    r.append("\r\n");
    r.append(b.0.as_str());
    r.append("\r\n");
    proof {
        reveal_strlit("$");
        reveal_strlit("\r\n");
        assert(r@ =~= encode_bulk(b@));
    }
    r
}

impl Payload {
    /// The full wire text of this payload.
    pub fn to_string(&self) -> (r: String)
        ensures
            r@ == encode_payload(self@),
    {
        match self {
            Payload::Array(arr) => {
                let n = arr.contents.len();
                let mut r = String::from_str("*");
                r.append(to_dec(n as u64).as_str());
                r.append("\r\n");
                proof {
                    reveal_strlit("*");
                    reveal_strlit("\r\n");
                    assert(arr@.take(0) =~= Seq::<Seq<char>>::empty());
                    assert(r@ =~= seq!['*'] + dec_digits(arr@.len()) + crlf() + encode_bulks(
                        arr@.take(0),
                    ));
                }
                let mut i: usize = 0;
                while i < n
                    invariant
                        0 <= i <= n,
                        n == arr.contents@.len(),
                        r@ == seq!['*'] + dec_digits(arr@.len()) + crlf() + encode_bulks(
                            arr@.take(i as int),
                        ),
                    decreases n - i,
                {
                    let piece = bulk_wire(&arr.contents[i]);
                    r.append(piece.as_str());
                    proof {
                        assert(arr@.take(i as int + 1) =~= arr@.take(i as int).push(
                            arr@[i as int],
                        ));
                        lemma_encode_bulks_push(arr@.take(i as int), arr@[i as int]);
                        assert(r@ =~= seq!['*'] + dec_digits(arr@.len()) + crlf() + encode_bulks(
                            arr@.take(i as int + 1),
                        ));
                    }
                    i = i + 1;
                }
                proof {
                    assert(arr@.take(n as int) =~= arr@);
                }
                r
            },
            Payload::Simple(s) => {
                let mut r = String::from_str("+");
                r.append(s.0.as_str());
                r.append("\r\n");
                proof {
                    reveal_strlit("+");
                    reveal_strlit("\r\n");
                    assert(r@ =~= seq!['+'] + s@ + crlf());
                }
                r
            },
            Payload::Bulk(b) => bulk_wire(b),
            Payload::Null => {
                let r = String::from_str("$-1\r\n");
                proof {
                    reveal_strlit("$-1\r\n");
                    assert(r@ =~= seq!['$', '-', '1', '\r', '\n']);
                }
                r
            },
        }
    }

    /// Build an array payload from a whitespace-separated command line.
    pub fn from_str(s: &str) -> (r: Payload)
        ensures
            r@ == PayloadV::Array(split_ws(s@)),
    {
        Payload::Array(Array::new(split_words(s)))
    }

    /// The wire bytes of this payload: the UTF-8 encoding of its wire text.
    pub fn serialize(&self) -> (r: Vec<u8>)
        ensures
            r@ == vstd::utf8::encode_utf8(encode_payload(self@)),
    {
        let s = self.to_string();
        s.as_str().as_bytes_vec()
    }
}

} // verus!
