//! The record format of a log segment.
//!
//! A record is one JSON object
//! `{"command_type":D,"key":"K","value":"V"}` with `D` the digit `0` (set)
//! or `1` (remove) and `K`, `V` the UTF-8 bytes of key and value in JSON
//! string form. Records are concatenated without separators; the decoder
//! reads one record and reports where it ends. The decoder reads exactly
//! the form that the encoder writes (this field order, no white space, the
//! escapes `\"`, `\\` and `\u00XX`), so each record has one spelling and a
//! replay stops at the first bytes that are not such a record.
use crate::error::KvsError;
use vstd::prelude::*;
use vstd::utf8::*;

verus! {

broadcast use {
    vstd::utf8::encode_utf8_decode_utf8,
    vstd::utf8::encode_utf8_valid_utf8,
    vstd::utf8::decode_utf8_encode_utf8,
};

pub const QUOTE: u8 = 0x22;

pub const BACKSLASH: u8 = 0x5c;

/// The lower-case hexadecimal digit of `d < 16`.
pub open spec fn hex_digit(d: u8) -> u8 {
    if d < 10 {
        (0x30 + d) as u8
    } else {
        (0x57 + d) as u8
    }
}

pub open spec fn is_hex_digit(c: u8) -> bool {
    (0x30 <= c <= 0x39) || (0x61 <= c <= 0x66)
}

pub open spec fn hex_value(c: u8) -> u8 {
    if c <= 0x39 {
        (c - 0x30) as u8
    } else {
        (c - 0x57) as u8
    }
}

/// The JSON string form of one byte: `"` and `\` get a backslash, control
/// bytes become `\u00XX`, every other byte stands for itself.
pub open spec fn escape_byte(b: u8) -> Seq<u8> {
    if b == QUOTE {
        seq![BACKSLASH, QUOTE]
    } else if b == BACKSLASH {
        seq![BACKSLASH, BACKSLASH]
    } else if b < 0x20 {
        seq![BACKSLASH, 0x75u8, 0x30u8, 0x30u8, hex_digit(b / 16), hex_digit(b % 16)]
    } else {
        seq![b]
    }
}

/// The JSON string body of a byte string (without the enclosing quotes).
pub open spec fn escape(s: Seq<u8>) -> Seq<u8>
    decreases s.len(),
{
    if s.len() == 0 {
        Seq::empty()
    } else {
        escape_byte(s[0]) + escape(s.drop_first())
    }
}

pub proof fn lemma_escape_append(a: Seq<u8>, b: Seq<u8>)
    ensures
        escape(a + b) == escape(a) + escape(b),
    decreases a.len(),
{
    if a.len() == 0 {
        assert(a + b =~= b);
    } else {
        assert((a + b).drop_first() =~= a.drop_first() + b);
        lemma_escape_append(a.drop_first(), b);
    }
}

proof fn lemma_escape_push(a: Seq<u8>, x: u8)
    ensures
        escape(a.push(x)) == escape(a) + escape_byte(x),
{
    lemma_escape_append(a, seq![x]);
    assert(a.push(x) =~= a + seq![x]);
    assert(seq![x].drop_first() =~= Seq::<u8>::empty());
    assert(seq![x][0] == x);
    assert(escape(Seq::<u8>::empty()) == Seq::<u8>::empty());
    assert(escape(seq![x]) =~= escape_byte(x) + Seq::<u8>::empty());
}

fn push_hex_digit(out: &mut Vec<u8>, d: u8)
    requires
        d < 16,
    ensures
        final(out)@ == old(out)@.push(hex_digit(d)),
{
    if d < 10 {
        out.push(0x30 + d);
    } else {
        out.push(0x57 + d);
    }
}

/// Appends the JSON string body of `s` to `out`.
pub fn escape_into(out: &mut Vec<u8>, s: &[u8])
    ensures
        final(out)@ == old(out)@ + escape(s@),
{
    let ghost start = out@;
    let mut i: usize = 0;
    while i < s.len()
        invariant
            i <= s@.len(),
            out@ == start + escape(s@.take(i as int)),
        decreases s@.len() - i,
    {
        let b = s[i];
        proof {
            assert(s@.take(i as int + 1) =~= s@.take(i as int).push(b));
            lemma_escape_push(s@.take(i as int), b);
        }
        if b == QUOTE {
            out.push(BACKSLASH);
            out.push(QUOTE);
        } else if b == BACKSLASH {
            out.push(BACKSLASH);
            out.push(BACKSLASH);
        } else if b < 0x20 {
            out.push(BACKSLASH);
            out.push(0x75);
            out.push(0x30);
            out.push(0x30);
            push_hex_digit(out, b / 16);
            push_hex_digit(out, b % 16);
        } else {
            out.push(b);
        }
        assert(out@ == start + escape(s@.take(i as int + 1)));
        i = i + 1;
    }
    assert(s@.take(s@.len() as int) =~= s@);
}

/// Reads one escaped unit of a JSON string body at `i`: the byte it stands
/// for and its width. Only the forms that `escape_byte` writes are read.
pub open spec fn unit_at(b: Seq<u8>, i: int) -> Option<(u8, int)> {
    if i < 0 || i >= b.len() || b[i] == QUOTE {
        None
    } else if b[i] == BACKSLASH {
        if i + 1 < b.len() && (b[i + 1] == QUOTE || b[i + 1] == BACKSLASH) {
            Some((b[i + 1], 2))
        } else if i + 5 < b.len() && b[i + 1] == 0x75 && b[i + 2] == 0x30 && b[i + 3] == 0x30 && (
        b[i + 4] == 0x30 || b[i + 4] == 0x31) && is_hex_digit(b[i + 5]) {
            Some((((b[i + 4] - 0x30) * 16 + hex_value(b[i + 5])) as u8, 6))
        } else {
            None
        }
    } else if b[i] < 0x20 {
        None
    } else {
        Some((b[i], 1))
    }
}

/// Reads a JSON string body starting at `i` up to and including its closing
/// quote: the bytes it stands for and the index just past the quote.
pub open spec fn unescape(b: Seq<u8>, i: int) -> Option<(Seq<u8>, int)>
    decreases b.len() - i,
{
    if i < 0 || i >= b.len() {
        None
    } else if b[i] == QUOTE {
        Some((Seq::empty(), i + 1))
    } else {
        match unit_at(b, i) {
            Some((c, w)) => if w >= 1 {
                match unescape(b, i + w) {
                    Some((r, e)) => Some((seq![c] + r, e)),
                    None => None,
                }
            } else {
                None
            },
            None => None,
        }
    }
}

proof fn lemma_unit_of_escape(b: Seq<u8>, i: int, c: u8)
    requires
        0 <= i,
        i + escape_byte(c).len() <= b.len(),
        b.subrange(i, i + escape_byte(c).len()) == escape_byte(c),
    ensures
        unit_at(b, i) == Some((c, escape_byte(c).len() as int)),
        b[i] != QUOTE,
{
    let e = escape_byte(c);
    assert(forall|j: int| 0 <= j < e.len() ==> b[i + j] == e[j]) by {
        assert forall|j: int| 0 <= j < e.len() implies b[i + j] == e[j] by {
            assert(b.subrange(i, i + e.len())[j] == b[i + j]);
        }
    }
    if c == QUOTE || c == BACKSLASH {
        assert(b[i] == e[0]);
        assert(b[i + 1] == e[1]);
    } else if c < 0x20 {
        assert(b[i] == e[0]);
        assert(b[i + 1] == e[1]);
        assert(b[i + 2] == e[2]);
        assert(b[i + 3] == e[3]);
        assert(b[i + 4] == e[4]);
        assert(b[i + 5] == e[5]);
        let hi = c / 16;
        let lo = c % 16;
        assert(hi < 2 && lo < 16 && hi * 16 + lo == c);
        assert(hex_digit(hi) == 0x30 + hi);
        assert(hex_value(hex_digit(lo)) == lo);
    } else {
        assert(b[i] == e[0]);
    }
}

proof fn lemma_escape_of_unit(b: Seq<u8>, i: int)
    requires
        unit_at(b, i) is Some,
    ensures
        ({
            let (c, w) = unit_at(b, i)->0;
            &&& w == escape_byte(c).len()
            &&& i + w <= b.len()
            &&& b.subrange(i, i + w) == escape_byte(c)
        }),
{
    let (c, w) = unit_at(b, i)->0;
    if b[i] == BACKSLASH {
        if i + 1 < b.len() && (b[i + 1] == QUOTE || b[i + 1] == BACKSLASH) {
            assert(b.subrange(i, i + 2) =~= escape_byte(c));
        } else {
            let h = b[i + 4];
            let l = b[i + 5];
            let hi = (h - 0x30) as u8;
            let lo = hex_value(l);
            assert(hi < 2 && lo < 16);
            assert(c == hi * 16 + lo);
            assert(c / 16 == hi && c % 16 == lo && c < 0x20);
            assert(hex_digit(hex_value(l)) == l);
            assert(hex_digit(c / 16) == h);
            assert(b.subrange(i, i + 6) =~= escape_byte(c));
        }
    } else {
        assert(b.subrange(i, i + 1) =~= escape_byte(c));
    }
}

/// The string body of `s` followed by a quote reads back as `s`.
pub proof fn lemma_unescape_escape(b: Seq<u8>, i: int, s: Seq<u8>)
    requires
        0 <= i,
        i + escape(s).len() < b.len(),
        b.subrange(i, i + escape(s).len()) == escape(s),
        b[i + escape(s).len()] == QUOTE,
    ensures
        unescape(b, i) == Some((s, i + escape(s).len() + 1)),
    decreases s.len(),
{
    if s.len() == 0 {
    } else {
        let e0 = escape_byte(s[0]);
        let rest = escape(s.drop_first());
        assert(escape(s) == e0 + rest);
        assert(b.subrange(i, i + e0.len()) =~= escape(s).subrange(0, e0.len() as int));
        assert(escape(s).subrange(0, e0.len() as int) =~= e0);
        lemma_unit_of_escape(b, i, s[0]);
        assert(b.subrange(i + e0.len(), i + e0.len() + rest.len()) =~= rest) by {
            assert(b.subrange(i + e0.len(), i + e0.len() + rest.len()) =~= escape(s).subrange(
                e0.len() as int,
                escape(s).len() as int,
            ));
        }
        lemma_unescape_escape(b, i + e0.len(), s.drop_first());
        assert(seq![s[0]] + s.drop_first() =~= s);
    }
}

/// What `unescape` reads is exactly a string body and its closing quote.
pub proof fn lemma_escape_unescape(b: Seq<u8>, i: int)
    requires
        unescape(b, i) is Some,
    ensures
        ({
            let (s, e) = unescape(b, i)->0;
            &&& i < e <= b.len()
            &&& b.subrange(i, e) == escape(s) + seq![QUOTE]
        }),
    decreases b.len() - i,
{
    let (s, e) = unescape(b, i)->0;
    if b[i] == QUOTE {
        assert(b.subrange(i, e) =~= seq![QUOTE]);
        assert(escape(s) =~= Seq::<u8>::empty());
    } else {
        let (c, w) = unit_at(b, i)->0;
        lemma_escape_of_unit(b, i);
        lemma_escape_unescape(b, i + w);
        let (r, e2) = unescape(b, i + w)->0;
        assert(s == seq![c] + r);
        assert(s.drop_first() =~= r);
        assert(b.subrange(i, e) =~= b.subrange(i, i + w) + b.subrange(i + w, e));
    }
}

fn hex_value_exec(c: u8) -> (r: u8)
    requires
        is_hex_digit(c),
    ensures
        r == hex_value(c),
        r < 16,
{
    if c <= 0x39 {
        c - 0x30
    } else {
        c - 0x57
    }
}

/// Reads a JSON string body of `b` from `i` up to its closing quote.
pub fn unescape_at(b: &[u8], i: usize) -> (r: Option<(Vec<u8>, usize)>)
    ensures
        unescape(b@, i as int) == match r {
            Some((s, e)) => Some((s@, e as int)),
            None => None::<(Seq<u8>, int)>,
        },
{
    let mut out: Vec<u8> = Vec::new();
    let mut j: usize = i;
    loop
        invariant
            i <= j,
            unescape(b@, i as int) == match unescape(b@, j as int) {
                Some((r, e)) => Some((out@ + r, e)),
                None => None,
            },
        decreases b@.len() - j,
    {
        if j >= b.len() {
            return None;
        }
        let c = b[j];
        if c == QUOTE {
            assert(out@ + Seq::<u8>::empty() =~= out@);
            return Some((out, j + 1));
        }
        let ghost old_out = out@;
        let w: usize;
        if c == BACKSLASH {
            if b.len() - j > 1 && (b[j + 1] == QUOTE || b[j + 1] == BACKSLASH) {
                out.push(b[j + 1]);
                w = 2;
            } else if b.len() - j > 5 && b[j + 1] == 0x75 && b[j + 2] == 0x30 && b[j + 3] == 0x30
                && (b[j + 4] == 0x30 || b[j + 4] == 0x31) && (0x30 <= b[j + 5] && b[j + 5] <= 0x39
                || 0x61 <= b[j + 5] && b[j + 5] <= 0x66) {
                let lo = hex_value_exec(b[j + 5]);
                out.push((b[j + 4] - 0x30) * 16 + lo);
                w = 6;
            } else {
                return None;
            }
        } else if c < 0x20 {
            return None;
        } else {
            out.push(c);
            w = 1;
        }
        proof {
            let (u, uw) = unit_at(b@, j as int)->0;
            assert(uw == w);
            assert(out@ == old_out.push(u));
            match unescape(b@, j + w) {
                Some((r, e)) => {
                    assert(old_out + (seq![u] + r) =~= out@ + r);
                },
                None => {},
            }
        }
        j = j + w;
    }
}

#[derive(PartialEq, Eq, Structural, Clone, Copy, Debug)]
pub enum CommandKind {
    Put,
    Remove,
}

/// `{"command_type":`
pub open spec fn head() -> Seq<u8> {
    seq![
        0x7bu8, 0x22u8, 0x63u8, 0x6fu8, 0x6du8, 0x6du8, 0x61u8, 0x6eu8,
        0x64u8, 0x5fu8, 0x74u8, 0x79u8, 0x70u8, 0x65u8, 0x22u8, 0x3au8,
    ]
}

/// `,"key":"`
pub open spec fn key_open() -> Seq<u8> {
    seq![0x2cu8, 0x22u8, 0x6bu8, 0x65u8, 0x79u8, 0x22u8, 0x3au8, 0x22u8]
}

/// `,"value":"`
pub open spec fn value_open() -> Seq<u8> {
    seq![0x2cu8, 0x22u8, 0x76u8, 0x61u8, 0x6cu8, 0x75u8, 0x65u8, 0x22u8, 0x3au8, 0x22u8]
}

pub const CLOSE_BRACE: u8 = 0x7d;

pub open spec fn kind_digit(k: CommandKind) -> u8 {
    match k {
        CommandKind::Put => 0x30u8,
        CommandKind::Remove => 0x31u8,
    }
}

/// The bytes of one record.
pub open spec fn record_bytes(kind: CommandKind, key: Seq<u8>, value: Seq<u8>) -> Seq<u8> {
    head() + seq![kind_digit(kind)] + key_open() + escape(key) + seq![QUOTE] + value_open()
        + escape(value) + seq![QUOTE, CLOSE_BRACE]
}

/// Reads the record at the start of `b`: its kind, key bytes, value bytes
/// and the index just past it.
pub open spec fn parse_record(b: Seq<u8>) -> Option<(CommandKind, Seq<u8>, Seq<u8>, int)> {
    if b.len() >= 25 && b.subrange(0, 16) == head() && (b[16] == 0x30 || b[16] == 0x31)
        && b.subrange(17, 25) == key_open() {
        let kind = if b[16] == 0x30 {
            CommandKind::Put
        } else {
            CommandKind::Remove
        };
        match unescape(b, 25) {
            Some((key, e1)) => if e1 + 10 <= b.len() && b.subrange(e1, e1 + 10) == value_open() {
                match unescape(b, e1 + 10) {
                    Some((value, e2)) => if e2 < b.len() && b[e2] == CLOSE_BRACE {
                        Some((kind, key, value, e2 + 1))
                    } else {
                        None
                    },
                    None => None,
                }
            } else {
                None
            },
            None => None,
        }
    } else {
        None
    }
}

/// A record followed by anything reads back as itself.
pub proof fn lemma_parse_record_bytes(
    kind: CommandKind,
    key: Seq<u8>,
    value: Seq<u8>,
    rest: Seq<u8>,
)
    ensures
        parse_record(record_bytes(kind, key, value) + rest) == Some(
            (kind, key, value, record_bytes(kind, key, value).len() as int),
        ),
{
    let r = record_bytes(kind, key, value);
    let b = r + rest;
    let ek = escape(key);
    let ev = escape(value);
    let k0: int = 25 + ek.len() as int;
    let v0: int = k0 + 11;
    assert(b.subrange(0, 16) =~= head());
    assert(b[16] == kind_digit(kind));
    assert(b.subrange(17, 25) =~= key_open());
    assert(b.subrange(25, k0) =~= ek);
    assert(b[k0] == QUOTE);
    lemma_unescape_escape(b, 25, key);
    assert(b.subrange(k0 + 1, k0 + 11) =~= value_open());
    assert(b.subrange(v0, v0 + ev.len()) =~= ev);
    assert(b[v0 + ev.len()] == QUOTE);
    lemma_unescape_escape(b, v0, value);
    assert(b[v0 + ev.len() + 1] == CLOSE_BRACE);
}

/// Whatever `parse_record` reads is a record, byte for byte.
pub proof fn lemma_record_bytes_parse(b: Seq<u8>)
    requires
        parse_record(b) is Some,
    ensures
        ({
            let (kind, key, value, n) = parse_record(b)->0;
            &&& 0 < n <= b.len()
            &&& b.subrange(0, n) == record_bytes(kind, key, value)
        }),
{
    let (kind, key, value, n) = parse_record(b)->0;
    lemma_escape_unescape(b, 25);
    let (_k, e1) = unescape(b, 25)->0;
    lemma_escape_unescape(b, e1 + 10);
    let (_v, e2) = unescape(b, e1 + 10)->0;
    assert(b.subrange(0, n) =~= b.subrange(0, 16) + seq![b[16]] + b.subrange(17, 25)
        + b.subrange(25, e1) + b.subrange(e1, e1 + 10) + b.subrange(e1 + 10, e2) + seq![
        b[e2],
    ]);
    assert(b[16] == kind_digit(kind));
    assert(record_bytes(kind, key, value) =~= head() + seq![kind_digit(kind)] + key_open() + (
    escape(key) + seq![QUOTE]) + value_open() + (escape(value) + seq![QUOTE]) + seq![
        CLOSE_BRACE,
    ]);
}

fn push_all(out: &mut Vec<u8>, lit: &[u8])
    ensures
        final(out)@ == old(out)@ + lit@,
{
    let ghost start = out@;
    let mut i: usize = 0;
    while i < lit.len()
        invariant
            i <= lit@.len(),
            out@ == start + lit@.take(i as int),
        decreases lit@.len() - i,
    {
        out.push(lit[i]);
        assert(lit@.take(i as int + 1) =~= lit@.take(i as int).push(lit@[i as int]));
        i = i + 1;
    }
    assert(lit@.take(lit@.len() as int) =~= lit@);
}

/// Whether `lit` stands in `b` at `i`.
pub(crate) fn matches_at(b: &[u8], i: usize, lit: &[u8]) -> (r: bool)
    ensures
        r == (i + lit@.len() <= b@.len() && b@.subrange(i as int, i + lit@.len()) == lit@),
{
    if i > b.len() || b.len() - i < lit.len() {
        return false;
    }
    let mut j: usize = 0;
    while j < lit.len()
        invariant
            j <= lit@.len(),
            i + lit@.len() <= b@.len(),
            b@.len() == b.len(),
            forall|k: int| 0 <= k < j ==> b@[i + k] == lit@[k],
        decreases lit@.len() - j,
    {
        if b[i + j] != lit[j] {
            assert(b@.subrange(i as int, i + lit@.len())[j as int] != lit@[j as int]);
            return false;
        }
        j = j + 1;
    }
    assert(b@.subrange(i as int, i + lit@.len()) =~= lit@);
    true
}

fn head_lit() -> (r: Vec<u8>)
    ensures
        r@ == head(),
{
    let r = vec![
        0x7bu8, 0x22u8, 0x63u8, 0x6fu8, 0x6du8, 0x6du8, 0x61u8, 0x6eu8,
        0x64u8, 0x5fu8, 0x74u8, 0x79u8, 0x70u8, 0x65u8, 0x22u8, 0x3au8,
    ];
    assert(r@ =~= head());
    r
}

fn key_open_lit() -> (r: Vec<u8>)
    ensures
        r@ == key_open(),
{
    let r = vec![0x2cu8, 0x22u8, 0x6bu8, 0x65u8, 0x79u8, 0x22u8, 0x3au8, 0x22u8];
    assert(r@ =~= key_open());
    r
}

fn value_open_lit() -> (r: Vec<u8>)
    ensures
        r@ == value_open(),
{
    let r = vec![0x2cu8, 0x22u8, 0x76u8, 0x61u8, 0x6cu8, 0x75u8, 0x65u8, 0x22u8, 0x3au8, 0x22u8];
    assert(r@ =~= value_open());
    r
}

/// The bytes of the record of a command on text key and value.
pub open spec fn command_bytes(kind: CommandKind, key: Seq<char>, value: Seq<char>) -> Seq<u8> {
    record_bytes(kind, encode_utf8(key), encode_utf8(value))
}

/// Reads the record at the start of `b` as a command on text: `None` where
/// no record stands there or its key or value is not UTF-8.
#[verifier::opaque]
pub open spec fn decode_spec(b: Seq<u8>) -> Option<(CommandKind, Seq<char>, Seq<char>, int)> {
    match parse_record(b) {
        Some((kind, key, value, n)) => if valid_utf8(key) && valid_utf8(value) {
            Some((kind, decode_utf8(key), decode_utf8(value), n))
        } else {
            None
        },
        None => None,
    }
}

/// A command's record, followed by anything, decodes back to the command.
pub proof fn lemma_decode_command_bytes(
    kind: CommandKind,
    key: Seq<char>,
    value: Seq<char>,
    rest: Seq<u8>,
)
    ensures
        decode_spec(command_bytes(kind, key, value) + rest) == Some(
            (kind, key, value, command_bytes(kind, key, value).len() as int),
        ),
{
    reveal(decode_spec);
    lemma_parse_record_bytes(kind, encode_utf8(key), encode_utf8(value), rest);
}

/// What `decode_spec` reads is a command's record, byte for byte.
pub proof fn lemma_command_bytes_decode(b: Seq<u8>)
    requires
        decode_spec(b) is Some,
    ensures
        ({
            let (kind, key, value, n) = decode_spec(b)->0;
            &&& 0 < n <= b.len()
            &&& b.subrange(0, n) == command_bytes(kind, key, value)
        }),
{
    reveal(decode_spec);
    lemma_record_bytes_parse(b);
}

/// Too few bytes hold no record.
pub proof fn lemma_decode_short(b: Seq<u8>)
    requires
        b.len() < 25,
    ensures
        decode_spec(b) is None,
{
    reveal(decode_spec);
}

/// A command of a record: a key and, for a put, a value.
pub struct Command {
    pub kind: CommandKind,
    pub key: String,
    pub value: String,
}

/// The record of a command.
pub fn encode_command(kind: CommandKind, key: &str, value: &str) -> (r: Vec<u8>)
    ensures
        r@ == command_bytes(kind, key@, value@),
{
    let mut out = head_lit();
    match kind {
        CommandKind::Put => out.push(0x30),
        CommandKind::Remove => out.push(0x31),
    }
    push_all(&mut out, key_open_lit().as_slice());
    escape_into(&mut out, key.as_bytes());
    out.push(QUOTE);
    push_all(&mut out, value_open_lit().as_slice());
    escape_into(&mut out, value.as_bytes());
    out.push(QUOTE);
    out.push(CLOSE_BRACE);
    assert(out@ =~= command_bytes(kind, key@, value@));
    out
}

/// Relies on `String::from_utf8`: it succeeds exactly on UTF-8 bytes and
/// the string holds those bytes.
#[verifier::external_body]
pub(crate) fn string_from_utf8(b: Vec<u8>) -> (r: Option<String>)
    ensures
        r is Some <==> valid_utf8(b@),
        r matches Some(s) ==> s@ == decode_utf8(b@),
{
    String::from_utf8(b).ok()
}

proof fn lemma_unescape_shift(b: Seq<u8>, i: int, j: int)
    requires
        0 <= i <= b.len(),
        0 <= j,
    ensures
        unescape(b, i + j) == match unescape(b.subrange(i, b.len() as int), j) {
            Some((s, e)) => Some((s, e + i)),
            None => None,
        },
    decreases b.len() - (i + j),
{
    let t = b.subrange(i, b.len() as int);
    if i + j < b.len() {
        assert(t[j] == b[i + j]);
        if b[i + j] != QUOTE {
            assert(unit_at(b, i + j) == unit_at(t, j)) by {
                if i + j + 1 < b.len() {
                    assert(t[j + 1] == b[i + j + 1]);
                }
                if i + j + 5 < b.len() {
                    assert(t[j + 1] == b[i + j + 1]);
                    assert(t[j + 2] == b[i + j + 2]);
                    assert(t[j + 3] == b[i + j + 3]);
                    assert(t[j + 4] == b[i + j + 4]);
                    assert(t[j + 5] == b[i + j + 5]);
                }
            }
            match unit_at(b, i + j) {
                Some((c, w)) => {
                    if w >= 1 {
                        lemma_unescape_shift(b, i, j + w);
                    }
                },
                None => {},
            }
        }
    }
}

/// Decodes the record that starts at `i` in `b`; on success gives the
/// command and the length of its record.
pub fn decode_command_at(b: &[u8], i: usize) -> (r: Option<(Command, usize)>)
    requires
        i <= b@.len(),
    ensures
        decode_spec(b@.subrange(i as int, b@.len() as int)) == match r {
            Some((c, n)) => Some((c.kind, c.key@, c.value@, n as int)),
            None => None::<(CommandKind, Seq<char>, Seq<char>, int)>,
        },
{
    reveal(decode_spec);
    let ghost t = b@.subrange(i as int, b@.len() as int);
    if b.len() - i < 25 {
        return None;
    }
    assert(t.subrange(0, 16) =~= b@.subrange(i as int, i + 16));
    if !matches_at(b, i, head_lit().as_slice()) {
        return None;
    }
    assert(t[16] == b@[i + 16]);
    let kind = if b[i + 16] == 0x30 {
        CommandKind::Put
    } else if b[i + 16] == 0x31 {
        CommandKind::Remove
    } else {
        return None;
    };
    if !matches_at(b, i + 17, key_open_lit().as_slice()) {
        assert(t.subrange(17, 25) =~= b@.subrange(i + 17, i + 25));
        return None;
    }
    assert(t.subrange(17, 25) =~= b@.subrange(i + 17, i + 25));
    proof {
        lemma_unescape_shift(b@, i as int, 25);
    }
    let (key, e1) = match unescape_at(b, i + 25) {
        Some(x) => x,
        None => return None,
    };
    proof {
        lemma_escape_unescape(b@, i + 25);
    }
    let ghost k1 = e1 - i;
    let value_ok = matches_at(b, e1, value_open_lit().as_slice());
    proof {
        if e1 + 10 <= b@.len() {
            assert(t.subrange(k1, k1 + 10) =~= b@.subrange(e1 as int, e1 + 10));
        }
    }
    if !value_ok {
        return None;
    }
    proof {
        lemma_unescape_shift(b@, i as int, k1 + 10);
    }
    let (value, e2) = match unescape_at(b, e1 + 10) {
        Some(x) => x,
        None => return None,
    };
    proof {
        lemma_escape_unescape(b@, e1 + 10);
    }
    if e2 >= b.len() || b[e2] != CLOSE_BRACE {
        return None;
    }
    assert(t[e2 - i] == b@[e2 as int]);
    let key = match string_from_utf8(key) {
        Some(s) => s,
        None => return None,
    };
    let value = match string_from_utf8(value) {
        Some(s) => s,
        None => return None,
    };
    Some((Command { kind, key, value }, e2 + 1 - i))
}

/// Decodes the record at the start of `b`; on success gives the command
/// and the length of its record.
pub fn decode_command(b: &[u8]) -> (r: Option<(Command, usize)>)
    ensures
        decode_spec(b@) == match r {
            Some((c, n)) => Some((c.kind, c.key@, c.value@, n as int)),
            None => None::<(CommandKind, Seq<char>, Seq<char>, int)>,
        },
{
    assert(b@.subrange(0, b@.len() as int) =~= b@);
    decode_command_at(b, 0)
}

/// The value of the put record of `key` that fills `bytes` exactly; any
/// other bytes give `InvalidRecord`.
pub fn read_value(key: &str, bytes: &[u8]) -> (r: Result<String, KvsError>)
    ensures
        r is Ok <==> {
            &&& decode_spec(bytes@) is Some
            &&& (decode_spec(bytes@)->0).0 == CommandKind::Put
            &&& (decode_spec(bytes@)->0).1 == key@
            &&& (decode_spec(bytes@)->0).3 == bytes@.len()
        },
        r matches Ok(v) ==> v@ == (decode_spec(bytes@)->0).2,
        r matches Err(e) ==> e is InvalidRecord,
{
    let (cmd, n) = match decode_command(bytes) {
        Some(x) => x,
        None => return Err(KvsError::InvalidRecord),
    };
    if n != bytes.len() {
        return Err(KvsError::InvalidRecord);
    }
    match cmd.kind {
        CommandKind::Put => {},
        CommandKind::Remove => return Err(KvsError::InvalidRecord),
    }
    let expected = encode_command(CommandKind::Put, key, cmd.value.as_str());
    proof {
        lemma_command_bytes_decode(bytes@);
        assert(bytes@.subrange(0, n as int) =~= bytes@);
        lemma_decode_command_bytes(CommandKind::Put, key@, cmd.value@, Seq::empty());
        assert(expected@ + Seq::<u8>::empty() =~= expected@);
    }
    if expected.len() != bytes.len() || !matches_at(bytes, 0, expected.as_slice()) {
        proof {
            if key@ == cmd.key@ {
                assert(bytes@.subrange(0, expected@.len() as int) =~= bytes@);
            }
        }
        return Err(KvsError::InvalidRecord);
    }
    assert(bytes@.subrange(0, expected@.len() as int) =~= bytes@);
    Ok(cmd.value)
}

} // verus!
