//! Segment files: a segment of generation `g` is the file `<g>.log`, with
//! `g` in decimal.
use crate::record::{matches_at, string_from_utf8};
use vstd::prelude::*;
use vstd::utf8::*;

verus! {

pub open spec fn is_digit(b: u8) -> bool {
    0x30 <= b <= 0x39
}

/// The number that decimal digits stand for.
pub open spec fn decimal_value(s: Seq<u8>) -> nat
    decreases s.len(),
{
    if s.len() == 0 {
        0
    } else {
        decimal_value(s.drop_last()) * 10 + (s.last() - 0x30) as nat
    }
}

/// `.log`
pub open spec fn log_suffix() -> Seq<u8> {
    seq![0x2eu8, 0x6cu8, 0x6fu8, 0x67u8]
}

/// The name is one or more decimal digits followed by `.log`.
pub open spec fn is_segment_name(b: Seq<u8>) -> bool {
    &&& b.len() > 4
    &&& b.subrange(b.len() - 4, b.len() as int) == log_suffix()
    &&& forall|i: int| 0 <= i < b.len() - 4 ==> is_digit(#[trigger] b[i])
}

/// The generation that a file name names, if it is the segment file name
/// of that generation: digits without leading zeros, then `.log`.
pub open spec fn segment_gen_spec(b: Seq<u8>) -> Option<u64> {
    if is_segment_name(b) && decimal_value(b.subrange(0, b.len() - 4)) <= u64::MAX
        && segment_name_bytes(decimal_value(b.subrange(0, b.len() - 4)) as u64) == b {
        Some(decimal_value(b.subrange(0, b.len() - 4)) as u64)
    } else {
        None
    }
}

proof fn lemma_decimal_prefix(s: Seq<u8>, i: int)
    requires
        0 <= i <= s.len(),
    ensures
        decimal_value(s.take(i)) <= decimal_value(s),
    decreases s.len(),
{
    if i < s.len() {
        lemma_decimal_prefix(s.drop_last(), i);
        assert(s.drop_last().take(i) =~= s.take(i));
    } else {
        assert(s.take(i) =~= s);
    }
}

/// The generation of a segment file's name; `None` for any other name: a
/// number past `u64::MAX`, or one written with leading zeros.
pub fn segment_gen(name: &str) -> (r: Option<u64>)
    ensures
        r == segment_gen_spec(encode_utf8(name@)),
{
    let b = name.as_bytes();
    let n = b.len();
    if n <= 4 || b[n - 4] != 0x2e || b[n - 3] != 0x6c || b[n - 2] != 0x6f || b[n - 1] != 0x67 {
        proof {
            if n > 4 {
                let t = b@.subrange(n - 4, n as int);
                assert(t[0] == b@[n - 4] && t[1] == b@[n - 3] && t[2] == b@[n - 2] && t[3]
                    == b@[n - 1]);
            }
        }
        return None;
    }
    assert(b@.subrange(n - 4, n as int) =~= log_suffix());
    let ghost stem = b@.subrange(0, n - 4);
    let mut v: u64 = 0;
    let mut i: usize = 0;
    while i < n - 4
        invariant
            b@ == encode_utf8(name@),
            b@.subrange(n - 4, n as int) == log_suffix(),
            n == b@.len(),
            n > 4,
            i <= n - 4,
            stem == b@.subrange(0, n - 4),
            forall|j: int| 0 <= j < i ==> is_digit(#[trigger] b@[j]),
            v as nat == decimal_value(stem.take(i as int)),
        decreases n - 4 - i,
    {
        let d = b[i];
        if d < 0x30 || d > 0x39 {
            assert(!is_digit(b@[i as int]));
            return None;
        }
        let dv = (d - 0x30) as u64;
        assert(stem.take(i + 1).drop_last() =~= stem.take(i as int));
        assert(stem.take(i + 1).last() == d);
        assert(decimal_value(stem.take(i + 1)) == v * 10 + dv);
        if v > (u64::MAX - dv) / 10 {
            proof {
                lemma_decimal_prefix(stem, i + 1);
                assert(v * 10 + dv > u64::MAX) by (nonlinear_arith)
                    requires
                        v > (u64::MAX - dv) / 10,
                        dv <= 9,
                ;
            }
            return None;
        }
        v = v * 10 + dv;
        i = i + 1;
    }
    assert(stem.take(i as int) =~= stem);
    let expected = name_bytes(v);
    if expected.len() != n || !matches_at(b, 0, expected.as_slice()) {
        proof {
            if segment_name_bytes(v) == b@ {
                assert(b@.subrange(0, n as int) =~= b@);
            }
        }
        return None;
    }
    assert(b@.subrange(0, n as int) =~= b@);
    Some(v)
}

/// Inserts `g` into the ascending `v`, unless it is there already.
fn insert_sorted(v: &mut Vec<u64>, g: u64)
    requires
        forall|i: int, j: int| 0 <= i < j < old(v)@.len() ==> old(v)@[i] < old(v)@[j],
    ensures
        forall|i: int, j: int| 0 <= i < j < final(v)@.len() ==> final(v)@[i] < final(v)@[j],
        final(v)@.to_set() == old(v)@.to_set().insert(g),
{
    let mut i: usize = 0;
    while i < v.len() && v[i] < g
        invariant
            i <= v@.len(),
            forall|j: int| 0 <= j < i ==> v@[j] < g,
        decreases v@.len() - i,
    {
        i = i + 1;
    }
    if i < v.len() && v[i] == g {
        assert(v@.to_set().insert(g) =~= v@.to_set());
        return;
    }
    let ghost before = v@;
    v.insert(i, g);
    proof {
        assert forall|a: int, b: int| 0 <= a < b < v@.len() implies v@[a] < v@[b] by {
            if b == i as int {
            } else if a == i as int {
                assert(before[b - 1] >= g);
                if b - 1 > i as int {
                    assert(before[i as int] < before[b - 1]);
                }
            }
        }
        assert forall|x: u64| v@.to_set().contains(x) <==> before.to_set().insert(g).contains(x) by {
            if before.to_set().contains(x) && x != g {
                let k = choose|k: int| 0 <= k < before.len() && before[k] == x;
                if k < i {
                    assert(v@[k] == x);
                } else {
                    assert(v@[k + 1] == x);
                }
            }
            if x == g {
                assert(v@[i as int] == g);
            }
            if v@.to_set().contains(x) {
                let k = choose|k: int| 0 <= k < v@.len() && v@[k] == x;
                if k < i {
                    assert(before[k] == x);
                } else if k > i {
                    assert(before[k - 1] == x);
                }
            }
        }
        assert(v@.to_set() =~= before.to_set().insert(g));
    }
}

/// The generations that the file names name, ascending, each once; names
/// of other files are passed over.
pub fn generations(names: &Vec<String>) -> (r: Vec<u64>)
    ensures
        forall|i: int, j: int| 0 <= i < j < r@.len() ==> r@[i] < r@[j],
        forall|g: u64|
            r@.contains(g) <==> exists|k: int|
                0 <= k < names@.len() && segment_gen_spec(encode_utf8(names@[k]@))
                    == Some(g),
{
    let mut r: Vec<u64> = Vec::new();
    let mut k: usize = 0;
    while k < names.len()
        invariant
            k <= names@.len(),
            forall|i: int, j: int| 0 <= i < j < r@.len() ==> r@[i] < r@[j],
            forall|g: u64|
                r@.to_set().contains(g) <==> exists|m: int|
                    0 <= m < k && segment_gen_spec(encode_utf8(names@[m]@)) == Some(g),
        decreases names@.len() - k,
    {
        let ghost before = r@.to_set();
        match segment_gen(names[k].as_str()) {
            Some(g) => insert_sorted(&mut r, g),
            None => {},
        }
        proof {
            assert forall|g: u64|
                r@.to_set().contains(g) <==> exists|m: int|
                    0 <= m < k + 1 && segment_gen_spec(encode_utf8(names@[m]@))
                        == Some(g) by {
                if before.contains(g) {
                    let m = choose|m: int|
                        0 <= m < k && segment_gen_spec(encode_utf8(names@[m]@))
                            == Some(g);
                    assert(0 <= m < k + 1);
                }
                if exists|m: int|
                    0 <= m < k + 1 && segment_gen_spec(encode_utf8(names@[m]@))
                        == Some(g) {
                    let m = choose|m: int|
                        0 <= m < k + 1 && segment_gen_spec(encode_utf8(names@[m]@))
                            == Some(g);
                    if m < k {
                        assert(before.contains(g));
                    }
                }
            }
        }
        k = k + 1;
    }
    proof {
        assert forall|g: u64| r@.contains(g) <==> r@.to_set().contains(g) by {}
    }
    r
}

/// The generation of the active segment when a store opens with the
/// ascending generations `ids`: one past the last, or 1 where there are
/// none; `None` where the last is `u64::MAX`.
pub fn next_generation(ids: &Vec<u64>) -> (r: Option<u64>)
    ensures
        ids@.len() == 0 ==> r == Some(1u64),
        ids@.len() > 0 ==> r == (if ids@.last() == u64::MAX {
            None
        } else {
            Some((ids@.last() + 1) as u64)
        }),
{
    if ids.len() == 0 {
        Some(1)
    } else {
        let last = ids[ids.len() - 1];
        if last == u64::MAX {
            None
        } else {
            Some(last + 1)
        }
    }
}

/// The decimal digits of `n`, without leading zeros.
pub open spec fn decimal_digits(n: nat) -> Seq<u8>
    decreases n,
{
    if n < 10 {
        seq![(0x30 + n) as u8]
    } else {
        decimal_digits(n / 10) + seq![(0x30 + n % 10) as u8]
    }
}

/// The name of the segment file of generation `gen`.
pub open spec fn segment_name_bytes(gen: u64) -> Seq<u8> {
    decimal_digits(gen as nat) + log_suffix()
}

proof fn lemma_decimal_digits(n: nat)
    ensures
        decimal_digits(n).len() > 0,
        forall|i: int|
            0 <= i < decimal_digits(n).len() ==> is_digit(#[trigger] decimal_digits(n)[i]),
        decimal_value(decimal_digits(n)) == n,
    decreases n,
{
    let d = decimal_digits(n);
    if n >= 10 {
        lemma_decimal_digits(n / 10);
        assert(d.drop_last() =~= decimal_digits(n / 10));
        assert(forall|i: int| 0 <= i < d.len() - 1 ==> d[i] == decimal_digits(n / 10)[i]);
        assert(d.last() == (0x30 + n % 10) as u8);
        assert((d.last() - 0x30) as nat == n % 10);
        assert((n / 10) * 10 + n % 10 == n);
    } else {
        assert(d.drop_last() =~= Seq::<u8>::empty());
        assert(d.last() == (0x30 + n) as u8);
        assert(decimal_value(Seq::<u8>::empty()) == 0);
    }
}

/// Bytes below `0x80` are UTF-8.
proof fn lemma_ascii_valid(b: Seq<u8>)
    requires
        forall|i: int| 0 <= i < b.len() ==> b[i] < 0x80,
    ensures
        valid_utf8(b),
    decreases b.len(),
{
    if b.len() > 0 {
        assert(is_leading_byte_width_1(b[0]));
        assert(pop_first_scalar(b) =~= b.drop_first());
        lemma_ascii_valid(b.drop_first());
    }
}

fn name_bytes(gen: u64) -> (r: Vec<u8>)
    ensures
        r@ == segment_name_bytes(gen),
{
    let mut b: Vec<u8> = Vec::new();
    push_decimal(&mut b, gen);
    b.push(0x2e);
    b.push(0x6c);
    b.push(0x6f);
    b.push(0x67);
    assert(b@ =~= segment_name_bytes(gen));
    b
}

fn push_decimal(out: &mut Vec<u8>, n: u64)
    ensures
        final(out)@ == old(out)@ + decimal_digits(n as nat),
    decreases n,
{
    if n >= 10 {
        push_decimal(out, n / 10);
    }
    out.push(0x30 + (n % 10) as u8);
    assert(final(out)@ =~= old(out)@ + decimal_digits(n as nat));
}

/// The file name of the segment of generation `gen`: `<gen>.log`.
pub fn segment_file_name(gen: u64) -> (r: String)
    ensures
        encode_utf8(r@) == segment_name_bytes(gen),
{
    let b = name_bytes(gen);
    let ghost bytes = b@;
    proof {
        lemma_decimal_digits(gen as nat);
        assert(b@ =~= segment_name_bytes(gen));
        assert forall|i: int| 0 <= i < b@.len() implies b@[i] < 0x80 by {
            if i < decimal_digits(gen as nat).len() {
                assert(is_digit(decimal_digits(gen as nat)[i]));
            }
        }
        lemma_ascii_valid(b@);
    }
    match string_from_utf8(b) {
        Some(s) => {
            proof {
                decode_utf8_encode_utf8(bytes);
            }
            s
        },
        None => {
            assert(false);
            String::new()
        },
    }
}

/// The name of a generation's file reads back as that generation, so the
/// segments that a store creates are the ones it lists when it opens again.
pub proof fn law_name_round_trip(gen: u64)
    ensures
        segment_gen_spec(segment_name_bytes(gen)) == Some(gen),
{
    let b = segment_name_bytes(gen);
    let d = decimal_digits(gen as nat);
    lemma_decimal_digits(gen as nat);
    assert(b.subrange(b.len() - 4, b.len() as int) =~= log_suffix());
    assert(b.subrange(0, b.len() - 4) =~= d);
    assert forall|i: int| 0 <= i < b.len() - 4 implies is_digit(#[trigger] b[i]) by {
        assert(b[i] == d[i]);
    }
}

/// A file name names a generation exactly when it is that generation's
/// file name: other spellings of the number, such as `007.log`, name none.
pub proof fn law_name_canonical(b: Seq<u8>, gen: u64)
    ensures
        segment_gen_spec(b) == Some(gen) <==> b == segment_name_bytes(gen),
{
    law_name_round_trip(gen);
}

} // verus!
