//! The writer: the one place where the store changes.
//!
//! It owns the index, the number of the active segment, the length of that
//! segment and the stale-byte counter. The caller does the file work: it
//! appends to the active segment the bytes that the writer accepts, and
//! carries out the compactions that the writer plans. A ghost copy of every
//! segment's bytes lets the contracts say what each key reads back as.
use crate::error::KvsError;
use crate::index::{
    index_entries, index_get, index_insert, index_list, index_new, index_remove, CommandPos,
    IndexMap,
};
use crate::record::{
    command_bytes, decode_command_at, decode_spec, encode_command, lemma_command_bytes_decode,
    lemma_decode_short,
    lemma_decode_command_bytes, CommandKind,
};
use vstd::prelude::*;

verus! {

/// Stale bytes beyond which a compaction is due.
pub const COMPACTION_THRESHOLD: u64 = 1024 * 1024;

/// Two positions of one segment cover disjoint byte ranges.
pub open spec fn disjoint_entries(e: Map<Seq<char>, (u64, u64, u64)>) -> bool {
    forall|k1: Seq<char>, k2: Seq<char>|
        #![trigger e[k1], e[k2]]
        e.contains_key(k1) && e.contains_key(k2) && k1 != k2 && e[k1].0 == e[k2].0 ==> e[k1].1
            + e[k1].2 <= e[k2].1 || e[k2].1 + e[k2].2 <= e[k1].1
}

/// Every position in segment `gen` ends at or before `off`.
pub open spec fn ends_before(e: Map<Seq<char>, (u64, u64, u64)>, gen: u64, off: int) -> bool {
    forall|k: Seq<char>| #[trigger]
        e.contains_key(k) && e[k].0 == gen ==> e[k].1 + e[k].2 <= off
}

/// The key-value map after one command.
pub open spec fn apply_command(
    c: Map<Seq<char>, Seq<char>>,
    kind: CommandKind,
    key: Seq<char>,
    value: Seq<char>,
) -> Map<Seq<char>, Seq<char>> {
    match kind {
        CommandKind::Put => c.insert(key, value),
        CommandKind::Remove => c.remove(key),
    }
}

/// The bytes at a position `(gen, offset, len)`.
pub open spec fn slice_at(segs: Map<u64, Seq<u8>>, p: (u64, u64, u64)) -> Seq<u8> {
    segs[p.0].subrange(p.1 as int, p.1 + p.2)
}

/// The position lies in a segment and holds exactly a put record of `key`.
pub open spec fn holds_put(segs: Map<u64, Seq<u8>>, key: Seq<char>, p: (u64, u64, u64)) -> bool {
    &&& segs.contains_key(p.0)
    &&& p.1 + p.2 <= segs[p.0].len()
    &&& decode_spec(slice_at(segs, p)) is Some
    &&& (decode_spec(slice_at(segs, p))->0).0 == CommandKind::Put
    &&& (decode_spec(slice_at(segs, p))->0).1 == key
    &&& (decode_spec(slice_at(segs, p))->0).3 == p.2
}

/// The value of the record at a position.
pub open spec fn value_at(segs: Map<u64, Seq<u8>>, p: (u64, u64, u64)) -> Seq<char> {
    (decode_spec(slice_at(segs, p))->0).2
}

/// The position lies in a segment and holds exactly one record.
pub open spec fn holds_record(segs: Map<u64, Seq<u8>>, p: (u64, u64, u64)) -> bool {
    &&& segs.contains_key(p.0)
    &&& p.1 + p.2 <= segs[p.0].len()
    &&& decode_spec(slice_at(segs, p)) is Some
    &&& (decode_spec(slice_at(segs, p))->0).3 == p.2
}

/// Appending to segment `g` keeps what every position in the old bytes holds.
proof fn lemma_extend_keeps(segs: Map<u64, Seq<u8>>, g: u64, extra: Seq<u8>, p: (u64, u64, u64))
    requires
        segs.contains_key(g),
        segs.contains_key(p.0),
        p.1 + p.2 <= segs[p.0].len(),
    ensures
        ({
            let segs2 = segs.insert(g, segs[g] + extra);
            &&& segs2.contains_key(p.0)
            &&& p.1 + p.2 <= segs2[p.0].len()
            &&& slice_at(segs2, p) == slice_at(segs, p)
        }),
{
    let segs2 = segs.insert(g, segs[g] + extra);
    if p.0 == g {
        assert(slice_at(segs2, p) =~= slice_at(segs, p));
    }
}

/// The key-value map after the records at the start of `b`, applied in
/// order up to the first that does not decode.
pub open spec fn replay_log(c: Map<Seq<char>, Seq<char>>, b: Seq<u8>) -> Map<Seq<char>, Seq<char>>
    decreases b.len(),
{
    match decode_spec(b) {
        Some((kind, key, value, n)) => if 0 < n <= b.len() {
            replay_log(apply_command(c, kind, key, value), b.subrange(n, b.len() as int))
        } else {
            c
        },
        None => c,
    }
}

/// The length of the records at the start of `b` that a replay reads.
pub open spec fn replayed_len(b: Seq<u8>) -> int
    decreases b.len(),
{
    match decode_spec(b) {
        Some((kind, key, value, n)) => if 0 < n <= b.len() {
            n + replayed_len(b.subrange(n, b.len() as int))
        } else {
            0
        },
        None => 0,
    }
}

/// A record that decodes at the start of `b` also decodes on its own.
proof fn lemma_record_alone(b: Seq<u8>)
    requires
        decode_spec(b) is Some,
    ensures
        ({
            let (kind, key, value, n) = decode_spec(b)->0;
            &&& 0 < n <= b.len()
            &&& decode_spec(b.subrange(0, n)) == decode_spec(b)
        }),
{
    let (kind, key, value, n) = decode_spec(b)->0;
    let cb = command_bytes(kind, key, value);
    assert(crate::record::head().len() == 16);
    assert(cb.len() >= 16);
    lemma_command_bytes_decode(b);
    assert(b.subrange(0, n) == cb);
    lemma_decode_command_bytes(kind, key, value, Seq::empty());
    assert(cb + Seq::<u8>::empty() =~= cb);
    assert(decode_spec(cb) == Some((kind, key, value, cb.len() as int)));
}

/// The index and the stale-byte counter after replaying the records of
/// segment `gen` with bytes `b` from offset `off` on.
pub open spec fn replay_index(
    e: Map<Seq<char>, (u64, u64, u64)>,
    u: u64,
    gen: u64,
    b: Seq<u8>,
    off: int,
) -> (Map<Seq<char>, (u64, u64, u64)>, u64)
    decreases b.len() - off,
{
    if off < 0 || off > b.len() {
        (e, u)
    } else {
        match decode_spec(b.subrange(off, b.len() as int)) {
            Some((kind, key, value, n)) => if 0 < n <= b.len() - off {
                let e2 = match kind {
                    CommandKind::Put => e.insert(key, (gen, off as u64, n as u64)),
                    CommandKind::Remove => e.remove(key),
                };
                replay_index(e2, stale_after(u, e, kind, key, n as nat), gen, b, off + n)
            } else {
                (e, u)
            },
            None => (e, u),
        }
    }
}

/// The key-value map after replaying the segments `gens`, in that order.
pub open spec fn replay_segments(
    c: Map<Seq<char>, Seq<char>>,
    segs: Map<u64, Seq<u8>>,
    gens: Seq<u64>,
) -> Map<Seq<char>, Seq<char>>
    decreases gens.len(),
{
    if gens.len() == 0 {
        c
    } else {
        replay_log(replay_segments(c, segs, gens.drop_last()), segs[gens.last()])
    }
}

/// A replay reads only the segments it is given.
proof fn lemma_replay_frame(
    c: Map<Seq<char>, Seq<char>>,
    segs1: Map<u64, Seq<u8>>,
    segs2: Map<u64, Seq<u8>>,
    gens: Seq<u64>,
)
    requires
        forall|i: int| 0 <= i < gens.len() ==> segs1[gens[i]] == segs2[gens[i]],
    ensures
        replay_segments(c, segs1, gens) == replay_segments(c, segs2, gens),
    decreases gens.len(),
{
    if gens.len() > 0 {
        lemma_replay_frame(c, segs1, segs2, gens.drop_last());
        assert(segs1[gens.last()] == segs2[gens[gens.len() - 1]]);
    }
}

/// Replaying a segment of whole records with one more record appended is
/// replaying the segment and then applying that record.
proof fn lemma_replay_append(c: Map<Seq<char>, Seq<char>>, a: Seq<u8>, rec: Seq<u8>)
    requires
        replayed_len(a) == a.len(),
        decode_spec(rec) is Some,
        (decode_spec(rec)->0).3 == rec.len(),
    ensures
        ({
            let (kind, key, value, n) = decode_spec(rec)->0;
            &&& replay_log(c, a + rec) == apply_command(replay_log(c, a), kind, key, value)
            &&& replayed_len(a + rec) == (a + rec).len()
        }),
    decreases a.len(),
{
    let (kind, key, value, n) = decode_spec(rec)->0;
    lemma_record_alone(rec);
    lemma_command_bytes_decode(rec);
    lemma_decode_short(Seq::<u8>::empty());
    let e = Seq::<u8>::empty();
    assert(rec.subrange(n, rec.len() as int) =~= e);
    assert(replay_log(apply_command(c, kind, key, value), e) == apply_command(c, kind, key, value));
    assert(replayed_len(e) == 0);
    if a.len() == 0 {
        assert(a + rec =~= rec);
        assert(replay_log(c, a) == c);
        assert(replay_log(c, rec) == replay_log(apply_command(c, kind, key, value), e));
        assert(replayed_len(rec) == n + replayed_len(e));
    } else {
        if decode_spec(a) is None {
            assert(replayed_len(a) == 0);
            assert(false);
        }
        let (k2, key2, value2, n2) = decode_spec(a)->0;
        lemma_record_alone(a);
        lemma_command_bytes_decode(a);
        let tail = a.subrange(n2, a.len() as int);
        lemma_decode_command_bytes(k2, key2, value2, tail + rec);
        assert(a.subrange(0, n2) + tail =~= a);
        assert(a + rec =~= command_bytes(k2, key2, value2) + (tail + rec));
        assert(command_bytes(k2, key2, value2).len() == n2);
        assert(decode_spec(a + rec) == Some((k2, key2, value2, n2)));
        assert((a + rec).subrange(n2, (a + rec).len() as int) =~= tail + rec);
        let c2 = apply_command(c, k2, key2, value2);
        assert(replay_log(c, a) == replay_log(c2, tail));
        assert(replayed_len(a) == n2 + replayed_len(tail));
        lemma_replay_append(c2, tail, rec);
        assert(replay_log(c, a + rec) == replay_log(c2, tail + rec));
        assert(replayed_len(a + rec) == n2 + replayed_len(tail + rec));
    }
}

/// Replaying live records of distinct keys, one after another, rebuilds
/// those keys with their values.
proof fn lemma_replay_copies(
    segs: Map<u64, Seq<u8>>,
    copies: Seq<CommandPos>,
    keys: Seq<Seq<char>>,
    i: int,
)
    requires
        0 <= i <= copies.len(),
        keys.len() == copies.len(),
        forall|j: int| 0 <= j < copies.len() ==> holds_put(segs, keys[j], copies[j]@),
        forall|j: int, l: int| 0 <= j < l < keys.len() ==> keys[j] != keys[l],
    ensures
        replayed_len(concat_slices(segs, copies.take(i))) == concat_slices(
            segs,
            copies.take(i),
        ).len(),
        forall|k: Seq<char>|
            replay_log(Map::empty(), concat_slices(segs, copies.take(i))).contains_key(k)
                <==> exists|j: int| 0 <= j < i && keys[j] == k,
        forall|j: int|
            0 <= j < i ==> replay_log(Map::empty(), concat_slices(segs, copies.take(i)))[keys[j]]
                == value_at(segs, copies[j]@),
    decreases i,
{
    let m = concat_slices(segs, copies.take(i));
    if i == 0 {
        assert(copies.take(0) =~= Seq::<CommandPos>::empty());
        lemma_decode_short(Seq::<u8>::empty());
        assert(m =~= Seq::<u8>::empty());
        assert(replay_log(Map::empty(), m) =~= Map::<Seq<char>, Seq<char>>::empty());
    } else {
        lemma_replay_copies(segs, copies, keys, i - 1);
        let prev = concat_slices(segs, copies.take(i - 1));
        assert(copies.take(i).drop_last() =~= copies.take(i - 1));
        let p = copies[i - 1]@;
        let rec = slice_at(segs, p);
        assert(m == prev + rec);
        assert(holds_put(segs, keys[i - 1], p));
        assert(rec.len() == p.2);
        lemma_replay_append(Map::empty(), prev, rec);
        let before = replay_log(Map::empty(), prev);
        assert(replay_log(Map::empty(), m) == before.insert(keys[i - 1], value_at(segs, p)));
        assert forall|k: Seq<char>|
            replay_log(Map::empty(), m).contains_key(k) <==> exists|j: int|
                0 <= j < i && keys[j] == k by {
            if k == keys[i - 1] {
                assert(0 <= i - 1 < i && keys[i - 1] == k);
            } else if before.contains_key(k) {
                let j = choose|j: int| 0 <= j < i - 1 && keys[j] == k;
                assert(0 <= j < i && keys[j] == k);
            } else if exists|j: int| 0 <= j < i && keys[j] == k {
                let j = choose|j: int| 0 <= j < i && keys[j] == k;
                assert(0 <= j < i - 1 && keys[j] == k);
            }
        }
        assert forall|j: int| 0 <= j < i implies replay_log(Map::empty(), m)[keys[j]] == value_at(
            segs,
            copies[j]@,
        ) by {
            if j < i - 1 {
                assert(keys[j] != keys[i - 1]);
            }
        }
    }
}

/// The bytes at the positions `ps`, one after another.
pub open spec fn concat_slices(segs: Map<u64, Seq<u8>>, ps: Seq<CommandPos>) -> Seq<u8>
    decreases ps.len(),
{
    if ps.len() == 0 {
        Seq::empty()
    } else {
        concat_slices(segs, ps.drop_last()) + slice_at(segs, ps.last()@)
    }
}

proof fn lemma_concat_prefix(segs: Map<u64, Seq<u8>>, ps: Seq<CommandPos>, i: int)
    requires
        0 <= i <= ps.len(),
    ensures
        concat_slices(segs, ps.take(i)).len() <= concat_slices(segs, ps).len(),
        concat_slices(segs, ps).subrange(0, concat_slices(segs, ps.take(i)).len() as int)
            == concat_slices(segs, ps.take(i)),
    decreases ps.len(),
{
    if i == ps.len() {
        assert(ps.take(i) =~= ps);
        assert(concat_slices(segs, ps).subrange(0, concat_slices(segs, ps).len() as int)
            =~= concat_slices(segs, ps));
    } else {
        lemma_concat_prefix(segs, ps.drop_last(), i);
        assert(ps.drop_last().take(i) =~= ps.take(i));
        let a = concat_slices(segs, ps.drop_last());
        let p = concat_slices(segs, ps.take(i));
        assert((a + slice_at(segs, ps.last()@)).subrange(0, p.len() as int) =~= a.subrange(
            0,
            p.len() as int,
        ));
    }
}

/// The `j`-th slice stands in the concatenation after the slices before it.
proof fn lemma_concat_at(segs: Map<u64, Seq<u8>>, ps: Seq<CommandPos>, j: int)
    requires
        0 <= j < ps.len(),
    ensures
        ({
            let c = concat_slices(segs, ps);
            let o = concat_slices(segs, ps.take(j)).len() as int;
            let s = slice_at(segs, ps[j]@);
            &&& o + s.len() <= c.len()
            &&& c.subrange(o as int, o + s.len() as int) == s
        }),
{
    lemma_concat_prefix(segs, ps, j + 1);
    assert(ps.take(j + 1).drop_last() =~= ps.take(j));
    let c = concat_slices(segs, ps);
    let t = concat_slices(segs, ps.take(j + 1));
    let o = concat_slices(segs, ps.take(j)).len() as int;
    let s = slice_at(segs, ps[j]@);
    assert(t == concat_slices(segs, ps.take(j)) + s);
    assert(c.subrange(o as int, o + s.len() as int) =~= t.subrange(o as int, o + s.len() as int));
    assert(t.subrange(o as int, o + s.len() as int) =~= s);
}

/// Every entry of `list` is an entry of the index.
pub open spec fn lists_entries(
    entries: Map<Seq<char>, (u64, u64, u64)>,
    list: Seq<(String, CommandPos)>,
) -> bool {
    forall|j: int|
        0 <= j < list.len() ==> #[trigger] entries.contains_key(list[j].0@) && entries[list[j].0@]
            == list[j].1@
}

/// `ps` lists the positions of the index, each key's once, in some order.
pub open spec fn lists_live(e: Map<Seq<char>, (u64, u64, u64)>, ps: Seq<CommandPos>) -> bool {
    exists|keys: Seq<Seq<char>>|
        #![trigger keys.len()]
        {
            &&& keys.len() == ps.len()
            &&& forall|j: int|
                0 <= j < ps.len() ==> e.contains_key(#[trigger] keys[j]) && e[keys[j]] == ps[j]@
            &&& forall|k: Seq<char>|
                #[trigger] e.contains_key(k) ==> exists|j: int| 0 <= j < keys.len() && keys[j] == k
            &&& forall|j: int, l: int| 0 <= j < l < keys.len() ==> keys[j] != keys[l]
        }
}

/// Each key of `entries0` maps in `entries1` to the place, in segment `cg`,
/// of its record's copy when the records at `copies` are written there one
/// after another: same length, offset the length of the copies before it.
pub open spec fn relocated(
    segs0: Map<u64, Seq<u8>>,
    entries0: Map<Seq<char>, (u64, u64, u64)>,
    entries1: Map<Seq<char>, (u64, u64, u64)>,
    copies: Seq<CommandPos>,
    cg: u64,
) -> bool {
    forall|k: Seq<char>| #[trigger]
            entries0.contains_key(k) ==> exists|i: int|
                0 <= i < copies.len() && (#[trigger] copies[i])@ == entries0[k] && entries1[k] == (
                    cg,
                    concat_slices(segs0, copies.take(i)).len() as u64,
                    copies[i].len,
                )
}

/// The places of the copies in the compacted segment do not overlap.
proof fn lemma_relocated_disjoint(
    segs0: Map<u64, Seq<u8>>,
    entries0: Map<Seq<char>, (u64, u64, u64)>,
    entries1: Map<Seq<char>, (u64, u64, u64)>,
    copies: Seq<CommandPos>,
    cg: u64,
)
    requires
        relocated(segs0, entries0, entries1, copies, cg),
        entries1.dom() == entries0.dom(),
        disjoint_entries(entries0),
        forall|k: Seq<char>| #[trigger]
            entries0.contains_key(k) ==> holds_put(segs0, k, entries0[k]),
        concat_slices(segs0, copies).len() <= u64::MAX,
    ensures
        disjoint_entries(entries1),
{
    assert forall|k1: Seq<char>, k2: Seq<char>|
        #![trigger entries1[k1], entries1[k2]]
        entries1.contains_key(k1) && entries1.contains_key(k2) && k1 != k2 && entries1[k1].0
            == entries1[k2].0 implies entries1[k1].1 + entries1[k1].2 <= entries1[k2].1
        || entries1[k2].1 + entries1[k2].2 <= entries1[k1].1 by {
        assert(entries0.contains_key(k1));
        assert(entries0.contains_key(k2));
        let i1 = choose|i: int|
            0 <= i < copies.len() && (#[trigger] copies[i])@ == entries0[k1] && entries1[k1] == (
                cg,
                concat_slices(segs0, copies.take(i)).len() as u64,
                copies[i].len,
            );
        let i2 = choose|i: int|
            0 <= i < copies.len() && (#[trigger] copies[i])@ == entries0[k2] && entries1[k2] == (
                cg,
                concat_slices(segs0, copies.take(i)).len() as u64,
                copies[i].len,
            );
        let p1 = entries0[k1];
        let p2 = entries0[k2];
        assert(holds_put(segs0, k1, p1));
        assert(holds_put(segs0, k2, p2));
        lemma_record_alone(slice_at(segs0, p1));
        lemma_record_alone(slice_at(segs0, p2));
        assert(p1.2 > 0 && p2.2 > 0);
        if i1 == i2 {
            assert(p1 == p2);
            assert(false);
        }
        let (a, b) = if i1 < i2 {
            (i1, i2)
        } else {
            (i2, i1)
        };
        lemma_concat_prefix(segs0, copies, a);
        lemma_concat_prefix(segs0, copies, b);
        lemma_concat_prefix(segs0, copies.take(b), a + 1);
        assert(copies.take(b).take(a + 1) =~= copies.take(a + 1));
        assert(copies.take(a + 1).drop_last() =~= copies.take(a));
        assert(copies.take(a + 1).last() == copies[a]);
        let pa = copies[a]@;
        assert(segs0.contains_key(pa.0) && pa.1 + pa.2 <= segs0[pa.0].len()) by {
            if a == i1 {
                assert(pa == p1);
            } else {
                assert(pa == p2);
            }
        }
        assert(slice_at(segs0, pa).len() == pa.2);
        assert(concat_slices(segs0, copies.take(a + 1)).len() == concat_slices(
            segs0,
            copies.take(a),
        ).len() + pa.2);
    }
}

/// After a compaction each key's entry is its copy's place in the new
/// segment `cg`.
proof fn lemma_relocated(
    segs0: Map<u64, Seq<u8>>,
    entries0: Map<Seq<char>, (u64, u64, u64)>,
    entries1: Map<Seq<char>, (u64, u64, u64)>,
    list: Seq<(String, CommandPos)>,
    copies: Seq<CommandPos>,
    offs: Seq<u64>,
    cg: u64,
)
    requires
        copies.len() == list.len(),
        offs.len() == list.len(),
        forall|j: int| 0 <= j < list.len() ==> copies[j] == list[j].1,
        lists_entries(entries0, list),
        forall|k: Seq<char>| #[trigger]
            entries0.contains_key(k) ==> exists|j: int|
                0 <= j < list.len() && (#[trigger] list[j]).0@ == k,
        forall|j: int|
            0 <= j < list.len() ==> entries1[#[trigger] list[j].0@] == (cg, offs[j], copies[j].len),
        forall|j: int|
            0 <= j < list.len() ==> offs[j] as int == concat_slices(segs0, copies.take(j)).len(),
    ensures
        relocated(segs0, entries0, entries1, copies, cg),
{
    assert forall|k: Seq<char>| #[trigger]
        entries0.contains_key(k) implies exists|i: int|
        0 <= i < copies.len() && (#[trigger] copies[i])@ == entries0[k] && entries1[k] == (
            cg,
            concat_slices(segs0, copies.take(i)).len() as u64,
            copies[i].len,
        ) by {
        let j = choose|j: int| 0 <= j < list.len() && (#[trigger] list[j]).0@ == k;
        assert(entries1[list[j].0@] == (cg, offs[j], copies[j].len));
        assert(entries0.contains_key(list[j].0@));
        assert(copies[j]@ == entries0[k]);
    }
}

/// What a compaction asks of the caller, in order: write the records at
/// `copies`, one after another, to a new segment `compact_gen`; start an
/// empty active segment `active_gen`; then delete the segments `obsolete`.
pub struct Compaction {
    pub compact_gen: u64,
    pub active_gen: u64,
    pub copies: Vec<CommandPos>,
    pub obsolete: Vec<u64>,
}

/// The counter plus the bytes that a command makes stale: the record that a
/// put overwrites; the record that a remove deletes, and the remove's own.
pub open spec fn stale_after(
    u: u64,
    entries: Map<Seq<char>, (u64, u64, u64)>,
    kind: CommandKind,
    key: Seq<char>,
    n: nat,
) -> u64 {
    let grown = if !entries.contains_key(key) {
        u as int
    } else {
        match kind {
            CommandKind::Put => u + entries[key].2,
            CommandKind::Remove => u + entries[key].2 + n,
        }
    };
    if grown > u64::MAX {
        u64::MAX
    } else {
        grown as u64
    }
}

/// The writer's state.
pub struct KvStoreWriter {
    index: IndexMap,
    gen: u64,
    end: u64,
    uncompacted: u64,
    gens: Vec<u64>,
    segs: Ghost<Map<u64, Seq<u8>>>,
}

impl KvStoreWriter {
    /// Each key's position.
    pub closed spec fn entries(&self) -> Map<Seq<char>, (u64, u64, u64)> {
        index_entries(self.index)
    }

    /// The bytes of every segment, the active one included.
    pub closed spec fn segments(&self) -> Map<u64, Seq<u8>> {
        self.segs@
    }

    /// The generation of the active segment.
    pub closed spec fn active_gen(&self) -> u64 {
        self.gen
    }

    /// The generations of the other segments, ascending.
    pub closed spec fn older_gens(&self) -> Seq<u64> {
        self.gens@
    }

    /// The stale-byte counter.
    pub closed spec fn uncompacted(&self) -> u64 {
        self.uncompacted
    }

    /// What the store holds: each key with the value that its record reads.
    pub closed spec fn contents(&self) -> Map<Seq<char>, Seq<char>> {
        Map::new(
            |k: Seq<char>| self.entries().contains_key(k),
            |k: Seq<char>| value_at(self.segs@, self.entries()[k]),
        )
    }

    /// The invariant: the bookkeeping below, what the store holds is what
    /// a replay of its segments in order of generation reconstructs, and the
    /// active segment holds whole records only.
    pub closed spec fn wf(&self) -> bool {
        &&& self.wf_core()
        &&& self.contents() == replay_segments(
            Map::empty(),
            self.segs@,
            self.gens@.push(self.gen),
        )
        &&& replayed_len(self.segs@[self.gen]) == self.segs@[self.gen].len()
    }

    /// The segments are the active one and the older ones, ascending, and
    /// every key's position holds that key's put record.
    pub closed spec fn wf_core(&self) -> bool {
        &&& self.segs@.contains_key(self.gen)
        &&& self.segs@[self.gen].len() == self.end
        &&& forall|i: int, j: int|
            0 <= i < j < self.gens@.len() ==> self.gens@[i] < self.gens@[j]
        &&& forall|i: int| 0 <= i < self.gens@.len() ==> self.gens@[i] < self.gen
        &&& forall|g: u64|
            #[trigger] self.segs@.contains_key(g) <==> (g == self.gen || self.gens@.contains(g))
        &&& forall|k: Seq<char>| #[trigger]
            self.entries().contains_key(k) ==> holds_put(self.segs@, k, self.entries()[k])
        &&& disjoint_entries(self.entries())
    }

    /// A writer with an empty active segment `gen` and nothing else.
    pub fn new(gen: u64) -> (w: Self)
        ensures
            w.wf(),
            w.active_gen() == gen,
            w.older_gens() == Seq::<u64>::empty(),
            w.segments() == Map::<u64, Seq<u8>>::empty().insert(gen, Seq::empty()),
            w.contents() == Map::<Seq<char>, Seq<char>>::empty(),
            w.uncompacted() == 0,
    {
        let w = KvStoreWriter {
            index: index_new(),
            gen,
            end: 0,
            uncompacted: 0,
            gens: Vec::new(),
            segs: Ghost(Map::empty().insert(gen, Seq::empty())),
        };
        assert(w.contents() =~= Map::<Seq<char>, Seq<char>>::empty());
        proof {
            lemma_decode_short(Seq::<u8>::empty());
            assert(w.gens@.push(gen).drop_last() =~= Seq::<u64>::empty());
            assert(w.gens@.push(gen).last() == gen);
            assert(replay_segments(Map::empty(), w.segs@, Seq::<u64>::empty()) == Map::<
                Seq<char>,
                Seq<char>,
            >::empty());
            assert(replayed_len(Seq::<u8>::empty()) == 0);
            assert(replay_log(Map::empty(), Seq::<u8>::empty()) =~= Map::<
                Seq<char>,
                Seq<char>,
            >::empty());
        }
        w
    }

    /// The position of the key's live record.
    pub fn lookup(&self, key: &str) -> (r: Option<CommandPos>)
        requires
            self.wf(),
        ensures
            r is Some <==> self.contents().contains_key(key@),
            r matches Some(p) ==> {
                &&& p@ == self.entries()[key@]
                &&& holds_put(self.segments(), key@, p@)
                &&& value_at(self.segments(), p@) == self.contents()[key@]
            },
    {
        let r = index_get(&self.index, key);
        proof {
            assert(self.entries() == index_entries(self.index));
            if let Some(p) = r {
                assert(self.entries().contains_key(key@));
                assert(holds_put(self.segs@, key@, self.entries()[key@]));
            }
        }
        r
    }

    /// Applies the command recorded at `pos` to the index and the counter.
    fn apply_at(&mut self, kind: CommandKind, key: String, pos: CommandPos)
        requires
            old(self).wf_core(),
            holds_record(old(self).segs@, pos@),
            (decode_spec(slice_at(old(self).segs@, pos@))->0).0 == kind,
            (decode_spec(slice_at(old(self).segs@, pos@))->0).1 == key@,
            ends_before(old(self).entries(), pos.gen, pos.offset as int),
        ensures
            final(self).wf_core(),
            final(self).gen == old(self).gen,
            final(self).end == old(self).end,
            final(self).gens == old(self).gens,
            final(self).segs == old(self).segs,
            final(self).contents() == apply_command(
                old(self).contents(),
                kind,
                key@,
                value_at(old(self).segs@, pos@),
            ),
            final(self).uncompacted == stale_after(
                old(self).uncompacted,
                old(self).entries(),
                kind,
                key@,
                pos.len as nat,
            ),
            kind == CommandKind::Put ==> final(self).entries() == old(self).entries().insert(
                key@,
                pos@,
            ),
            kind == CommandKind::Remove ==> final(self).entries() == old(self).entries().remove(
                key@,
            ),
    {
        let ghost old_contents = self.contents();
        let ghost old_entries = self.entries();
        let ghost k = key@;
        match kind {
            CommandKind::Put => {
                let prior = index_get(&self.index, key.as_str());
                if let Some(p) = prior {
                    self.uncompacted = self.uncompacted.saturating_add(p.len);
                }
                index_insert(&mut self.index, key, pos);
                assert(self.entries() == old_entries.insert(k, pos@));
                assert(self.contents() =~= old_contents.insert(k, value_at(self.segs@, pos@)));
            },
            CommandKind::Remove => {
                let prior = index_remove(&mut self.index, key.as_str());
                if let Some(p) = prior {
                    self.uncompacted = self.uncompacted.saturating_add(p.len).saturating_add(
                        pos.len,
                    );
                }
                assert(self.entries() == old_entries.remove(k));
                assert(self.contents() =~= old_contents.remove(k));
            },
        }
    }

    /// Accepts a record that the caller has appended to the active segment:
    /// the store then holds what the command says. A record that does not
    /// decode whole is refused with `InvalidRecord`, one that would take the
    /// segment past `u64::MAX` bytes with `Overflow`; the writer is then
    /// unchanged. On success, says whether a compaction is due.
    pub fn append(&mut self, record: &[u8]) -> (r: Result<bool, KvsError>)
        requires
            old(self).wf(),
        ensures
            final(self).wf(),
            r is Ok <==> {
                &&& decode_spec(record@) is Some
                &&& (decode_spec(record@)->0).3 == record@.len()
                &&& old(self).segments()[old(self).active_gen()].len() + record@.len() <= u64::MAX
            },
            r matches Err(e) ==> {
                &&& *final(self) == *old(self)
                &&& (e is InvalidRecord <==> !(decode_spec(record@) is Some && (decode_spec(
                    record@,
                )->0).3 == record@.len()))
                &&& (e is InvalidRecord || e is Overflow)
            },
            r is Ok ==> {
                let (kind, key, value, n) = decode_spec(record@)->0;
                let g = old(self).active_gen();
                &&& final(self).active_gen() == g
                &&& final(self).older_gens() == old(self).older_gens()
                &&& final(self).segments() == old(self).segments().insert(
                    g,
                    old(self).segments()[g] + record@,
                )
                &&& final(self).contents() == apply_command(old(self).contents(), kind, key, value)
                &&& (kind == CommandKind::Put ==> final(self).entries() == old(self).entries().insert(
                    key,
                    (g, old(self).segments()[g].len() as u64, n as u64),
                ))
                &&& (kind == CommandKind::Remove ==> final(self).entries()
                    == old(self).entries().remove(key))
                &&& final(self).uncompacted() == stale_after(
                    old(self).uncompacted(),
                    old(self).entries(),
                    kind,
                    key,
                    n as nat,
                )
            },
            r matches Ok(due) ==> due == (final(self).uncompacted() > COMPACTION_THRESHOLD),
    {
        assert(record@.subrange(0, record@.len() as int) =~= record@);
        let (cmd, n) = match decode_command_at(record, 0) {
            Some(x) => x,
            None => return Err(KvsError::InvalidRecord),
        };
        if n != record.len() {
            return Err(KvsError::InvalidRecord);
        }
        let len = n as u64;
        if self.end > u64::MAX - len {
            return Err(KvsError::Overflow);
        }
        let pos = CommandPos { gen: self.gen, offset: self.end, len };
        let ghost old_segs = self.segs@;
        let ghost old_contents = self.contents();
        let ghost g = self.gen;
        proof {
            assert forall|k: Seq<char>| #[trigger]
                self.entries().contains_key(k) implies holds_put(
                old_segs.insert(g, old_segs[g] + record@),
                k,
                self.entries()[k],
            ) && value_at(old_segs.insert(g, old_segs[g] + record@), self.entries()[k])
                == value_at(old_segs, self.entries()[k]) by {
                lemma_extend_keeps(old_segs, g, record@, self.entries()[k]);
            }
        }
        self.segs = Ghost(self.segs@.insert(self.gen, self.segs@[self.gen] + record@));
        self.end = self.end + len;
        proof {
            assert(slice_at(self.segs@, pos@) =~= record@);
            assert(self.contents() =~= old_contents);
            assert forall|x: u64| #[trigger]
                self.segs@.contains_key(x) <==> (x == self.gen || self.gens@.contains(x)) by {
                assert(old_segs.contains_key(x) == self.segs@.contains_key(x));
            }
        }
        self.apply_at(cmd.kind, cmd.key, pos);
        proof {
            let gens = self.gens@;
            let x = replay_segments(Map::empty(), old_segs, gens);
            assert forall|i: int| 0 <= i < gens.len() implies old_segs[gens[i]] == self.segs@[gens[i]] by {
                assert(gens[i] < g);
            }
            lemma_replay_frame(Map::empty(), old_segs, self.segs@, gens);
            lemma_replay_append(x, old_segs[g], record@);
            assert(gens.push(g).drop_last() =~= gens);
            assert(self.segs@[g] == old_segs[g] + record@);
        }
        Ok(self.uncompacted > COMPACTION_THRESHOLD)
    }

    /// Replays an older segment of generation `gen` with bytes `bytes`:
    /// applies its records in order and stops at the first that does not
    /// decode, which is taken as never written. Returns how many bytes were
    /// read as records.
    pub fn replay(&mut self, gen: u64, bytes: &[u8]) -> (n: usize)
        requires
            old(self).wf(),
            gen < old(self).active_gen(),
            old(self).segments()[old(self).active_gen()].len() == 0,
            forall|i: int|
                0 <= i < old(self).older_gens().len() ==> old(self).older_gens()[i] < gen,
        ensures
            final(self).wf(),
            final(self).active_gen() == old(self).active_gen(),
            final(self).older_gens() == old(self).older_gens().push(gen),
            final(self).segments() == old(self).segments().insert(gen, bytes@),
            final(self).contents() == replay_log(old(self).contents(), bytes@),
            (final(self).entries(), final(self).uncompacted()) == replay_index(
                old(self).entries(),
                old(self).uncompacted(),
                gen,
                bytes@,
                0,
            ),
            n == replayed_len(bytes@),
    {
        let ghost old_contents = self.contents();
        let ghost old_segs = self.segs@;
        let ghost old_gens = self.gens@;
        self.gens.push(gen);
        self.segs = Ghost(self.segs@.insert(gen, bytes@));
        proof {
            assert(!old_segs.contains_key(gen)) by {
                if old_segs.contains_key(gen) {
                    assert(old_gens.contains(gen));
                    let i = choose|i: int| 0 <= i < old_gens.len() && old_gens[i] == gen;
                    assert(old(self).older_gens()[i] < gen);
                }
            }
            assert(self.gens@ == old_gens.push(gen));
            assert forall|k: Seq<char>| #[trigger]
                self.entries().contains_key(k) implies holds_put(self.segs@, k, self.entries()[k])
                && value_at(self.segs@, self.entries()[k]) == value_at(old_segs, self.entries()[k]) by {
                assert(slice_at(self.segs@, self.entries()[k]) == slice_at(old_segs, self.entries()[k]));
            }
            assert(self.contents() =~= old_contents);
            assert forall|x: u64| #[trigger]
                self.segs@.contains_key(x) <==> (x == self.gen || self.gens@.contains(x)) by {
                if self.gens@.contains(x) && x != gen {
                    let i = choose|i: int| 0 <= i < self.gens@.len() && self.gens@[i] == x;
                    assert(old_gens[i] == x);
                    assert(old_gens.contains(x));
                }
                if x == gen {
                    assert(self.gens@[old_gens.len() as int] == gen);
                }
                if old_gens.contains(x) {
                    let i = choose|i: int| 0 <= i < old_gens.len() && old_gens[i] == x;
                    assert(self.gens@[i] == x);
                }
            }
            assert(bytes@.subrange(0, bytes@.len() as int) =~= bytes@);
            assert forall|i: int, j: int|
                0 <= i < j < self.gens@.len() implies self.gens@[i] < self.gens@[j] by {
                if j == old_gens.len() {
                    assert(old(self).older_gens()[i] < gen);
                } else {
                    assert(old_gens[i] < old_gens[j]);
                }
            }
            assert forall|i: int| 0 <= i < self.gens@.len() implies self.gens@[i] < self.gen by {
                if i < old_gens.len() {
                    assert(old_gens[i] < self.gen);
                }
            }
            assert(self.segs@[self.gen] == old_segs[self.gen]);
        }
        let ghost segs1 = self.segs@;
        assert forall|i: int| 0 <= i < old_gens.len() implies old_gens[i] < gen by {
            assert(old(self).older_gens()[i] < gen);
        }
        assert forall|k: Seq<char>| #[trigger]
            self.entries().contains_key(k) && self.entries()[k].0 == gen implies self.entries()[k].1
            + self.entries()[k].2 <= 0 by {
            assert(old(self).entries().contains_key(k));
            assert(holds_put(old_segs, k, old(self).entries()[k]));
        }
        let mut off: usize = 0;
        loop
            invariant
                self.wf_core(),
                old(self).wf(),
                old_segs[self.gen].len() == 0,
                forall|i: int| 0 <= i < old_gens.len() ==> old_gens[i] < gen,
                bytes@.len() == bytes.len(),
                off <= bytes@.len(),
                self.segs@ == segs1,
                segs1 == old_segs.insert(gen, bytes@),
                old_segs == old(self).segs@,
                old_gens == old(self).gens@,
                old_contents == old(self).contents(),
                self.gen == old(self).gen,
                self.gens@ == old_gens.push(gen),
                replay_log(old_contents, bytes@) == replay_log(
                    self.contents(),
                    bytes@.subrange(off as int, bytes@.len() as int),
                ),
                replayed_len(bytes@) == off + replayed_len(
                    bytes@.subrange(off as int, bytes@.len() as int),
                ),
                replay_index(old(self).entries(), old(self).uncompacted, gen, bytes@, 0)
                    == replay_index(self.entries(), self.uncompacted, gen, bytes@, off as int),
                ends_before(self.entries(), gen, off as int),
            decreases bytes@.len() - off,
        {
            let ghost rest = bytes@.subrange(off as int, bytes@.len() as int);
            match decode_command_at(bytes, off) {
                None => {
                    proof {
                        lemma_decode_short(Seq::<u8>::empty());
                        let e = Seq::<u8>::empty();
                        let a = self.gen;
                        assert(old_segs[a] =~= e);
                        assert(replay_log(self.contents(), rest) == self.contents());
                        let y = replay_segments(Map::empty(), old_segs, old_gens);
                        assert(old_gens.push(a).drop_last() =~= old_gens);
                        assert(replay_log(y, e) == y);
                        assert(old_contents == y);
                        assert forall|i: int| 0 <= i < old_gens.len() implies old_segs[old_gens[i]]
                            == segs1[old_gens[i]] by {
                            assert(old_gens[i] < gen);
                        }
                        lemma_replay_frame(Map::empty(), old_segs, segs1, old_gens);
                        let gs = old_gens.push(gen);
                        assert(gs.drop_last() =~= old_gens);
                        assert(gs.push(a).drop_last() =~= gs);
                        assert(segs1[a] =~= e);
                        assert(replay_segments(Map::empty(), segs1, gs) == replay_log(y, bytes@));
                        assert(replay_log(replay_segments(Map::empty(), segs1, gs), e)
                            == replay_segments(Map::empty(), segs1, gs));
                    }
                    return off;
                },
                Some((cmd, n)) => {
                    let pos = CommandPos { gen, offset: off as u64, len: n as u64 };
                    proof {
                        lemma_record_alone(rest);
                        assert(decode_spec(rest) == Some((cmd.kind, cmd.key@, cmd.value@, n as int)));
                        assert(0 < n <= rest.len());
                        assert(off + n <= bytes@.len());
                        assert(slice_at(self.segs@, pos@) =~= rest.subrange(0, n as int));
                        assert(rest.subrange(n as int, rest.len() as int) =~= bytes@.subrange(
                            off + n,
                            bytes@.len() as int,
                        ));
                    }
                    self.apply_at(cmd.kind, cmd.key, pos);
                    off = off + n;
                },
            }
        }
    }

    /// Compacts the store: every live record moves, in one sequence, to the
    /// new segment `active_gen + 1`, the active segment becomes the empty
    /// `active_gen + 2`, and every older segment is obsolete. What each key
    /// reads is unchanged. Fails with `Overflow`, and changes nothing, where
    /// the generations or the new segment's offsets would leave `u64`.
    #[verifier::rlimit(100)]
    pub fn compact(&mut self) -> (r: Result<Compaction, KvsError>)
        requires
            old(self).wf(),
        ensures
            final(self).wf(),
            r matches Err(e) ==> e is Overflow && *final(self) == *old(self),
            old(self).active_gen() > u64::MAX - 2 ==> r is Err,
            r is Err ==> old(self).active_gen() > u64::MAX - 2 || exists|ps: Seq<CommandPos>|
                lists_live(old(self).entries(), ps) && concat_slices(old(self).segments(), ps).len()
                    > u64::MAX,
            r matches Ok(c) ==> {
                &&& c.compact_gen == old(self).active_gen() + 1
                &&& c.active_gen == old(self).active_gen() + 2
                &&& c.obsolete@ == old(self).older_gens().push(old(self).active_gen())
                &&& final(self).active_gen() == c.active_gen
                &&& final(self).older_gens() == seq![c.compact_gen]
                &&& final(self).segments() == Map::<u64, Seq<u8>>::empty().insert(
                    c.compact_gen,
                    concat_slices(old(self).segments(), c.copies@),
                ).insert(c.active_gen, Seq::empty())
                &&& final(self).contents() == old(self).contents()
                &&& final(self).uncompacted() == 0
                &&& lists_live(old(self).entries(), c.copies@)
                &&& final(self).entries().dom() == old(self).entries().dom()
                &&& relocated(
                    old(self).segments(),
                    old(self).entries(),
                    final(self).entries(),
                    c.copies@,
                    c.compact_gen,
                )
            },
    {
        if self.gen > u64::MAX - 2 {
            return Err(KvsError::Overflow);
        }
        let cg = self.gen + 1;
        let na = self.gen + 2;
        let list = index_list(&self.index);
        let ghost segs0 = self.segs@;
        let ghost entries0 = self.entries();
        let ghost contents0 = self.contents();
        assert(entries0 == index_entries(self.index));
        assert forall|j: int| 0 <= j < list@.len() implies #[trigger] entries0.contains_key(
            list@[j].0@,
        ) && entries0[list@[j].0@] == list@[j].1@ by {
            assert(index_entries(self.index).contains_key(list@[j].0@));
        }
        assert(lists_entries(entries0, list@));
        let ghost keys = Seq::new(list@.len(), |j: int| list@[j].0@);
        let ghost all = Seq::new(list@.len(), |j: int| list@[j].1);
        proof {
            assert forall|j: int| 0 <= j < all.len() implies entries0.contains_key(
                #[trigger] keys[j],
            ) && entries0[keys[j]] == all[j]@ by {
                assert(entries0.contains_key(list@[j].0@));
            }
            assert forall|k: Seq<char>| #[trigger]
                entries0.contains_key(k) implies exists|j: int| 0 <= j < keys.len() && keys[j] == k by {
                assert(index_entries(self.index).contains_key(k));
                let j = choose|j: int| 0 <= j < list@.len() && (#[trigger] list@[j]).0@ == k;
                assert(keys[j] == k);
            }
            assert forall|j: int, l: int| 0 <= j < l < keys.len() implies keys[j] != keys[l] by {
                assert(list@[j].0@ != list@[l].0@);
            }
            assert(keys.len() == all.len());
            assert(lists_live(entries0, all));
        }
        let mut copies: Vec<CommandPos> = Vec::new();
        let mut offs: Vec<u64> = Vec::new();
        let mut total: u64 = 0;
        let mut i: usize = 0;
        while i < list.len()
            invariant
                self.wf(),
                self.segs@ == segs0,
                self.entries() == entries0,
                self.gens == old(self).gens,
                self.gen == old(self).gen,
                self.gen + 2 <= u64::MAX,
                cg == self.gen + 1,
                na == self.gen + 2,
                i <= list@.len(),
                copies@.len() == i,
                offs@.len() == i,
                forall|j: int| 0 <= j < i ==> copies@[j] == list@[j].1,
                total as int == concat_slices(segs0, copies@).len(),
                forall|j: int|
                    0 <= j < i ==> offs@[j] as int == concat_slices(segs0, copies@.take(j)).len(),
                lists_entries(entries0, list@),
                lists_live(entries0, all),
                all == Seq::new(list@.len(), |j: int| list@[j].1),
                entries0 == old(self).entries(),
                segs0 == old(self).segs@,
                copies@ == all.take(i as int),
            decreases list@.len() - i,
        {
            let p = list[i].1;
            proof {
                assert(entries0.contains_key(list@[i as int].0@));
                assert(holds_put(segs0, list@[i as int].0@, p@));
                assert(copies@.push(p).drop_last() =~= copies@);
                assert(copies@.push(p).take(i as int) =~= copies@);
                assert forall|j: int| 0 <= j < i implies copies@.push(p).take(j) =~= copies@.take(
                    j,
                ) by {}
            }
            match total.checked_add(p.len) {
                None => {
                    proof {
                        assert(all.take(i + 1) =~= copies@.push(p));
                        assert(slice_at(segs0, p@).len() == p.len);
                        lemma_concat_prefix(segs0, all, i + 1);
                        assert(concat_slices(segs0, all).len() > u64::MAX);
                    }
                    return Err(KvsError::Overflow);
                },
                Some(t) => {
                    offs.push(total);
                    copies.push(p);
                    total = t;
                },
            }
            i = i + 1;
        }
        let mut i: usize = 0;
        while i < list.len()
            invariant
                self.segs@ == segs0,
                self.gens == old(self).gens,
                self.gen == old(self).gen,
                cg == self.gen + 1,
                na == self.gen + 2,
                i <= list@.len(),
                copies@.len() == list@.len(),
                offs@.len() == list@.len(),
                forall|j: int| 0 <= j < list@.len() ==> copies@[j] == list@[j].1,
                self.entries().dom() == entries0.dom(),
                forall|j: int|
                    0 <= j < i ==> self.entries()[#[trigger] list@[j].0@] == (
                        cg,
                        offs@[j],
                        copies@[j].len,
                    ),
                forall|j: int|
                    i <= j < list@.len() ==> self.entries()[#[trigger] list@[j].0@]
                        == entries0[list@[j].0@],
                forall|j: int|
                    0 <= j < list@.len() ==> offs@[j] as int == concat_slices(
                        segs0,
                        copies@.take(j),
                    ).len(),
                forall|j: int, l: int|
                    0 <= j < l < list@.len() ==> (#[trigger] list@[j]).0@ != (
                    #[trigger] list@[l]).0@,
                forall|j: int|
                    0 <= j < list@.len() ==> #[trigger] entries0.contains_key(list@[j].0@),
            decreases list@.len() - i,
        {
            let key = list[i].0.clone();
            let pos = CommandPos { gen: cg, offset: offs[i], len: copies[i].len };
            let ghost before = self.entries();
            index_insert(&mut self.index, key, pos);
            proof {
                assert(self.entries() == before.insert(list@[i as int].0@, pos@));
                assert(self.entries().dom() =~= entries0.dom());
            }
            i = i + 1;
        }
        let mut obsolete: Vec<u64> = vec![cg];
        std::mem::swap(&mut obsolete, &mut self.gens);
        obsolete.push(self.gen);
        let ghost new_segs = Map::<u64, Seq<u8>>::empty().insert(
            cg,
            concat_slices(segs0, copies@),
        ).insert(na, Seq::empty());
        let ghost entries1 = self.entries();
        proof {
            assert forall|k: Seq<char>| #[trigger]
                entries1.contains_key(k) implies holds_put(new_segs, k, entries1[k])
                && value_at(new_segs, entries1[k]) == value_at(segs0, entries0[k]) by {
                let j = choose|j: int| 0 <= j < list@.len() && (#[trigger] list@[j]).0@ == k;
                lemma_concat_at(segs0, copies@, j);
                assert(holds_put(segs0, k, entries0[k]));
                assert(slice_at(new_segs, entries1[k]) == slice_at(segs0, copies@[j]@));
            }
        }
        self.segs = Ghost(new_segs);
        self.gen = na;
        self.end = 0;
        self.uncompacted = 0;
        proof {
            assert(self.entries() == entries1);
            let keys = Seq::new(list@.len(), |j: int| list@[j].0@);
            assert forall|j: int| 0 <= j < copies@.len() implies holds_put(
                segs0,
                keys[j],
                copies@[j]@,
            ) by {
                assert(entries0.contains_key(list@[j].0@));
            }
            assert forall|j: int, l: int| 0 <= j < l < keys.len() implies keys[j] != keys[l] by {
                assert(list@[j].0@ != list@[l].0@);
            }
            lemma_replay_copies(segs0, copies@, keys, list@.len() as int);
            assert(copies@.take(list@.len() as int) =~= copies@);
            let cat = concat_slices(segs0, copies@);
            let m = replay_log(Map::empty(), cat);
            assert forall|k: Seq<char>| m.contains_key(k) <==> contents0.contains_key(k) by {
                if contents0.contains_key(k) {
                    assert(entries0.contains_key(k));
                    let j = choose|j: int| 0 <= j < list@.len() && (#[trigger] list@[j]).0@ == k;
                    assert(keys[j] == k);
                }
                if m.contains_key(k) {
                    let j = choose|j: int| 0 <= j < list@.len() && keys[j] == k;
                    assert(entries0.contains_key(list@[j].0@));
                }
            }
            assert forall|k: Seq<char>| m.contains_key(k) implies m[k] == contents0[k] by {
                let j = choose|j: int| 0 <= j < list@.len() && keys[j] == k;
                assert(entries0[k] == copies@[j]@);
            }
            assert(m =~= contents0);
            lemma_decode_short(Seq::<u8>::empty());
            let e = Seq::<u8>::empty();
            let gs = seq![cg, na];
            assert(gs.drop_last() =~= seq![cg]);
            assert(seq![cg].drop_last() =~= Seq::<u64>::empty());
            assert(new_segs[cg] == cat);
            assert(new_segs[na] == e);
            assert(seq![cg].last() == cg);
            assert(gs.last() == na);
            assert(replay_segments(Map::empty(), new_segs, Seq::<u64>::empty()) == Map::<
                Seq<char>,
                Seq<char>,
            >::empty());
            assert(replay_segments(Map::empty(), new_segs, seq![cg]) == m);
            assert(replay_log(m, e) == m);
            assert(self.gens@.push(self.gen) =~= gs);
            assert(replayed_len(e) == 0);
            assert(self.contents().dom() =~= contents0.dom());
            assert forall|k: Seq<char>| #[trigger]
                self.contents().contains_key(k) implies self.contents()[k] == contents0[k] by {
                assert(self.entries().contains_key(k));
                assert(value_at(new_segs, self.entries()[k]) == value_at(segs0, entries0[k]));
            }
            assert(self.contents() =~= contents0);
            assert(self.gens@ =~= seq![cg]);
            assert(obsolete@ == old(self).gens@.push(old(self).gen));
            assert(self.segs@ == new_segs);
            assert forall|x: u64| #[trigger]
                self.segs@.contains_key(x) <==> (x == self.gen || self.gens@.contains(x)) by {
                if x == cg {
                    assert(self.gens@[0] == cg);
                }
            }
            assert(copies@ =~= all);
            assert forall|k: Seq<char>| #[trigger]
                entries0.contains_key(k) implies exists|j: int|
                0 <= j < list@.len() && (#[trigger] list@[j]).0@ == k by {
                assert(index_entries(old(self).index).contains_key(k));
            }
            lemma_relocated(segs0, entries0, entries1, list@, copies@, offs@, cg);
            lemma_relocated_disjoint(segs0, entries0, entries1, copies@, cg);
            assert(entries0 == old(self).entries());
            assert(segs0 == old(self).segments());
            assert(self.entries().dom() == old(self).entries().dom());
        }
        Ok(Compaction { compact_gen: cg, active_gen: na, copies, obsolete })
    }

    /// The generation of the active segment.
    pub fn active_generation(&self) -> (r: u64)
        ensures
            r == self.active_gen(),
    {
        self.gen
    }

    /// The stale-byte counter.
    pub fn stale_bytes(&self) -> (r: u64)
        ensures
            r == self.uncompacted(),
    {
        self.uncompacted
    }

    /// The remove record of a key that the store holds; `RecordNotFound`
    /// where it does not hold it.
    pub fn tombstone(&self, key: &str) -> (r: Result<Vec<u8>, KvsError>)
        requires
            self.wf(),
        ensures
            r is Ok <==> self.contents().contains_key(key@),
            r matches Ok(b) ==> b@ == command_bytes(CommandKind::Remove, key@, Seq::empty()),
            r matches Err(e) ==> e is RecordNotFound,
    {
        match index_get(&self.index, key) {
            Some(_) => {
                let empty = "";
                proof {
                    reveal_strlit("");
                    assert(empty@ =~= Seq::<char>::empty());
                }
                let b = encode_command(CommandKind::Remove, key, empty);
                Ok(b)
            },
            None => Err(KvsError::RecordNotFound),
        }
    }
}

/// What the index promises of a well-formed writer: each key's position
/// lies in a present segment, at or below the active one, and holds exactly
/// that key's put record; two positions in one segment never overlap.
pub proof fn law_index_sound(w: KvStoreWriter)
    requires
        w.wf(),
    ensures
        forall|k: Seq<char>| #[trigger]
            w.entries().contains_key(k) ==> holds_put(w.segments(), k, w.entries()[k])
                && w.entries()[k].0 <= w.active_gen(),
        disjoint_entries(w.entries()),
{
    assert forall|k: Seq<char>| #[trigger]
        w.entries().contains_key(k) implies holds_put(w.segments(), k, w.entries()[k])
        && w.entries()[k].0 <= w.active_gen() by {
        let g = w.entries()[k].0;
        assert(w.segs@.contains_key(g));
        if g != w.gen {
            assert(w.gens@.contains(g));
            let i = choose|i: int| 0 <= i < w.gens@.len() && w.gens@[i] == g;
        }
    }
}

/// Setting a key twice: the key reads the second value.
pub proof fn law_overwrite(
    w0: KvStoreWriter,
    w1: KvStoreWriter,
    w2: KvStoreWriter,
    k: Seq<char>,
    v1: Seq<char>,
    v2: Seq<char>,
)
    requires
        w1.contents() == apply_command(w0.contents(), CommandKind::Put, k, v1),
        w2.contents() == apply_command(w1.contents(), CommandKind::Put, k, v2),
    ensures
        w2.contents().contains_key(k),
        w2.contents()[k] == v2,
{
}

/// Setting a key and then removing it: the store no longer holds the key.
pub proof fn law_absent_after_remove(
    w0: KvStoreWriter,
    w1: KvStoreWriter,
    w2: KvStoreWriter,
    k: Seq<char>,
    v: Seq<char>,
)
    requires
        w1.contents() == apply_command(w0.contents(), CommandKind::Put, k, v),
        w2.contents() == apply_command(w1.contents(), CommandKind::Remove, k, Seq::empty()),
    ensures
        !w2.contents().contains_key(k),
{
}

/// Reopening: a writer whose older segments are another writer's segments,
/// in order and with the other's active one last, and whose own active
/// segment is empty, holds what the other holds.
pub proof fn law_reopen(w1: KvStoreWriter, w2: KvStoreWriter)
    requires
        w1.wf(),
        w2.wf(),
        w2.older_gens() == w1.older_gens().push(w1.active_gen()),
        forall|g: u64|
            #[trigger] w1.segments().contains_key(g) ==> w2.segments().contains_key(g)
                && w2.segments()[g] == w1.segments()[g],
        w2.segments()[w2.active_gen()].len() == 0,
    ensures
        w2.contents() == w1.contents(),
{
    let gs1 = w1.gens@.push(w1.gen);
    assert forall|i: int| 0 <= i < gs1.len() implies w1.segs@[gs1[i]] == w2.segs@[gs1[i]] by {
        if i < w1.gens@.len() {
            assert(w1.gens@.contains(gs1[i]));
        }
        assert(w1.segs@.contains_key(gs1[i]));
        assert(w1.segments().contains_key(gs1[i]));
    }
    lemma_replay_frame(Map::empty(), w1.segs@, w2.segs@, gs1);
    lemma_decode_short(Seq::<u8>::empty());
    assert(w2.gens@.push(w2.gen).drop_last() =~= gs1);
    assert(w2.segs@[w2.gen] =~= Seq::<u8>::empty());
}

/// The record of a command, appended to any log and replayed, has the
/// command's effect: what a writer accepts is what a reopened store
/// reconstructs from the segment.
pub proof fn law_replay_record(
    c: Map<Seq<char>, Seq<char>>,
    kind: CommandKind,
    key: Seq<char>,
    value: Seq<char>,
    rest: Seq<u8>,
)
    ensures
        replay_log(c, command_bytes(kind, key, value) + rest) == replay_log(
            apply_command(c, kind, key, value),
            rest,
        ),
{
    let b = command_bytes(kind, key, value) + rest;
    let n = command_bytes(kind, key, value).len() as int;
    lemma_decode_command_bytes(kind, key, value, rest);
    assert(b.subrange(n, b.len() as int) =~= rest);
}

} // verus!
