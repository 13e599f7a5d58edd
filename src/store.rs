//! The store engine: segments held as byte images, the index of live keys,
//! and the operations on them. Each mutating operation returns the disk
//! operations that carry its effect over to the segment files.
use crate::codec::{
    bytes_eq, copy_range, decode_header, encode_record, record_bytes, fits_at, key_at, klen_at, vlen_at, lemma_record_at_end,
    lemma_window, lemma_zero_other, lemma_zero_outside, len_at, ts_at, value_at,
    zero_timestamp, zero_ts, KvsError, HEADER_LEN,
};
use crate::unix_time;
use vstd::prelude::*;

verus! {

/// Once this many bytes of superseded or removed records have built up, the
/// next mutating call compacts the store.
pub const COMPACTION_THRESHOLD: u64 = 1024 * 1024;

/// One segment: its generation number and the bytes of its file.
pub struct Segment {
    pub generation: u64,
    pub data: Vec<u8>,
}

/// Where the live record of a key lies: segment `n`, byte offset `pos`,
/// record length `len`, and the record's timestamp.
#[derive(Debug, Clone, Copy, PartialEq, Eq, Structural)]
pub struct DataIndex {
    pub n: u64,
    pub pos: u64,
    pub len: u32,
    pub timestamp: u64,
}

/// One index entry: a key and the location of its live record.
pub struct Slot {
    pub key: Vec<u8>,
    pub entry: DataIndex,
}

/// An effect on the segment files of the store directory.
pub enum DiskOp {
    /// Create the (empty) file of a segment.
    Create { generation: u64 },
    /// Write `bytes` at `offset`, the end of the segment's file.
    Append { generation: u64, offset: u64, bytes: Vec<u8> },
    /// Write eight zero bytes over the timestamp of the record at `offset`.
    ZeroTimestamp { generation: u64, offset: u64 },
    /// Delete the file of a segment.
    Delete { generation: u64 },
}

/// The store: segments in ascending generation order (the last one is
/// active), the index of live keys, and the count of dead bytes.
pub struct KvStore {
    nth: u64,
    segments: Vec<Segment>,
    indexes: Vec<Slot>,
    uncompacted: u64,
    contents: Ghost<Map<Seq<u8>, Seq<u8>>>,
}

/// `e` describes a live record of `key` in data `d`.
pub open spec fn record_ok(d: Seq<u8>, key: Seq<u8>, e: DataIndex) -> bool {
    &&& fits_at(d, e.pos as int)
    &&& len_at(d, e.pos as int) == e.len
    &&& ts_at(d, e.pos as int) == e.timestamp
    &&& e.timestamp != 0
    &&& key_at(d, e.pos as int) == key
}

pub open spec fn has_gen(segs: Seq<Segment>, g: u64) -> bool {
    exists|j: int| 0 <= j < segs.len() && segs[j].generation == g
}

/// `e` names a segment of `segs` and a live record of `key` in it.
pub open spec fn points_into(segs: Seq<Segment>, key: Seq<u8>, e: DataIndex) -> bool {
    &&& has_gen(segs, e.n)
    &&& forall|j: int|
        0 <= j < segs.len() && segs[j].generation == e.n ==> record_ok(segs[j].data@, key, e)
}

/// The record that `e` names holds value `v`.
pub open spec fn value_in(segs: Seq<Segment>, e: DataIndex, v: Seq<u8>) -> bool {
    forall|j: int|
        0 <= j < segs.len() && segs[j].generation == e.n ==> value_at(segs[j].data@, e.pos as int) == v
}

/// Two locations share no byte.
pub open spec fn disjoint(a: DataIndex, b: DataIndex) -> bool {
    a.n != b.n || a.pos + a.len <= b.pos || b.pos + b.len <= a.pos
}

pub open spec fn sat_add(a: u64, b: int) -> u64 {
    if a + b > u64::MAX { u64::MAX } else { (a + b) as u64 }
}

/// Appending bytes to one segment keeps every record that an entry names.
proof fn lemma_append_keeps(
    segs: Seq<Segment>,
    segs1: Seq<Segment>,
    last: int,
    extra: Seq<u8>,
    key: Seq<u8>,
    e: DataIndex,
    v: Seq<u8>,
)
    requires
        0 <= last < segs.len(),
        segs1.len() == segs.len(),
        forall|j: int| 0 <= j < segs.len() && j != last ==> segs1[j] == segs[j],
        segs1[last].generation == segs[last].generation,
        segs1[last].data@ == segs[last].data@ + extra,
        points_into(segs, key, e),
        value_in(segs, e, v),
    ensures
        points_into(segs1, key, e),
        value_in(segs1, e, v),
{
    let w = choose|j: int| 0 <= j < segs.len() && segs[j].generation == e.n;
    assert(segs1[w].generation == e.n);
    assert forall|j: int| 0 <= j < segs1.len() && segs1[j].generation == e.n implies record_ok(
        segs1[j].data@,
        key,
        e,
    ) && value_at(segs1[j].data@, e.pos as int) == v by {
        assert(segs[j].generation == e.n);
        assert(record_ok(segs[j].data@, key, e));
        if j == last {
            let d = segs[j].data@;
            let o = e.pos as int;
            assert((d + extra).subrange(o, o + len_at(d, o)) =~= d.subrange(o, o + len_at(d, o)));
            lemma_window(d, o, d + extra, o);
        }
    }
}

/// Zeroing the timestamp of one record keeps every record that lies apart
/// from it.
proof fn lemma_zero_keeps(
    segs: Seq<Segment>,
    segs1: Seq<Segment>,
    jz: int,
    z: DataIndex,
    key: Seq<u8>,
    e: DataIndex,
    v: Seq<u8>,
)
    requires
        0 <= jz < segs.len(),
        segs[jz].generation == z.n,
        fits_at(segs[jz].data@, z.pos as int),
        len_at(segs[jz].data@, z.pos as int) == z.len,
        segs1.len() == segs.len(),
        forall|j: int| 0 <= j < segs.len() && j != jz ==> segs1[j] == segs[j],
        segs1[jz].generation == segs[jz].generation,
        segs1[jz].data@ == zero_ts(segs[jz].data@, z.pos as int),
        disjoint(z, e),
        points_into(segs, key, e),
        value_in(segs, e, v),
    ensures
        points_into(segs1, key, e),
        value_in(segs1, e, v),
{
    let w = choose|j: int| 0 <= j < segs.len() && segs[j].generation == e.n;
    assert(segs1[w].generation == e.n);
    assert forall|j: int| 0 <= j < segs1.len() && segs1[j].generation == e.n implies record_ok(
        segs1[j].data@,
        key,
        e,
    ) && value_at(segs1[j].data@, e.pos as int) == v by {
        assert(segs[j].generation == e.n);
        assert(record_ok(segs[j].data@, key, e));
        if j == jz {
            lemma_zero_other(segs[j].data@, z.pos as int, e.pos as int);
        }
    }
}

/// A record of at most `u32::MAX` bytes starts at `o` in `d`.
pub open spec fn replayable(d: Seq<u8>, o: int) -> bool {
    fits_at(d, o) && len_at(d, o) <= u32::MAX
}

/// What replaying the records of `d` from offset `o` on makes of `m`: each
/// live record (timestamp not zero) stores its value under its key, a dead
/// one is passed over, and replay stops at the first record that does not
/// fit.
pub open spec fn replay_from(m: Map<Seq<u8>, Seq<u8>>, d: Seq<u8>, o: int) -> Map<Seq<u8>, Seq<u8>>
    decreases d.len() - o,
{
    if replayable(d, o) {
        let m2 = if ts_at(d, o) == 0 {
            m
        } else {
            m.insert(key_at(d, o), value_at(d, o))
        };
        replay_from(m2, d, o + len_at(d, o))
    } else {
        m
    }
}

/// The contents that replaying the segment images `segs` in order builds.
pub open spec fn replay(segs: Seq<Seq<u8>>) -> Map<Seq<u8>, Seq<u8>>
    decreases segs.len(),
{
    if segs.len() == 0 {
        Map::empty()
    } else {
        replay_from(replay(segs.drop_last()), segs.last(), 0)
    }
}

/// The dead bytes that replaying the records of `d` from `o` on counts,
/// starting from contents `m` and count `u`: a dead record counts its own
/// length, a live record counts the length of the record it supersedes.
pub open spec fn dead_from(m: Map<Seq<u8>, Seq<u8>>, u: u64, d: Seq<u8>, o: int) -> u64
    decreases d.len() - o,
{
    if replayable(d, o) {
        let k = key_at(d, o);
        let next = o + len_at(d, o);
        if ts_at(d, o) == 0 {
            dead_from(m, sat_add(u, len_at(d, o)), d, next)
        } else {
            let u2 = if m.contains_key(k) {
                sat_add(u, (16 + k.len() + m[k].len()) as int)
            } else {
                u
            };
            dead_from(m.insert(k, value_at(d, o)), u2, d, next)
        }
    } else {
        u
    }
}

/// The dead bytes that replaying the segment images `segs` in order counts.
pub open spec fn replay_dead(segs: Seq<Seq<u8>>) -> u64
    decreases segs.len(),
{
    if segs.len() == 0 {
        0
    } else {
        dead_from(replay(segs.drop_last()), replay_dead(segs.drop_last()), segs.last(), 0)
    }
}

/// The generation of the last non-empty segment, or zero.
pub open spec fn last_live_gen(segs: Seq<Segment>) -> u64
    decreases segs.len(),
{
    if segs.len() == 0 {
        0
    } else if segs.last().data@.len() > 0 {
        segs.last().generation
    } else {
        last_live_gen(segs.drop_last())
    }
}

/// Replay from `o` passes over whole records up to the very end of `d`.
pub open spec fn reaches(d: Seq<u8>, o: int) -> bool
    decreases d.len() - o,
{
    if o == d.len() {
        true
    } else if replayable(d, o) {
        reaches(d, o + len_at(d, o))
    } else {
        false
    }
}

/// From `o` on, `d` is a run of whole live records up to its very end:
/// it holds no dead byte.
pub open spec fn all_live(d: Seq<u8>, o: int) -> bool
    decreases d.len() - o,
{
    if o == d.len() {
        true
    } else if replayable(d, o) {
        ts_at(d, o) != 0 && all_live(d, o + len_at(d, o))
    } else {
        false
    }
}

/// Records of `e` read the same at `x` in `e` and at `d.len() + x` in `d + e`.
proof fn lemma_shift(m: Map<Seq<u8>, Seq<u8>>, d: Seq<u8>, e: Seq<u8>, x: int)
    requires
        0 <= x <= e.len(),
    ensures
        replay_from(m, d + e, d.len() + x) == replay_from(m, e, x),
        reaches(e, x) ==> reaches(d + e, d.len() + x),
        all_live(e, x) ==> all_live(d + e, d.len() + x),
    decreases e.len() - x,
{
    let de = d + e;
    let o = d.len() + x;
    if fits_at(e, x) {
        let l = len_at(e, x);
        assert(de.subrange(o, o + l) =~= e.subrange(x, x + l));
        lemma_window(e, x, de, o);
    } else if fits_at(de, o) {
        let l = len_at(de, o);
        assert(e.subrange(x, x + l) =~= de.subrange(o, o + l));
        lemma_window(de, o, e, x);
    }
    if replayable(e, x) {
        let m2 = if ts_at(e, x) == 0 {
            m
        } else {
            m.insert(key_at(e, x), value_at(e, x))
        };
        lemma_shift(m2, d, e, x + len_at(e, x));
    }
}

/// Replaying `d + e` from a point of `d` whose records reach the end of `d`
/// replays `d` and then `e`.
proof fn lemma_replay_concat(m: Map<Seq<u8>, Seq<u8>>, d: Seq<u8>, e: Seq<u8>, o: int)
    requires
        0 <= o <= d.len(),
        reaches(d, o),
    ensures
        replay_from(m, d + e, o) == replay_from(replay_from(m, d, o), e, 0),
        reaches(e, 0) ==> reaches(d + e, o),
        all_live(d, o) && all_live(e, 0) ==> all_live(d + e, o),
    decreases d.len() - o,
{
    if o == d.len() {
        lemma_shift(m, d, e, 0);
    } else {
        let l = len_at(d, o);
        assert((d + e).subrange(o, o + l) =~= d.subrange(o, o + l));
        lemma_window(d, o, d + e, o);
        let m2 = if ts_at(d, o) == 0 {
            m
        } else {
            m.insert(key_at(d, o), value_at(d, o))
        };
        lemma_replay_concat(m2, d, e, o + l);
    }
}

/// The byte images of the segments.
pub open spec fn images(segs: Seq<Segment>) -> Seq<Seq<u8>> {
    segs.map_values(|s: Segment| s.data@)
}

/// Replay from `o` reads only the bytes from `o` on.
proof fn lemma_replay_suffix(m: Map<Seq<u8>, Seq<u8>>, d1: Seq<u8>, d2: Seq<u8>, o: int)
    requires
        0 <= o,
        d1.len() == d2.len(),
        forall|x: int| o <= x < d1.len() ==> d1[x] == d2[x],
    ensures
        replay_from(m, d1, o) == replay_from(m, d2, o),
    decreases d1.len() - o,
{
    if fits_at(d1, o) {
        let l = len_at(d1, o);
        assert(d2.subrange(o, o + l) =~= d1.subrange(o, o + l));
        lemma_window(d1, o, d2, o);
    } else if fits_at(d2, o) {
        let l = len_at(d2, o);
        assert(d1.subrange(o, o + l) =~= d2.subrange(o, o + l));
        lemma_window(d2, o, d1, o);
    }
    if replayable(d1, o) {
        let m2 = if ts_at(d1, o) == 0 {
            m
        } else {
            m.insert(key_at(d1, o), value_at(d1, o))
        };
        lemma_replay_suffix(m2, d1, d2, o + len_at(d1, o));
    }
}

/// Replaying one more segment continues from the contents of those before.
proof fn lemma_replay_step(segs: Seq<Segment>, s: int)
    requires
        0 <= s < segs.len(),
    ensures
        replay(images(segs.subrange(0, s + 1))) == replay_from(replay(images(segs.subrange(0, s))), segs[s].data@, 0),
{
    let a = images(segs.subrange(0, s + 1));
    assert(a.drop_last() =~= images(segs.subrange(0, s)));
    assert(a.last() == segs[s].data@);
}

/// Adding a segment of a newer generation keeps every record that an entry
/// names.
proof fn lemma_push_keeps(segs: Seq<Segment>, seg: Segment, key: Seq<u8>, e: DataIndex, v: Seq<u8>)
    requires
        forall|j: int| 0 <= j < segs.len() ==> segs[j].generation < seg.generation,
        points_into(segs, key, e),
        value_in(segs, e, v),
    ensures
        points_into(segs.push(seg), key, e),
        value_in(segs.push(seg), e, v),
{
    let segs1 = segs.push(seg);
    let w = choose|j: int| 0 <= j < segs.len() && segs[j].generation == e.n;
    assert(segs1[w] == segs[w]);
    assert forall|j: int| 0 <= j < segs1.len() && segs1[j].generation == e.n implies record_ok(
        segs1[j].data@,
        key,
        e,
    ) && value_at(segs1[j].data@, e.pos as int) == v by {
        if j < segs.len() {
            assert(segs1[j] == segs[j]);
        }
    }
}

/// The files of the segments: each generation mapped to its bytes.
pub open spec fn files_of(segs: Seq<Segment>) -> Map<u64, Seq<u8>>
    decreases segs.len(),
{
    if segs.len() == 0 {
        Map::empty()
    } else {
        files_of(segs.drop_last()).insert(segs.last().generation, segs.last().data@)
    }
}

/// The files after one disk operation.
pub open spec fn apply_op(files: Map<u64, Seq<u8>>, op: DiskOp) -> Map<u64, Seq<u8>> {
    match op {
        DiskOp::Create { generation } => if files.contains_key(generation) {
            files
        } else {
            files.insert(generation, Seq::empty())
        },
        DiskOp::Append { generation, offset, bytes } => files.insert(generation, files[generation] + bytes@),
        DiskOp::ZeroTimestamp { generation, offset } => files.insert(
            generation,
            zero_ts(files[generation], offset as int),
        ),
        DiskOp::Delete { generation } => files.remove(generation),
    }
}

/// The files after a sequence of disk operations, first to last.
pub open spec fn apply_ops(files: Map<u64, Seq<u8>>, ops: Seq<DiskOp>) -> Map<u64, Seq<u8>>
    decreases ops.len(),
{
    if ops.len() == 0 {
        files
    } else {
        apply_op(apply_ops(files, ops.drop_last()), ops.last())
    }
}

proof fn lemma_apply_push(files: Map<u64, Seq<u8>>, ops: Seq<DiskOp>, op: DiskOp)
    ensures
        apply_ops(files, ops.push(op)) == apply_op(apply_ops(files, ops), op),
{
    assert(ops.push(op).drop_last() =~= ops);
}

proof fn lemma_apply_concat(files: Map<u64, Seq<u8>>, a: Seq<DiskOp>, b: Seq<DiskOp>)
    ensures
        apply_ops(files, a + b) == apply_ops(apply_ops(files, a), b),
    decreases b.len(),
{
    if b.len() == 0 {
        assert(a + b =~= a);
    } else {
        assert((a + b).drop_last() =~= a + b.drop_last());
        lemma_apply_concat(files, a, b.drop_last());
    }
}

/// Zeroing a timestamp in one segment, as a change of its file.
proof fn lemma_zero_files(segs: Seq<Segment>, segs2: Seq<Segment>, j: int, p: u64)
    requires
        sorted(segs),
        0 <= j < segs.len(),
        segs2.len() == segs.len(),
        forall|i: int| 0 <= i < segs.len() && i != j ==> segs2[i] == segs[i],
        segs2[j].generation == segs[j].generation,
        segs2[j].data@ == zero_ts(segs[j].data@, p as int),
    ensures
        files_of(segs2) == apply_op(files_of(segs), DiskOp::ZeroTimestamp { generation: segs[j].generation, offset: p }),
        sorted(segs2),
{
    lemma_files_index(segs);
    assert(segs2 =~= segs.update(j, segs2[j]));
    lemma_files_update(segs, j, segs2[j]);
}

/// The timestamp a new record carries for a clock reading `now`: zero marks
/// a dead record, so a zero reading is stamped as one.
pub fn record_timestamp(now: u64) -> (r: u64)
    ensures
        r == (if now == 0 { 1 } else { now }),
{
    if now == 0 {
        1
    } else {
        now
    }
}

/// `files` with the timestamp of the record that `e` names set to zero.
pub open spec fn mark_dead(files: Map<u64, Seq<u8>>, e: DataIndex) -> Map<u64, Seq<u8>> {
    files.insert(e.n, zero_ts(files[e.n], e.pos as int))
}

pub open spec fn is_create(op: DiskOp, g: u64) -> bool {
    op matches DiskOp::Create { generation } && generation == g
}

/// `op` writes from the start of segment `g`.
pub open spec fn is_append_start(op: DiskOp, g: u64) -> bool {
    op matches DiskOp::Append { generation, offset, .. } && generation == g && offset == 0
}

pub open spec fn is_delete(op: DiskOp) -> bool {
    op matches DiskOp::Delete { .. }
}

/// From position `n` on, `ops` create segment `g` and write it from its
/// start, and every deletion comes after that write.
pub open spec fn rewrite_before_delete(ops: Seq<DiskOp>, g: u64, n: int) -> bool {
    &&& 0 <= n
    &&& n + 1 < ops.len()
    &&& is_create(ops[n], g)
    &&& is_append_start(ops[n + 1], g)
    &&& forall|i: int| 0 <= i < ops.len() && is_delete(#[trigger] ops[i]) ==> n + 1 < i
}

/// The generation that a disk operation acts on.
pub open spec fn op_gen(op: DiskOp) -> u64 {
    match op {
        DiskOp::Create { generation } => generation,
        DiskOp::Append { generation, .. } => generation,
        DiskOp::ZeroTimestamp { generation, .. } => generation,
        DiskOp::Delete { generation } => generation,
    }
}

/// Operations that leave generation `g` alone commute with a file of `g`.
proof fn lemma_apply_untouched(files: Map<u64, Seq<u8>>, ops: Seq<DiskOp>, g: u64, d: Seq<u8>)
    requires
        forall|i: int| 0 <= i < ops.len() ==> op_gen(#[trigger] ops[i]) != g,
    ensures
        apply_ops(files.insert(g, d), ops) == apply_ops(files, ops).insert(g, d),
    decreases ops.len(),
{
    if ops.len() > 0 {
        let rest = ops.drop_last();
        assert forall|i: int| 0 <= i < rest.len() implies op_gen(#[trigger] rest[i]) != g by {
            assert(rest[i] == ops[i]);
        }
        lemma_apply_untouched(files, rest, g, d);
        let x = apply_ops(files, rest);
        let op = ops.last();
        assert(op_gen(ops[ops.len() - 1]) != g);
        assert(apply_op(x.insert(g, d), op) =~= apply_op(x, op).insert(g, d));
    }
}

pub open spec fn sorted(segs: Seq<Segment>) -> bool {
    forall|i: int, j: int| 0 <= i < j < segs.len() ==> segs[i].generation < segs[j].generation
}

/// The files of sorted segments hold exactly their generations, each with
/// its bytes.
proof fn lemma_files_index(segs: Seq<Segment>)
    requires
        sorted(segs),
    ensures
        forall|j: int| 0 <= j < segs.len() ==> files_of(segs).contains_key(#[trigger] segs[j].generation)
            && files_of(segs)[segs[j].generation] == segs[j].data@,
        forall|g: u64| files_of(segs).contains_key(g) ==> has_gen(segs, g),
    decreases segs.len(),
{
    if segs.len() > 0 {
        let d = segs.drop_last();
        lemma_files_index(d);
        assert forall|j: int| 0 <= j < segs.len() implies files_of(segs).contains_key(#[trigger] segs[j].generation)
            && files_of(segs)[segs[j].generation] == segs[j].data@ by {
            if j < segs.len() - 1 {
                assert(d[j] == segs[j]);
            }
        }
        assert forall|g: u64| files_of(segs).contains_key(g) implies has_gen(segs, g) by {
            if g != segs.last().generation {
                assert(files_of(d).contains_key(g));
                assert(has_gen(d, g));
                let w = choose|j: int| 0 <= j < d.len() && d[j].generation == g;
                assert(segs[w] == d[w]);
            } else {
                assert(segs[segs.len() - 1].generation == g);
            }
        }
    }
}

/// Changing the bytes of one segment changes its file alone.
proof fn lemma_files_update(segs: Seq<Segment>, j: int, s2: Segment)
    requires
        sorted(segs),
        0 <= j < segs.len(),
        s2.generation == segs[j].generation,
    ensures
        files_of(segs.update(j, s2)) == files_of(segs).insert(s2.generation, s2.data@),
    decreases segs.len(),
{
    let u = segs.update(j, s2);
    if j == segs.len() - 1 {
        assert(u.drop_last() =~= segs.drop_last());
        assert(files_of(u) =~= files_of(segs).insert(s2.generation, s2.data@));
    } else {
        assert(u.drop_last() =~= segs.drop_last().update(j, s2));
        lemma_files_update(segs.drop_last(), j, s2);
        assert(segs.last().generation != s2.generation);
        assert(files_of(u) =~= files_of(segs).insert(s2.generation, s2.data@));
    }
}

impl View for KvStore {
    type V = Map<Seq<u8>, Seq<u8>>;

    /// The live keys and their values.
    closed spec fn view(&self) -> Map<Seq<u8>, Seq<u8>> {
        self.contents@
    }
}

impl KvStore {
    /// The store's internal invariant.
    pub closed spec fn wf(&self) -> bool {
        &&& self.segments@.len() >= 1
        &&& self.segments@[self.segments@.len() - 1].generation == self.nth
        &&& self.inv()
    }

    /// The invariant of the index over the segments, active segment aside.
    closed spec fn inv(&self) -> bool {
        let segs = self.segments@;
        let idx = self.indexes@;
        &&& forall|i: int, j: int| 0 <= i < j < segs.len() ==> segs[i].generation < segs[j].generation
        &&& forall|i: int, j: int| 0 <= i < j < idx.len() ==> idx[i].key@ != idx[j].key@
        &&& forall|i: int|
            #![trigger idx[i]]
            0 <= i < idx.len() ==> {
                &&& points_into(segs, idx[i].key@, idx[i].entry)
                &&& self.contents@.contains_key(idx[i].key@)
                &&& value_in(segs, idx[i].entry, self.contents@[idx[i].key@])
            }
        &&& forall|k: Seq<u8>|
            self.contents@.contains_key(k) ==> exists|i: int| 0 <= i < idx.len() && idx[i].key@ == k
        &&& forall|i: int, j: int|
            0 <= i < idx.len() && 0 <= j < idx.len() && i != j ==> disjoint(idx[i].entry, idx[j].entry)
    }

    /// The segment files: each generation mapped to its bytes.
    pub closed spec fn files(&self) -> Map<u64, Seq<u8>> {
        files_of(self.segments@)
    }

    /// Bytes of superseded or removed records not yet compacted away.
    pub closed spec fn dead_bytes(&self) -> u64 {
        self.uncompacted
    }

    /// Number of segments.
    pub closed spec fn segment_count(&self) -> nat {
        self.segments@.len()
    }

    /// Generation of the active segment.
    pub closed spec fn active_generation(&self) -> u64 {
        self.nth
    }

    /// Length of the live record of `k`.
    pub closed spec fn live_len(&self, k: Seq<u8>) -> u32 {
        self.entry_of(k).len
    }

    /// The index entry of `k`: where its live record lies.
    pub closed spec fn entry_of(&self, k: Seq<u8>) -> DataIndex {
        self.indexes@[choose|i: int| 0 <= i < self.indexes@.len() && self.indexes@[i].key@ == k].entry
    }

    /// The index invariant, in public terms: every live key's entry names a
    /// file of the store and, in it, a whole live record of `16 + |k| + |v|`
    /// bytes holding that key and its value.
    pub proof fn lemma_index(&self, k: Seq<u8>)
        requires
            self.wf(),
            self@.contains_key(k),
        ensures
            ({
                let e = self.entry_of(k);
                let d = self.files()[e.n];
                &&& self.files().contains_key(e.n)
                &&& e.n <= self.active_generation()
                &&& fits_at(d, e.pos as int)
                &&& len_at(d, e.pos as int) == e.len
                &&& ts_at(d, e.pos as int) == e.timestamp
                &&& e.timestamp != 0
                &&& key_at(d, e.pos as int) == k
                &&& value_at(d, e.pos as int) == self@[k]
                &&& e.len == 16 + k.len() + self@[k].len()
                &&& self.live_len(k) == e.len
            }),
    {
        let segs = self.segments@;
        let idx = self.indexes@;
        let i = choose|i: int| 0 <= i < idx.len() && idx[i].key@ == k;
        assert(idx[i] == idx[i]);
        let e = idx[i].entry;
        assert(self.entry_of(k) == e);
        let w = choose|j: int| 0 <= j < segs.len() && segs[j].generation == e.n;
        lemma_files_index(segs);
        assert(segs[w].generation == e.n);
        assert(record_ok(segs[w].data@, k, e));
        if w != segs.len() - 1 {
            assert(segs[w].generation < segs[segs.len() - 1].generation);
        }
        let d = segs[w].data@;
        assert(key_at(d, e.pos as int).len() == klen_at(d, e.pos as int));
        assert(value_at(d, e.pos as int).len() == vlen_at(d, e.pos as int));
    }

    /// Bytes of superseded or removed records not yet compacted away.
    pub fn uncompacted(&self) -> (r: u64)
        ensures
            r == self.dead_bytes(),
    {
        self.uncompacted
    }

    /// Generation of the active segment.
    pub fn generation(&self) -> (r: u64)
        ensures
            r == self.active_generation(),
    {
        self.nth
    }

    /// Number of segments.
    pub fn segment_len(&self) -> (r: usize)
        ensures
            r == self.segment_count(),
    {
        self.segments.len()
    }

    fn find_slot(&self, key: &Vec<u8>) -> (r: Option<usize>)
        requires
            self.wf(),
        ensures
            r is Some <==> self@.contains_key(key@),
            r matches Some(i) ==> i < self.indexes@.len() && self.indexes@[i as int].key@ == key@,
            r is None ==> forall|i: int| 0 <= i < self.indexes@.len() ==> self.indexes@[i].key@ != key@,
    {
        let mut i: usize = 0;
        while i < self.indexes.len()
            invariant
                self.wf(),
                i <= self.indexes@.len(),
                forall|k: int| 0 <= k < i ==> self.indexes@[k].key@ != key@,
            decreases self.indexes@.len() - i,
        {
            if bytes_eq(&self.indexes[i].key, key) {
                assert(self.indexes@[i as int] == self.indexes@[i as int]);
                return Some(i);
            }
            i = i + 1;
        }
        None
    }

    fn find_segment(&self, g: u64) -> (r: usize)
        requires
            has_gen(self.segments@, g),
        ensures
            r < self.segments@.len(),
            self.segments@[r as int].generation == g,
    {
        let mut i: usize = 0;
        while i < self.segments.len()
            invariant
                has_gen(self.segments@, g),
                i <= self.segments@.len(),
                forall|k: int| 0 <= k < i ==> self.segments@[k].generation != g,
            decreases self.segments@.len() - i,
        {
            if self.segments[i].generation == g {
                return i;
            }
            i = i + 1;
        }
        i
    }

    /// The value of `key`, or `KeyNotFound` where the store holds none.
    pub fn get(&self, key: &Vec<u8>) -> (r: Result<Vec<u8>, KvsError>)
        requires
            self.wf(),
        ensures
            self@.contains_key(key@) ==> r is Ok && r->Ok_0@ == self@[key@],
            !self@.contains_key(key@) ==> r == Err::<Vec<u8>, KvsError>(KvsError::KeyNotFound),
    {
        match self.find_slot(key) {
            None => Err(KvsError::KeyNotFound),
            Some(i) => {
                let e = self.indexes[i].entry;
                assert(points_into(self.segments@, self.indexes@[i as int].key@, e));
                let j = self.find_segment(e.n);
                let d = &self.segments[j].data;
                let data_len = d.len();  // bounds the offsets below by usize::MAX
                assert(fits_at(d@, e.pos as int));
                let p = e.pos as usize;
                match decode_header(d, p) {
                    Ok(h) => {
                        let start = p + HEADER_LEN + h.key_len as usize;
                        let end = start + h.value_len as usize;
                        Ok(copy_range(d, start, end))
                    },
                    Err(err) => Err(err),
                }
            },
        }
    }
}


impl KvStore {
    /// Points the index entry of `key` at the live record `entry` of the
    /// active segment, marking the record it supersedes dead.
    fn adopt(&mut self, key: Vec<u8>, entry: DataIndex, ops: &mut Vec<DiskOp>, Ghost(v): Ghost<Seq<u8>>)
        requires
            old(self).wf(),
            entry.n == old(self).nth,
            record_ok(old(self).segments@[old(self).segments@.len() - 1].data@, key@, entry),
            value_at(old(self).segments@[old(self).segments@.len() - 1].data@, entry.pos as int) == v,
            forall|i: int|
                #![trigger old(self).indexes@[i]]
                0 <= i < old(self).indexes@.len() && old(self).indexes@[i].entry.n == old(self).nth
                    ==> old(self).indexes@[i].entry.pos + old(self).indexes@[i].entry.len <= entry.pos,
        ensures
            final(self).wf(),
            final(self)@ == old(self)@.insert(key@, v),
            final(self).nth == old(self).nth,
            final(self).segments@.len() == old(self).segments@.len(),
            forall|j: int| 0 <= j < old(self).segments@.len()
                ==> #[trigger] final(self).segments@[j].generation == old(self).segments@[j].generation,
            final(self).uncompacted == (if old(self)@.contains_key(key@) {
                sat_add(old(self).uncompacted, old(self).live_len(key@) as int)
            } else {
                old(self).uncompacted
            }),
            ({
                let last = old(self).segments@.len() - 1;
                let d0 = old(self).segments@[last].data@;
                let d1 = final(self).segments@[last].data@;
                &&& d1.len() == d0.len()
                &&& forall|x: int| entry.pos <= x < d0.len() ==> d1[x] == d0[x]
            }),
            forall|i: int|
                #![trigger final(self).indexes@[i]]
                0 <= i < final(self).indexes@.len() && final(self).indexes@[i].entry.n == final(self).nth
                    ==> final(self).indexes@[i].entry.pos + final(self).indexes@[i].entry.len <= entry.pos + entry.len,
            final(self).live_len(key@) == entry.len,
            final(self).entry_of(key@) == entry,
            final(self).files() == (if old(self)@.contains_key(key@) {
                mark_dead(old(self).files(), old(self).entry_of(key@))
            } else {
                old(self).files()
            }),
            final(ops)@.len() >= old(ops)@.len(),
            final(ops)@.subrange(0, old(ops)@.len() as int) == old(ops)@,
            apply_ops(old(self).files(), final(ops)@.subrange(old(ops)@.len() as int, final(ops)@.len() as int))
                == final(self).files(),
            forall|i: int| old(ops)@.len() <= i < final(ops)@.len() ==> op_gen(#[trigger] final(ops)@[i]) <= old(self).nth,
            forall|i: int| old(ops)@.len() <= i < final(ops)@.len() ==> !is_delete(#[trigger] final(ops)@[i]),
            forall|k: Seq<u8>|
                #![trigger final(self).entry_of(k)]
                old(self)@.contains_key(k) && k != key@ ==> final(self).entry_of(k) == old(self).entry_of(k),
    {
        let ghost kv = key@;
        let ghost ops0 = ops@;
        let ghost segs1 = self.segments@;
        let ghost idx0 = self.indexes@;
        let ghost last = segs1.len() - 1;
        let slot = self.find_slot(&key);
        proof {
            assert forall|j: int| 0 <= j < segs1.len() && segs1[j].generation == entry.n implies record_ok(
                segs1[j].data@, key@, entry) && value_at(segs1[j].data@, entry.pos as int) == v by {
                if j != last {
                    assert(segs1[j].generation < segs1[last].generation);
                }
            }
            assert(has_gen(segs1, entry.n));
            assert forall|i: int| 0 <= i < idx0.len() implies disjoint(idx0[i].entry, entry) by {
                assert(idx0[i] == idx0[i]);
            }
        }
        match slot {
            None => {
                self.indexes.push(Slot { key, entry });
                self.contents = Ghost(self.contents@.insert(kv, v));
                proof {
                    let idx = self.indexes@;
                    assert(idx[idx0.len() as int].key@ == kv);
                    assert forall|k: Seq<u8>| self.contents@.contains_key(k) implies exists|i: int|
                        0 <= i < idx.len() && idx[i].key@ == k by {
                        if k != kv {
                            let i = choose|i: int| 0 <= i < idx0.len() && idx0[i].key@ == k;
                            assert(idx[i] == idx0[i]);
                        }
                    }
                    assert forall|i: int| #![trigger idx[i]] 0 <= i < idx.len() implies {
                        &&& points_into(self.segments@, idx[i].key@, idx[i].entry)
                        &&& self.contents@.contains_key(idx[i].key@)
                        &&& value_in(self.segments@, idx[i].entry, self.contents@[idx[i].key@])
                    } by {
                        if i < idx0.len() {
                            assert(idx[i] == idx0[i]);
                        }
                    }
                    assert forall|i: int, j: int| 0 <= i < idx.len() && 0 <= j < idx.len() && i != j implies disjoint(idx[i].entry, idx[j].entry) by {
                        if i < idx0.len() && j < idx0.len() {
                            assert(idx[i] == idx0[i]);
                            assert(idx[j] == idx0[j]);
                        } else if i < idx0.len() {
                            assert(idx[i] == idx0[i]);
                        } else {
                            assert(idx[j] == idx0[j]);
                        }
                    }
                    assert forall|i: int| #![trigger idx[i]] 0 <= i < idx.len() && idx[i].entry.n == self.nth
                        implies idx[i].entry.pos + idx[i].entry.len <= entry.pos + entry.len by {
                        if i < idx0.len() {
                            assert(idx[i] == idx0[i]);
                        }
                    }
                    assert(self.entry_of(kv) == entry) by {
                        let c = choose|m: int| 0 <= m < idx.len() && idx[m].key@ == kv;
                        if c < idx0.len() {
                            assert(idx[c] == idx0[c]);
                        }
                        assert(c == idx0.len());
                    }
                    assert forall|k: Seq<u8>| #![trigger self.entry_of(k)] old(self)@.contains_key(k) && k != kv
                        implies self.entry_of(k) == old(self).entry_of(k) by {
                        let c0 = choose|m: int| 0 <= m < idx0.len() && idx0[m].key@ == k;
                        assert(idx[c0] == idx0[c0]);
                        let c = choose|m: int| 0 <= m < idx.len() && idx[m].key@ == k;
                        if c < idx0.len() {
                            assert(idx[c] == idx0[c]);
                        }
                        assert(c == c0);
                    }
                    assert(ops@.subrange(0, ops0.len() as int) =~= ops0);
                    assert(ops@.subrange(ops0.len() as int, ops@.len() as int) =~= Seq::<DiskOp>::empty());
                }
            },
            Some(i) => {
                let old_e = self.indexes[i].entry;
                self.indexes.set(i, Slot { key, entry });
                self.uncompacted = self.uncompacted.saturating_add(old_e.len as u64);
                proof {
                    assert(idx0[i as int] == idx0[i as int]);
                    assert(points_into(segs1, kv, old_e));
                }
                let j = self.find_segment(old_e.n);
                proof {
                    assert(record_ok(segs1[j as int].data@, kv, old_e));
                }
                let data_len = self.segments[j].data.len();  // bounds the offsets below by usize::MAX
                zero_timestamp(&mut self.segments[j].data, old_e.pos as usize);
                ops.push(DiskOp::ZeroTimestamp { generation: old_e.n, offset: old_e.pos });
                self.contents = Ghost(self.contents@.insert(kv, v));
                proof {
                    let segs2 = self.segments@;
                    let idx = self.indexes@;
                    assert(idx0[i as int].key@ == kv);
                    assert forall|k: Seq<u8>| self.contents@.contains_key(k) implies exists|m: int|
                        0 <= m < idx.len() && idx[m].key@ == k by {
                        if k != kv {
                            let m = choose|m: int| 0 <= m < idx0.len() && idx0[m].key@ == k;
                            assert(idx[m] == idx0[m]);
                        } else {
                            assert(idx[i as int].key@ == kv);
                        }
                    }
                    assert forall|m: int| #![trigger idx[m]] 0 <= m < idx.len() implies {
                        &&& points_into(segs2, idx[m].key@, idx[m].entry)
                        &&& self.contents@.contains_key(idx[m].key@)
                        &&& value_in(segs2, idx[m].entry, self.contents@[idx[m].key@])
                    } by {
                        if m != i {
                            assert(idx[m] == idx0[m]);
                            assert(idx0[m].key@ != kv);
                            lemma_zero_keeps(segs1, segs2, j as int, old_e, idx0[m].key@, idx0[m].entry, self.contents@[idx0[m].key@]);
                        } else {
                            assert(disjoint(old_e, entry));
                            lemma_zero_keeps(segs1, segs2, j as int, old_e, kv, entry, v);
                        }
                    }
                    assert forall|a: int, b: int| 0 <= a < idx.len() && 0 <= b < idx.len() && a != b implies disjoint(idx[a].entry, idx[b].entry) by {
                        if a != i && b != i {
                            assert(idx[a] == idx0[a]);
                            assert(idx[b] == idx0[b]);
                        } else if a != i {
                            assert(idx[a] == idx0[a]);
                        } else {
                            assert(idx[b] == idx0[b]);
                        }
                    }
                    assert forall|a: int, b: int| 0 <= a < b < idx.len() implies idx[a].key@ != idx[b].key@ by {
                        if a != i {
                            assert(idx[a] == idx0[a]);
                        }
                        if b != i {
                            assert(idx[b] == idx0[b]);
                        }
                    }
                    assert(old(self).entry_of(kv) == old_e) by {
                        let c = choose|m: int| 0 <= m < idx0.len() && idx0[m].key@ == kv;
                        assert(c == i);
                    }
                    assert forall|m: int| #![trigger idx[m]] 0 <= m < idx.len() && idx[m].entry.n == self.nth
                        implies idx[m].entry.pos + idx[m].entry.len <= entry.pos + entry.len by {
                        if m != i {
                            assert(idx[m] == idx0[m]);
                        }
                    }
                    lemma_zero_files(segs1, segs2, j as int, old_e.pos);
                    if j != last {
                        assert(segs1[j as int].generation < segs1[last].generation);
                    }
                    assert(ops@.subrange(0, ops0.len() as int) =~= ops0);
                    let extra = ops@.subrange(ops0.len() as int, ops@.len() as int);
                    assert(extra =~= Seq::<DiskOp>::empty().push(DiskOp::ZeroTimestamp { generation: old_e.n, offset: old_e.pos }));
                    lemma_apply_push(files_of(segs1), Seq::<DiskOp>::empty(), DiskOp::ZeroTimestamp { generation: old_e.n, offset: old_e.pos });
                    assert(self.entry_of(kv) == entry) by {
                        assert(idx[i as int].key@ == kv);
                        let c = choose|m: int| 0 <= m < idx.len() && idx[m].key@ == kv;
                        if c != i {
                            assert(idx[c] == idx0[c]);
                        }
                        assert(c == i);
                    }
                    assert forall|k: Seq<u8>| #![trigger self.entry_of(k)] old(self)@.contains_key(k) && k != kv
                        implies self.entry_of(k) == old(self).entry_of(k) by {
                        let c0 = choose|m: int| 0 <= m < idx0.len() && idx0[m].key@ == k;
                        assert(c0 != i);
                        assert(idx[c0] == idx0[c0]);
                        let c = choose|m: int| 0 <= m < idx.len() && idx[m].key@ == k;
                        if c != i {
                            assert(idx[c] == idx0[c]);
                        }
                        assert(c == c0);
                    }
                    if j as int == last {
                        assert(old_e.pos + old_e.len <= entry.pos);
                        lemma_zero_outside(segs1[last].data@, old_e.pos as int);
                    } else {
                        assert(segs2[last] == segs1[last]);
                    }
                }
            },
        }
    }

    /// Appends a record of `key` and `value` to the active segment, points
    /// the index at it and marks the record it supersedes dead.
    fn record(&mut self, key: Vec<u8>, value: Vec<u8>, ts: u64) -> (ops: Vec<DiskOp>)
        requires
            old(self).wf(),
            ts != 0,
            key@.len() + value@.len() + 16 <= u32::MAX,
        ensures
            final(self).wf(),
            final(self)@ == old(self)@.insert(key@, value@),
            final(self).nth == old(self).nth,
            final(self).segments@.len() == old(self).segments@.len(),
            final(self).live_len(key@) == 16 + key@.len() + value@.len(),
            apply_ops(old(self).files(), ops@) == final(self).files(),
            final(self).entry_of(key@) == (DataIndex {
                n: old(self).nth,
                pos: old(self).files()[old(self).nth].len() as u64,
                len: (16 + key@.len() + value@.len()) as u32,
                timestamp: ts,
            }),
            final(self).files() == old(self).files_after_set(key@, record_bytes(ts, key@, value@)),
            forall|i: int| 0 <= i < ops@.len() ==> !is_delete(#[trigger] ops@[i]),
            forall|k: Seq<u8>|
                #![trigger final(self).entry_of(k)]
                old(self)@.contains_key(k) && k != key@ ==> final(self).entry_of(k) == old(self).entry_of(k),
            final(self).uncompacted == (if old(self)@.contains_key(key@) {
                sat_add(old(self).uncompacted, old(self).live_len(key@) as int)
            } else {
                old(self).uncompacted
            }),
    {
        let ghost segs0 = self.segments@;
        let ghost idx0 = self.indexes@;
        let rec = encode_record(ts, &key, &value);
        let last = self.segments.len() - 1;
        let pos = self.segments[last].data.len() as u64;
        let len = (HEADER_LEN + key.len() + value.len()) as u32;
        let mut tail = copy_range(&rec, 0, rec.len());
        assert(tail@ =~= rec@);
        self.segments[last].data.append(&mut tail);
        let ghost segs1 = self.segments@;
        let entry = DataIndex { n: self.nth, pos, len, timestamp: ts };
        proof {
            let d0 = segs0[last as int].data@;
            lemma_record_at_end(d0, ts, key@, value@);
            assert forall|i: int| #![trigger idx0[i]] 0 <= i < idx0.len() implies {
                &&& points_into(segs1, idx0[i].key@, idx0[i].entry)
                &&& self.contents@.contains_key(idx0[i].key@)
                &&& value_in(segs1, idx0[i].entry, self.contents@[idx0[i].key@])
            } by {
                lemma_append_keeps(segs0, segs1, last as int, rec@, idx0[i].key@, idx0[i].entry, self.contents@[idx0[i].key@]);
            }
            assert forall|i: int, j: int| 0 <= i < j < segs1.len() implies segs1[i].generation < segs1[j].generation by {
                assert(segs1[i].generation == segs0[i].generation);
                assert(segs1[j].generation == segs0[j].generation);
            }
            assert(self.indexes@ == idx0);
            assert forall|i: int| #![trigger idx0[i]] 0 <= i < idx0.len() && idx0[i].entry.n == self.nth
                implies idx0[i].entry.pos + idx0[i].entry.len <= entry.pos by {
                let e = idx0[i].entry;
                let w = choose|j: int| 0 <= j < segs0.len() && segs0[j].generation == e.n;
                if w != last {
                    assert(segs0[w].generation < segs0[last as int].generation);
                }
                assert(record_ok(segs0[last as int].data@, idx0[i].key@, e));
            }
        }
        let mut ops: Vec<DiskOp> = Vec::new();
        ops.push(DiskOp::Append { generation: self.nth, offset: pos, bytes: rec });
        let ghost ops1 = ops@;
        proof {
            lemma_files_index(segs0);
            assert(segs1 =~= segs0.update(last as int, segs1[last as int]));
            lemma_files_update(segs0, last as int, segs1[last as int]);
            assert(ops1 =~= Seq::<DiskOp>::empty().push(ops1[0]));
            lemma_apply_push(files_of(segs0), Seq::<DiskOp>::empty(), ops1[0]);
            assert(files_of(segs1) =~= apply_ops(files_of(segs0), ops1));
        }
        proof {
            assert(self.indexes@ == idx0);
            assert(self.entry_of(key@) == old(self).entry_of(key@));
            assert forall|k: Seq<u8>| #[trigger] self.entry_of(k) == old(self).entry_of(k) by {}
            assert(self.files() == old(self).files().insert(self.nth, old(self).files()[self.nth] + rec@));
        }
        self.adopt(key, entry, &mut ops, Ghost(value@));
        proof {
            let extra = ops@.subrange(ops1.len() as int, ops@.len() as int);
            assert(ops@ =~= ops1 + extra);
            lemma_apply_concat(files_of(segs0), ops1, extra);
            assert forall|i: int| 0 <= i < ops@.len() implies !is_delete(#[trigger] ops@[i]) by {
                if i < ops1.len() {
                    assert(ops@[i] == ops1[i]);
                }
            }
        }
        ops
    }
}

impl KvStore {
    /// Drops the index entry of `key` and marks its record dead.
    fn unlink(&mut self, key: &Vec<u8>) -> (r: Result<Vec<DiskOp>, KvsError>)
        requires
            old(self).wf(),
        ensures
            final(self).wf(),
            final(self).nth == old(self).nth,
            final(self).segments@.len() == old(self).segments@.len(),
            old(self)@.contains_key(key@) ==> r is Ok && final(self)@ == old(self)@.remove(key@)
                && final(self).uncompacted == sat_add(old(self).uncompacted, old(self).live_len(key@) as int),
            r matches Ok(ops) ==> apply_ops(old(self).files(), ops@) == final(self).files(),
            r matches Ok(ops) ==> forall|i: int| 0 <= i < ops@.len() ==> !is_delete(#[trigger] ops@[i]),
            forall|k: Seq<u8>|
                #![trigger final(self).entry_of(k)]
                old(self)@.contains_key(k) && k != key@ ==> final(self).entry_of(k) == old(self).entry_of(k),
            old(self)@.contains_key(key@) ==> final(self).files() == mark_dead(old(self).files(), old(self).entry_of(key@)),
            !old(self)@.contains_key(key@) ==> r == Err::<Vec<DiskOp>, KvsError>(KvsError::KeyNotFound)
                && final(self)@ == old(self)@ && final(self).uncompacted == old(self).uncompacted
                && final(self).files() == old(self).files(),
    {
        let ghost segs0 = self.segments@;
        let ghost idx0 = self.indexes@;
        let ghost kv = key@;
        match self.find_slot(key) {
            None => Err(KvsError::KeyNotFound),
            Some(i) => {
                let old_e = self.indexes[i].entry;
                let gone = self.indexes.remove(i);
                self.uncompacted = self.uncompacted.saturating_add(old_e.len as u64);
                proof {
                    assert(idx0[i as int] == idx0[i as int]);
                    assert(points_into(segs0, kv, old_e));
                }
                let j = self.find_segment(old_e.n);
                proof {
                    assert(record_ok(segs0[j as int].data@, kv, old_e));
                }
                let data_len = self.segments[j].data.len();  // bounds the offsets below by usize::MAX
                zero_timestamp(&mut self.segments[j].data, old_e.pos as usize);
                let mut ops: Vec<DiskOp> = Vec::new();
                ops.push(DiskOp::ZeroTimestamp { generation: old_e.n, offset: old_e.pos });
                self.contents = Ghost(self.contents@.remove(kv));
                proof {
                    let segs2 = self.segments@;
                    let idx = self.indexes@;
                    assert forall|m: int| 0 <= m < idx.len() implies #[trigger] idx[m] == idx0[if m < i { m } else { m + 1 }] by {}
                    assert forall|k: Seq<u8>| self.contents@.contains_key(k) implies exists|m: int|
                        0 <= m < idx.len() && idx[m].key@ == k by {
                        let m = choose|m: int| 0 <= m < idx0.len() && idx0[m].key@ == k;
                        assert(m != i);
                        if m < i {
                            assert(idx[m] == idx0[m]);
                        } else {
                            assert(idx[m - 1] == idx0[m]);
                        }
                    }
                    assert forall|m: int| #![trigger idx[m]] 0 <= m < idx.len() implies {
                        &&& points_into(segs2, idx[m].key@, idx[m].entry)
                        &&& self.contents@.contains_key(idx[m].key@)
                        &&& value_in(segs2, idx[m].entry, self.contents@[idx[m].key@])
                    } by {
                        let m0 = if m < i { m } else { m + 1 };
                        assert(idx[m] == idx0[m0]);
                        assert(idx0[m0] == idx0[m0]);
                        assert(idx0[m0].key@ != kv);
                        assert(disjoint(old_e, idx0[m0].entry));
                        lemma_zero_keeps(segs0, segs2, j as int, old_e, idx0[m0].key@, idx0[m0].entry, old(self).contents@[idx0[m0].key@]);
                    }
                    assert forall|a: int, b: int| 0 <= a < idx.len() && 0 <= b < idx.len() && a != b implies disjoint(idx[a].entry, idx[b].entry) by {
                        assert(idx[a] == idx0[if a < i { a } else { a + 1 }]);
                        assert(idx[b] == idx0[if b < i { b } else { b + 1 }]);
                    }
                    assert forall|a: int, b: int| 0 <= a < b < idx.len() implies idx[a].key@ != idx[b].key@ by {
                        assert(idx[a] == idx0[if a < i { a } else { a + 1 }]);
                        assert(idx[b] == idx0[if b < i { b } else { b + 1 }]);
                    }
                    assert(old(self).entry_of(kv) == old_e) by {
                        let c = choose|m: int| 0 <= m < idx0.len() && idx0[m].key@ == kv;
                        assert(c == i);
                    }
                    lemma_zero_files(segs0, segs2, j as int, old_e.pos);
                    assert forall|k: Seq<u8>| #![trigger self.entry_of(k)] old(self)@.contains_key(k) && k != kv
                        implies self.entry_of(k) == old(self).entry_of(k) by {
                        let c0 = choose|m: int| 0 <= m < idx0.len() && idx0[m].key@ == k;
                        assert(c0 != i);
                        let n0 = if c0 < i { c0 } else { c0 - 1 };
                        assert(idx[n0] == idx0[c0]);
                        let c = choose|m: int| 0 <= m < idx.len() && idx[m].key@ == k;
                        let cm = if c < i { c } else { c + 1 };
                        assert(idx[c] == idx0[cm]);
                        assert(cm == c0);
                    }
                    assert(ops@ =~= Seq::<DiskOp>::empty().push(ops@[0]));
                    lemma_apply_push(files_of(segs0), Seq::<DiskOp>::empty(), ops@[0]);
                }
                Ok(ops)
            },
        }
    }
}


impl KvStore {
    /// Rewrites every live record, unchanged, into one new segment whose
    /// generation follows the active one, and drops all older segments.
    pub fn compact(&mut self) -> (ops: Vec<DiskOp>)
        requires
            old(self).wf(),
            old(self).active_generation() < u64::MAX,
        ensures
            final(self).wf(),
            final(self)@ == old(self)@,
            final(self).dead_bytes() == 0,
            final(self).segment_count() == 1,
            forall|k: Seq<u8>| old(self)@.contains_key(k) ==> #[trigger] final(self).live_len(k) == old(self).live_len(k),
            final(self).active_generation() == old(self).active_generation() + 1,
            apply_ops(old(self).files(), ops@) == final(self).files(),
            forall|g: u64| #[trigger] final(self).files().contains_key(g) <==> g == final(self).active_generation(),
            replay(Seq::<Seq<u8>>::empty().push(final(self).files()[final(self).active_generation()])) == final(self)@,
            all_live(final(self).files()[final(self).active_generation()], 0),
            ops@.len() >= 2,
            is_create(ops@[0], final(self).active_generation()),
            is_append_start(ops@[1], final(self).active_generation()),
            forall|i: int| 2 <= i < ops@.len() ==> is_delete(#[trigger] ops@[i]),
            forall|k: Seq<u8>|
                #![trigger final(self).entry_of(k)]
                old(self)@.contains_key(k) ==> {
                    &&& final(self).entry_of(k).n == final(self).active_generation()
                    &&& final(self).entry_of(k).timestamp == old(self).entry_of(k).timestamp
                    &&& final(self).entry_of(k).len == old(self).entry_of(k).len
                },
    {
        let g = self.nth + 1;
        let mut data: Vec<u8> = Vec::new();
        let mut fresh: Vec<Slot> = Vec::new();
        let mut i: usize = 0;
        while i < self.indexes.len()
            invariant
                self.wf(),
                g == self.nth + 1,
                i <= self.indexes@.len(),
                fresh@.len() == i,
                forall|k: int| #![trigger fresh@[k]] 0 <= k < i ==> {
                    &&& fresh@[k].key@ == self.indexes@[k].key@
                    &&& fresh@[k].entry.n == g
                    &&& fresh@[k].entry.len == self.indexes@[k].entry.len
                    &&& fresh@[k].entry.timestamp == self.indexes@[k].entry.timestamp
                    &&& record_ok(data@, fresh@[k].key@, fresh@[k].entry)
                    &&& value_at(data@, fresh@[k].entry.pos as int) == self@[fresh@[k].key@]
                    &&& fresh@[k].entry.pos + fresh@[k].entry.len <= data@.len()
                },
                forall|a: int, b: int| 0 <= a < i && 0 <= b < i && a != b ==> disjoint(fresh@[a].entry, fresh@[b].entry),
                reaches(data@, 0),
                all_live(data@, 0),
                forall|k: Seq<u8>|
                    #[trigger] replay_from(Map::empty(), data@, 0).contains_key(k) <==> exists|m: int|
                        0 <= m < i && self.indexes@[m].key@ == k,
                forall|k: Seq<u8>|
                    #[trigger] replay_from(Map::empty(), data@, 0).contains_key(k)
                        ==> replay_from(Map::empty(), data@, 0)[k] == self@[k],
            decreases self.indexes@.len() - i,
        {
            let e = self.indexes[i].entry;
            proof {
                assert(self.indexes@[i as int] == self.indexes@[i as int]);
            }
            let j = self.find_segment(e.n);
            let d = &self.segments[j].data;
            let data_len = d.len();  // bounds the offsets below by usize::MAX
            proof {
                assert(record_ok(d@, self.indexes@[i as int].key@, e));
            }
            let p = e.pos as usize;
            let newpos = data.len() as u64;
            let ghost data0 = data@;
            let mut bytes = copy_range(d, p, p + e.len as usize);
            let ghost rec = bytes@;
            proof {
                let kv = self.indexes@[i as int].key@;
                assert(rec.subrange(0, e.len as int) =~= d@.subrange(p as int, p + e.len));
                lemma_window(d@, p as int, rec, 0);
                assert(!fits_at(rec, e.len as int));
                assert(reaches(rec, e.len as int));
                assert(all_live(rec, e.len as int));
                assert(all_live(rec, 0));
                assert(replay_from(Map::empty(), rec, 0) == replay_from(Map::empty().insert(kv, self@[kv]), rec, e.len as int));
                let r0 = replay_from(Map::empty(), data0, 0);
                lemma_replay_concat(Map::empty(), data0, rec, 0);
                assert(replay_from(r0, rec, 0) == replay_from(r0.insert(kv, self@[kv]), rec, e.len as int));
                assert(data0 + rec == data0.add(rec));
            }
            data.append(&mut bytes);
            let key = copy_range(&self.indexes[i].key, 0, self.indexes[i].key.len());
            let ne = DataIndex { n: g, pos: newpos, len: e.len, timestamp: e.timestamp };
            let ghost fresh0 = fresh@;
            fresh.push(Slot { key, entry: ne });
            proof {
                let kv = self.indexes@[i as int].key@;
                assert(key@ =~= kv);
                assert(data@.subrange(newpos as int, newpos + e.len) =~= d@.subrange(p as int, p + e.len));
                lemma_window(d@, p as int, data@, newpos as int);
                let r0 = replay_from(Map::empty(), data0, 0);
                let r1 = replay_from(Map::empty(), data@, 0);
                assert(data@ == data0 + rec);
                assert(r1 == r0.insert(kv, self@[kv]));
                assert forall|k: Seq<u8>| #[trigger] r1.contains_key(k) <==> exists|m: int|
                    0 <= m < i + 1 && self.indexes@[m].key@ == k by {
                    if k == kv {
                        assert(self.indexes@[i as int].key@ == k);
                    } else if r1.contains_key(k) {
                        assert(r0.contains_key(k));
                    } else if exists|m: int| 0 <= m < i + 1 && self.indexes@[m].key@ == k {
                        let m = choose|m: int| 0 <= m < i + 1 && self.indexes@[m].key@ == k;
                        assert(m < i);
                        assert(r0.contains_key(k));
                    }
                }
                assert forall|k: Seq<u8>| #[trigger] r1.contains_key(k) implies r1[k] == self@[k] by {
                    if k != kv {
                        assert(r0.contains_key(k));
                    }
                }
                assert forall|k: int| #![trigger fresh@[k]] 0 <= k < i + 1 implies {
                    &&& fresh@[k].key@ == self.indexes@[k].key@
                    &&& fresh@[k].entry.n == g
                    &&& fresh@[k].entry.len == self.indexes@[k].entry.len
                    &&& fresh@[k].entry.timestamp == self.indexes@[k].entry.timestamp
                    &&& record_ok(data@, fresh@[k].key@, fresh@[k].entry)
                    &&& value_at(data@, fresh@[k].entry.pos as int) == self@[fresh@[k].key@]
                    &&& fresh@[k].entry.pos + fresh@[k].entry.len <= data@.len()
                } by {
                    if k < i {
                        assert(fresh@[k] == fresh0[k]);
                        let o = fresh0[k].entry.pos as int;
                        assert(data@.subrange(o, o + len_at(data0, o)) =~= data0.subrange(o, o + len_at(data0, o)));
                        lemma_window(data0, o, data@, o);
                    }
                }
                assert forall|a: int, b: int| 0 <= a < i + 1 && 0 <= b < i + 1 && a != b implies disjoint(fresh@[a].entry, fresh@[b].entry) by {
                    if a < i {
                        assert(fresh@[a] == fresh0[a]);
                    }
                    if b < i {
                        assert(fresh@[b] == fresh0[b]);
                    }
                }
            }
            i = i + 1;
        }
        let ghost f0 = files_of(self.segments@);
        let ghost segs0 = self.segments@;
        proof {
            lemma_files_index(segs0);
            assert forall|t: int| 0 <= t < segs0.len() implies segs0[t].generation < g by {
                if t != segs0.len() - 1 {
                    assert(segs0[t].generation < segs0[segs0.len() - 1].generation);
                }
            }
            if f0.contains_key(g) {
                assert(has_gen(segs0, g));
                let w = choose|j: int| 0 <= j < segs0.len() && segs0[j].generation == g;
                assert(segs0[w].generation < g);
            }
        }
        let mut ops: Vec<DiskOp> = Vec::new();
        ops.push(DiskOp::Create { generation: g });
        proof {
            lemma_apply_push(f0, Seq::<DiskOp>::empty(), ops@[0]);
            assert(ops@ =~= Seq::<DiskOp>::empty().push(ops@[0]));
        }
        let copy = copy_range(&data, 0, data.len());
        assert(copy@ =~= data@);
        let ghost ops1 = ops@;
        ops.push(DiskOp::Append { generation: g, offset: 0, bytes: copy });
        proof {
            lemma_apply_push(f0, ops1, ops@[1]);
            assert(ops@ =~= ops1.push(ops@[1]));
            assert(Seq::<u8>::empty() + data@ =~= data@);
            assert(apply_ops(f0, ops1) == f0.insert(g, Seq::<u8>::empty()));
            assert(apply_ops(f0, ops@) =~= f0.insert(g, data@));
        }
        let mut s: usize = 0;
        while s < self.segments.len()
            invariant
                s <= self.segments@.len(),
                segs0 == self.segments@,
                forall|x: u64| #[trigger] apply_ops(f0, ops@).contains_key(x) <==> (x == g || (f0.contains_key(x)
                    && forall|t: int| 0 <= t < s ==> segs0[t].generation != x)),
                apply_ops(f0, ops@).contains_key(g),
                apply_ops(f0, ops@)[g] == data@,
                forall|t: int| 0 <= t < segs0.len() ==> segs0[t].generation < g,
                ops@.len() == s + 2,
                is_create(ops@[0], g),
                is_append_start(ops@[1], g),
                forall|i: int| 2 <= i < ops@.len() ==> is_delete(#[trigger] ops@[i]),
            decreases self.segments@.len() - s,
        {
            let ghost before = ops@;
            ops.push(DiskOp::Delete { generation: self.segments[s].generation });
            proof {
                lemma_apply_push(f0, before, ops@[ops@.len() - 1]);
                assert(ops@ =~= before.push(ops@[ops@.len() - 1]));
            }
            s = s + 1;
        }
        proof {
            let fin = apply_ops(f0, ops@);
            let one = Seq::<Segment>::empty().push(Segment { generation: g, data });
            assert(one.drop_last() =~= Seq::<Segment>::empty());
            assert forall|x: u64| fin.contains_key(x) implies x == g by {
                if x != g {
                    assert(has_gen(segs0, x));
                    let w = choose|j: int| 0 <= j < segs0.len() && segs0[j].generation == x;
                    assert(segs0[w].generation != x);
                }
            }
            assert(files_of(Seq::<Segment>::empty()) == Map::<u64, Seq<u8>>::empty());
            assert(files_of(one) == files_of(one.drop_last()).insert(g, data@));
            assert(fin =~= files_of(one));
        }
        let ghost fin_files = apply_ops(f0, ops@);
        let ghost idx0 = self.indexes@;
        let ghost fr = fresh@;
        proof {
            let r = replay_from(Map::empty(), data@, 0);
            assert forall|k: Seq<u8>| r.contains_key(k) <==> self@.contains_key(k) by {
                if self@.contains_key(k) {
                    let m = choose|m: int| 0 <= m < idx0.len() && idx0[m].key@ == k;
                    assert(r.contains_key(k));
                }
                if r.contains_key(k) {
                    let m = choose|m: int| 0 <= m < idx0.len() && idx0[m].key@ == k;
                    assert(idx0[m] == idx0[m]);
                }
            }
            assert(r =~= self@);
            let one = Seq::<Seq<u8>>::empty().push(data@);
            assert(one.drop_last() =~= Seq::<Seq<u8>>::empty());
            assert(replay(Seq::<Seq<u8>>::empty()) == Map::<Seq<u8>, Seq<u8>>::empty());
            assert(one.last() == data@);
            assert(replay(one) == replay_from(replay(one.drop_last()), one.last(), 0));
            assert(replay(one) == r);
        }
        let mut segs: Vec<Segment> = Vec::new();
        segs.push(Segment { generation: g, data });
        self.segments = segs;
        self.indexes = fresh;
        self.uncompacted = 0;
        self.nth = g;
        proof {
            let sg = self.segments@;
            let idx = self.indexes@;
            assert forall|m: int| #![trigger idx[m]] 0 <= m < idx.len() implies {
                &&& points_into(sg, idx[m].key@, idx[m].entry)
                &&& self.contents@.contains_key(idx[m].key@)
                &&& value_in(sg, idx[m].entry, self.contents@[idx[m].key@])
            } by {
                assert(idx0[m] == idx0[m]);
                assert(sg[0].generation == idx[m].entry.n);
            }
            assert forall|k: Seq<u8>| self.contents@.contains_key(k) implies exists|m: int|
                0 <= m < idx.len() && idx[m].key@ == k by {
                assert(exists|m: int| 0 <= m < idx0.len() && idx0[m].key@ == k);
                let m = choose|m: int| 0 <= m < idx0.len() && idx0[m].key@ == k;
                assert(idx == fr);
                assert(fr.len() == idx0.len());
                assert(fr[m] == fr[m]);
                assert(fr[m].key@ == idx0[m].key@);
            }
            assert forall|a: int, b: int| 0 <= a < b < idx.len() implies idx[a].key@ != idx[b].key@ by {
                assert(fr[a] == fr[a]);
                assert(fr[b] == fr[b]);
            }
            assert forall|k: Seq<u8>| #![trigger self.entry_of(k)] old(self)@.contains_key(k) implies {
                &&& self.entry_of(k).n == self.active_generation()
                &&& self.entry_of(k).timestamp == old(self).entry_of(k).timestamp
                &&& self.entry_of(k).len == old(self).entry_of(k).len
            } by {
                let c0 = choose|m: int| 0 <= m < idx0.len() && idx0[m].key@ == k;
                assert(idx == fr);
                assert(fr.len() == idx0.len());
                assert(fr[c0] == fr[c0]);
                assert(idx[c0].key@ == k);
                let c = choose|m: int| 0 <= m < idx.len() && idx[m].key@ == k;
                assert(fr[c] == fr[c]);
                assert(idx0[c].key@ == k);
                assert(idx0 == old(self).indexes@);
                assert(c == c0);
                assert(self.entry_of(k) == fr[c].entry);
                assert(old(self).entry_of(k) == idx0[c0].entry);
            }
            assert forall|k: Seq<u8>| old(self)@.contains_key(k) implies #[trigger] self.live_len(k) == old(self).live_len(k) by {
                assert(self.entry_of(k).len == old(self).entry_of(k).len);
            }
        }
        ops
    }
}


impl KvStore {
    /// A write that leaves `u` dead bytes behind compacts the store.
    pub open spec fn compacts(&self, u: u64) -> bool {
        u > COMPACTION_THRESHOLD && self.active_generation() < u64::MAX
    }

    /// The store is held in one file, its active segment, which every live
    /// key's entry names.
    pub open spec fn single_file(&self) -> bool {
        &&& forall|g: u64| #[trigger] self.files().contains_key(g) <==> g == self.active_generation()
        &&& forall|k: Seq<u8>| #[trigger] self@.contains_key(k) ==> self.entry_of(k).n == self.active_generation()
    }

    /// The files once `rec` is appended to the active segment and the live
    /// record of `k`, if any, is marked dead.
    pub open spec fn files_after_set(&self, k: Seq<u8>, rec: Seq<u8>) -> Map<u64, Seq<u8>> {
        let g = self.active_generation();
        let f1 = self.files().insert(g, self.files()[g] + rec);
        if self@.contains_key(k) {
            mark_dead(f1, self.entry_of(k))
        } else {
            f1
        }
    }

    /// The dead-byte count once the live record of `k`, if any, is superseded.
    pub open spec fn dead_after(&self, k: Seq<u8>) -> u64 {
        if self@.contains_key(k) {
            sat_add(self.dead_bytes(), self.live_len(k) as int)
        } else {
            self.dead_bytes()
        }
    }

    /// The state after a write that left `u` dead bytes behind, on a store
    /// whose active generation was `g` and which had `count` segments: past
    /// the threshold the store has been compacted into one new segment.
    pub open spec fn after_write(&self, u: u64, g: u64, count: nat) -> bool {
        if u > COMPACTION_THRESHOLD && g < u64::MAX {
            &&& self.dead_bytes() == 0
            &&& self.segment_count() == 1
            &&& self.active_generation() == g + 1
        } else {
            &&& self.dead_bytes() == u
            &&& self.segment_count() == count
            &&& self.active_generation() == g
        }
    }

    fn settle(&mut self, ops: &mut Vec<DiskOp>)
        requires
            old(self).wf(),
        ensures
            final(self).wf(),
            final(self)@ == old(self)@,
            final(self).after_write(old(self).dead_bytes(), old(self).active_generation(), old(self).segment_count()),
            forall|k: Seq<u8>| old(self)@.contains_key(k) ==> #[trigger] final(self).live_len(k) == old(self).live_len(k),
            final(ops)@.len() >= old(ops)@.len(),
            final(ops)@.subrange(0, old(ops)@.len() as int) == old(ops)@,
            apply_ops(old(self).files(), final(ops)@.subrange(old(ops)@.len() as int, final(ops)@.len() as int))
                == final(self).files(),
            old(self).compacts(old(self).dead_bytes()) ==> final(self).single_file() && forall|k: Seq<u8>|
                #![trigger final(self).entry_of(k)]
                old(self)@.contains_key(k) ==> final(self).entry_of(k).timestamp == old(self).entry_of(k).timestamp,
            old(self).compacts(old(self).dead_bytes()) ==> {
                &&& replay(Seq::<Seq<u8>>::empty().push(final(self).files()[final(self).active_generation()])) == final(self)@
                &&& all_live(final(self).files()[final(self).active_generation()], 0)
                &&& final(ops)@.len() >= old(ops)@.len() + 2
                &&& is_create(final(ops)@[old(ops)@.len() as int], final(self).active_generation())
                &&& is_append_start(final(ops)@[old(ops)@.len() + 1int], final(self).active_generation())
                &&& forall|i: int| old(ops)@.len() + 2 <= i < final(ops)@.len() ==> is_delete(#[trigger] final(ops)@[i])
            },
            !old(self).compacts(old(self).dead_bytes()) ==> final(self).files() == old(self).files() && forall|k: Seq<u8>|
                #![trigger final(self).entry_of(k)]
                final(self).entry_of(k) == old(self).entry_of(k),
    {
        let ghost ops0 = ops@;
        if self.uncompacted > COMPACTION_THRESHOLD && self.nth < u64::MAX {
            let mut more = self.compact();
            let ghost m = more@;
            ops.append(&mut more);
            assert forall|i: int| ops0.len() + 2 <= i < ops@.len() implies is_delete(#[trigger] ops@[i]) by {
                assert(ops@[i] == m[i - ops0.len()]);
            }
            assert(ops@.subrange(0, ops0.len() as int) =~= ops0);
            assert(ops@.subrange(ops0.len() as int, ops@.len() as int) =~= m);
        } else {
            assert(ops@.subrange(0, ops0.len() as int) =~= ops0);
            assert(ops@.subrange(ops0.len() as int, ops@.len() as int) =~= Seq::<DiskOp>::empty());
        }
    }

    /// Stores `value` under `key`: appends a record stamped with the clock to
    /// the active segment, points the index at it and marks the record it
    /// supersedes dead; compacts once the dead bytes pass the threshold.
    pub fn set(&mut self, key: Vec<u8>, value: Vec<u8>) -> (ops: Vec<DiskOp>)
        requires
            old(self).wf(),
            key@.len() + value@.len() + 16 <= u32::MAX,
        ensures
            final(self).wf(),
            final(self)@ == old(self)@.insert(key@, value@),
            final(self).live_len(key@) == 16 + key@.len() + value@.len(),
            apply_ops(old(self).files(), ops@) == final(self).files(),
            final(self).after_write(old(self).dead_after(key@), old(self).active_generation(), old(self).segment_count()),
            final(self).entry_of(key@).timestamp != 0,
            !old(self).compacts(old(self).dead_after(key@)) ==> {
                &&& final(self).files() == old(self).files_after_set(
                    key@,
                    record_bytes(final(self).entry_of(key@).timestamp, key@, value@),
                )
                &&& final(self).entry_of(key@) == (DataIndex {
                    n: old(self).active_generation(),
                    pos: old(self).files()[old(self).active_generation()].len() as u64,
                    len: (16 + key@.len() + value@.len()) as u32,
                    timestamp: final(self).entry_of(key@).timestamp,
                })
            },
            old(self).compacts(old(self).dead_after(key@)) ==> final(self).single_file(),
            old(self).compacts(old(self).dead_after(key@)) ==> replay(
                Seq::<Seq<u8>>::empty().push(final(self).files()[final(self).active_generation()]),
            ) == final(self)@,
            old(self).compacts(old(self).dead_after(key@)) ==> (exists|n: int|
                rewrite_before_delete(ops@, final(self).active_generation(), n)),
            old(self).compacts(old(self).dead_after(key@)) ==> all_live(
                final(self).files()[final(self).active_generation()],
                0,
            ),
            forall|k: Seq<u8>|
                #![trigger final(self).entry_of(k)]
                old(self)@.contains_key(k) && k != key@ ==> final(self).entry_of(k).timestamp == old(self).entry_of(k).timestamp,
    {
        let ts = record_timestamp(unix_time());
        let mut ops = self.record(key, value, ts);
        let ghost ops1 = ops@;
        let ghost f0 = old(self).files();
        self.settle(&mut ops);
        proof {
            let extra = ops@.subrange(ops1.len() as int, ops@.len() as int);
            assert(ops@ =~= ops1 + extra);
            lemma_apply_concat(f0, ops1, extra);
            if old(self).compacts(old(self).dead_after(key@)) {
                let n = ops1.len() as int;
                assert forall|i: int| 0 <= i < ops@.len() && is_delete(#[trigger] ops@[i]) implies n + 1 < i by {
                    if i < n {
                        assert(ops@[i] == ops1[i]);
                    }
                }
                assert(rewrite_before_delete(ops@, self.active_generation(), n));
            }
        }
        ops
    }

    /// Removes `key`: drops its index entry and marks its record dead, or
    /// fails with `KeyNotFound` and changes nothing.
    pub fn remove(&mut self, key: &Vec<u8>) -> (r: Result<Vec<DiskOp>, KvsError>)
        requires
            old(self).wf(),
        ensures
            final(self).wf(),
            r matches Ok(ops) ==> apply_ops(old(self).files(), ops@) == final(self).files(),
            old(self)@.contains_key(key@) ==> r is Ok && final(self)@ == old(self)@.remove(key@)
                && final(self).after_write(old(self).dead_after(key@), old(self).active_generation(), old(self).segment_count()),
            old(self)@.contains_key(key@) && !old(self).compacts(old(self).dead_after(key@))
                ==> final(self).files() == mark_dead(old(self).files(), old(self).entry_of(key@)),
            old(self)@.contains_key(key@) && old(self).compacts(old(self).dead_after(key@)) ==> final(self).single_file(),
            old(self)@.contains_key(key@) && old(self).compacts(old(self).dead_after(key@)) ==> replay(
                Seq::<Seq<u8>>::empty().push(final(self).files()[final(self).active_generation()]),
            ) == final(self)@,
            old(self)@.contains_key(key@) && old(self).compacts(old(self).dead_after(key@)) ==> all_live(
                final(self).files()[final(self).active_generation()],
                0,
            ),
            forall|k: Seq<u8>|
                #![trigger final(self).entry_of(k)]
                old(self)@.contains_key(k) && k != key@ ==> final(self).entry_of(k).timestamp == old(self).entry_of(k).timestamp,
            old(self)@.contains_key(key@) && old(self).compacts(old(self).dead_after(key@)) ==> (r matches Ok(
                ops,
            ) && (exists|n: int| rewrite_before_delete(ops@, final(self).active_generation(), n))),
            !old(self)@.contains_key(key@) ==> r == Err::<Vec<DiskOp>, KvsError>(KvsError::KeyNotFound)
                && final(self)@ == old(self)@ && final(self).dead_bytes() == old(self).dead_bytes()
                && final(self).segment_count() == old(self).segment_count()
                && final(self).active_generation() == old(self).active_generation()
                && final(self).files() == old(self).files(),
    {
        let ghost f0 = old(self).files();
        match self.unlink(key) {
            Ok(mut ops) => {
                let ghost ops1 = ops@;
                self.settle(&mut ops);
                proof {
                    let extra = ops@.subrange(ops1.len() as int, ops@.len() as int);
                    assert(ops@ =~= ops1 + extra);
                    lemma_apply_concat(f0, ops1, extra);
                    assert(old(self)@.contains_key(key@));
                    if old(self).compacts(old(self).dead_after(key@)) {
                        let n = ops1.len() as int;
                        assert forall|i: int| 0 <= i < ops@.len() && is_delete(#[trigger] ops@[i]) implies n + 1 < i by {
                            if i < n {
                                assert(ops@[i] == ops1[i]);
                            }
                        }
                        assert(rewrite_before_delete(ops@, self.active_generation(), n));
                        assert(exists|n: int| rewrite_before_delete(ops@, self.active_generation(), n));
                    }
                }
                let ghost opsv = ops@;
                let r = Ok(ops);
                proof {
                    assert(r->Ok_0@ == opsv);
                    if old(self).compacts(old(self).dead_after(key@)) {
                        assert(rewrite_before_delete(r->Ok_0@, self.active_generation(), ops1.len() as int));
                    }
                }
                r
            },
            Err(e) => Err(e),
        }
    }
}


impl KvStore {
    /// Adds `seg` as the new active segment.
    fn push_segment(&mut self, seg: Segment)
        requires
            old(self).inv(),
            forall|j: int| 0 <= j < old(self).segments@.len() ==> old(self).segments@[j].generation < seg.generation,
        ensures
            final(self).wf(),
            final(self)@ == old(self)@,
            final(self).nth == seg.generation,
            final(self).segments@ == old(self).segments@.push(seg),
            final(self).indexes@ == old(self).indexes@,
            final(self).uncompacted == old(self).uncompacted,
    {
        let ghost segs0 = self.segments@;
        let g = seg.generation;
        self.segments.push(seg);
        self.nth = g;
        proof {
            let idx = self.indexes@;
            assert forall|i: int| #![trigger idx[i]] 0 <= i < idx.len() implies {
                &&& points_into(self.segments@, idx[i].key@, idx[i].entry)
                &&& self.contents@.contains_key(idx[i].key@)
                &&& value_in(self.segments@, idx[i].entry, self.contents@[idx[i].key@])
            } by {
                lemma_push_keeps(segs0, self.segments@.last(), idx[i].key@, idx[i].entry, self.contents@[idx[i].key@]);
            }
        }
    }

    /// Opens a store over the segments found in its directory, given in
    /// ascending generation order: replays every record, keeping for each
    /// key its last live record and marking the records it supersedes dead,
    /// drops the empty segments, and starts a new empty active segment whose
    /// generation follows the last one replayed.
    pub fn open(segments: Vec<Segment>) -> (r: (KvStore, Vec<DiskOp>))
        requires
            forall|i: int, j: int|
                0 <= i < j < segments@.len() ==> segments@[i].generation < segments@[j].generation,
            forall|i: int| 0 <= i < segments@.len() ==> segments@[i].generation < u64::MAX,
        ensures
            r.0.wf(),
            r.0@ == replay(images(segments@)),
            apply_ops(files_of(segments@), r.1@) == r.0.files(),
            r.0.dead_bytes() == replay_dead(images(segments@)),
            r.0.active_generation() == last_live_gen(segments@) + 1,
            r.0.files()[r.0.active_generation()] == Seq::<u8>::empty(),
            forall|g: u64|
                #[trigger] r.0.files().contains_key(g) <==> (g == r.0.active_generation() || exists|i: int|
                    0 <= i < segments@.len() && segments@[i].generation == g && segments@[i].data@.len() > 0),
            forall|i: int|
                0 <= i < segments@.len() && segments@[i].data@.len() > 0
                    ==> segments@[i].generation < r.0.active_generation(),
    {
        let ghost orig = segments@;
        let mut store = KvStore {
            nth: 0,
            segments: Vec::new(),
            indexes: Vec::new(),
            uncompacted: 0,
            contents: Ghost(Map::empty()),
        };
        let mut ops: Vec<DiskOp> = Vec::new();
        let mut input = segments;
        let ghost mut s: int = 0;
        proof {
            assert(images(orig.subrange(0, 0)) =~= Seq::<Seq<u8>>::empty());
            assert(input@ =~= orig.subrange(0, orig.len() as int));
        }
        while input.len() > 0
            invariant
                store.inv(),
                store.segments@.len() >= 1 ==> store.segments@[store.segments@.len() - 1].generation == store.nth,
                store.segments@.len() == 0 ==> store.nth == 0,
                store.nth < u64::MAX,
                0 <= s <= orig.len(),
                input@ == orig.subrange(s, orig.len() as int),
                store@ == replay(images(orig.subrange(0, s))),
                forall|j: int, k: int|
                    0 <= j < store.segments@.len() && s <= k < orig.len()
                        ==> store.segments@[j].generation < orig[k].generation,
                forall|k: int| 0 <= k < s && orig[k].data@.len() > 0 ==> orig[k].generation <= store.nth,
                forall|k: int| 0 <= k < orig.len() ==> orig[k].generation < u64::MAX,
                forall|i: int, j: int| 0 <= i < j < orig.len() ==> orig[i].generation < orig[j].generation,
                apply_ops(files_of(orig.subrange(0, s)), ops@) == files_of(store.segments@),
                store.uncompacted == replay_dead(images(orig.subrange(0, s))),
                store.nth == last_live_gen(orig.subrange(0, s)),
                forall|x: u64| #[trigger] has_gen(store.segments@, x) <==> exists|i: int|
                    0 <= i < s && orig[i].generation == x && orig[i].data@.len() > 0,
                forall|i: int, k: int|
                    #![trigger ops@[i], orig[k]]
                    0 <= i < ops@.len() && s <= k < orig.len() ==> op_gen(ops@[i]) < orig[k].generation,
            decreases input@.len(),
        {
            let seg = input.remove(0);
            let ghost segs_before = store.segments@;
            proof {
                lemma_replay_step(orig, s);
                assert(seg == orig[s]);
                assert(orig.subrange(0, s + 1).drop_last() =~= orig.subrange(0, s));
                assert(images(orig.subrange(0, s + 1)).drop_last() =~= images(orig.subrange(0, s)));
                assert(images(orig.subrange(0, s + 1)).last() == orig[s].data@);
                assert forall|i: int| 0 <= i < ops@.len() implies op_gen(#[trigger] ops@[i]) != seg.generation by {
                    assert(orig[s] == orig[s]);
                    assert(op_gen(ops@[i]) < orig[s].generation);
                }
                lemma_apply_untouched(files_of(orig.subrange(0, s)), ops@, seg.generation, seg.data@);
                lemma_files_index(segs_before);
                if files_of(segs_before).contains_key(seg.generation) {
                    assert(has_gen(segs_before, seg.generation));
                    let w = choose|j: int| 0 <= j < segs_before.len() && segs_before[j].generation == seg.generation;
                    assert(orig[s] == orig[s]);
                    assert(segs_before[w].generation < orig[s].generation);
                }
            }
            if seg.data.len() == 0 {
                let ghost ops_b = ops@;
                ops.push(DiskOp::Delete { generation: seg.generation });
                proof {
                    lemma_apply_push(files_of(orig.subrange(0, s + 1)), ops_b, ops@[ops@.len() - 1]);
                    assert(ops@ =~= ops_b.push(ops@[ops@.len() - 1]));
                    assert(files_of(segs_before).insert(seg.generation, seg.data@).remove(seg.generation) =~= files_of(segs_before));
                }
            } else {
                let g = seg.generation;
                let ghost d_in = seg.data@;
                store.push_segment(seg);
                proof {
                    assert(store.segments@.drop_last() =~= segs_before);
                    assert forall|x: u64| #[trigger] has_gen(store.segments@, x) <==> exists|i: int|
                        0 <= i < s + 1 && orig[i].generation == x && orig[i].data@.len() > 0 by {
                        let sg = store.segments@;
                        if has_gen(sg, x) {
                            let w = choose|j: int| 0 <= j < sg.len() && sg[j].generation == x;
                            if w < segs_before.len() {
                                assert(sg[w] == segs_before[w]);
                                assert(has_gen(segs_before, x));
                            } else {
                                assert(orig[s].generation == x);
                            }
                        }
                        if exists|i: int| 0 <= i < s + 1 && orig[i].generation == x && orig[i].data@.len() > 0 {
                            let i = choose|i: int| 0 <= i < s + 1 && orig[i].generation == x && orig[i].data@.len() > 0;
                            if i < s {
                                assert(has_gen(segs_before, x));
                                let w = choose|j: int| 0 <= j < segs_before.len() && segs_before[j].generation == x;
                                assert(sg[w] == segs_before[w]);
                            } else {
                                assert(sg[sg.len() - 1].generation == x);
                            }
                        }
                    }
                }
                let last = store.segments.len() - 1;
                let ghost snap = store.segments@;
                let mut o: usize = 0;
                let mut done = false;
                while !done
                    invariant
                        store.wf(),
                        store.nth == g,
                        last == store.segments@.len() - 1,
                        store.segments@.len() == snap.len(),
                        forall|j: int| 0 <= j < snap.len() ==> #[trigger] store.segments@[j].generation == snap[j].generation,
                        store.segments@[last as int].data@.len() == d_in.len(),
                        forall|x: int| o <= x < d_in.len() ==> store.segments@[last as int].data@[x] == d_in[x],
                        o <= d_in.len(),
                        replay_from(store@, d_in, o as int) == replay(images(orig.subrange(0, s + 1))),
                        forall|i: int|
                            #![trigger store.indexes@[i]]
                            0 <= i < store.indexes@.len() && store.indexes@[i].entry.n == g
                                ==> store.indexes@[i].entry.pos + store.indexes@[i].entry.len <= o,
                        done ==> !replayable(d_in, o as int),
                        apply_ops(files_of(orig.subrange(0, s + 1)), ops@) == files_of(store.segments@),
                        dead_from(store@, store.uncompacted, d_in, o as int) == replay_dead(images(orig.subrange(0, s + 1))),
                        forall|i: int| 0 <= i < ops@.len() ==> op_gen(#[trigger] ops@[i]) <= g,
                        forall|x: u64| #[trigger] has_gen(store.segments@, x) <==> has_gen(snap, x),
                    decreases d_in.len() - o + (if done { 0int } else { 1int }),
                {
                    let d = &store.segments[last].data;
                    let data_len = d.len();  // bounds the offsets below by usize::MAX
                    let ghost dc = d@;
                    proof {
                        if fits_at(dc, o as int) {
                            let l = len_at(dc, o as int);
                            assert(d_in.subrange(o as int, o + l) =~= dc.subrange(o as int, o + l));
                            lemma_window(dc, o as int, d_in, o as int);
                        } else if fits_at(d_in, o as int) {
                            let l = len_at(d_in, o as int);
                            assert(dc.subrange(o as int, o + l) =~= d_in.subrange(o as int, o + l));
                            lemma_window(d_in, o as int, dc, o as int);
                        }
                    }
                    match decode_header(d, o) {
                        Err(_) => {
                            done = true;
                        },
                        Ok(h) => {
                            let total: u64 = 16 + h.key_len as u64 + h.value_len as u64;
                            if total > 0xffff_ffff {
                                done = true;
                            } else {
                                let ghost m0 = store@;
                                if h.timestamp == 0 {
                                    let ghost before = store;
                                    store.uncompacted = store.uncompacted.saturating_add(total);
                                    assert(store.segments@ == before.segments@);
                                    assert(store.indexes@ == before.indexes@);
                                    assert(store.contents@ == before.contents@);
                                    assert(store.nth == before.nth);
                                    assert(store.wf());
                                } else {
                                    let ks = o + HEADER_LEN;
                                    let key = copy_range(d, ks, ks + h.key_len as usize);
                                    let entry = DataIndex { n: g, pos: o as u64, len: total as u32, timestamp: h.timestamp };
                                    let ghost ops_b = ops@;
                                    proof {
                                        if store@.contains_key(key@) {
                                            store.lemma_index(key@);
                                        }
                                    }
                                    store.adopt(key, entry, &mut ops, Ghost(value_at(d_in, o as int)));
                                    proof {
                                        let extra = ops@.subrange(ops_b.len() as int, ops@.len() as int);
                                        assert(ops@ =~= ops_b + extra);
                                        lemma_apply_concat(files_of(orig.subrange(0, s + 1)), ops_b, extra);
                                        assert forall|i: int| 0 <= i < ops@.len() implies op_gen(#[trigger] ops@[i]) <= g by {
                                            if i < ops_b.len() {
                                                assert(ops@[i] == ops_b[i]);
                                            }
                                        }
                                    }
                                }
                                o = o + total as usize;
                            }
                        },
                    }
                    proof {
                        let sg = store.segments@;
                        assert forall|x: u64| #[trigger] has_gen(sg, x) <==> has_gen(snap, x) by {
                            if has_gen(sg, x) {
                                let w = choose|j: int| 0 <= j < sg.len() && sg[j].generation == x;
                                assert(snap[w].generation == x);
                            }
                            if has_gen(snap, x) {
                                let w = choose|j: int| 0 <= j < snap.len() && snap[j].generation == x;
                                assert(sg[w].generation == x);
                            }
                        }
                    }
                }
            }
            proof {
                assert forall|i: int, k: int|
                    #![trigger ops@[i], orig[k]]
                    0 <= i < ops@.len() && s + 1 <= k < orig.len() implies op_gen(ops@[i]) < orig[k].generation by {
                    assert(orig[s].generation < orig[k].generation);
                }
                s = s + 1;
                assert(input@ =~= orig.subrange(s, orig.len() as int));
            }
        }
        proof {
            assert(orig.subrange(0, s) =~= orig);
        }
        let g = store.nth + 1;
        let ghost segs_before = store.segments@;
        proof {
            lemma_files_index(segs_before);
            if files_of(segs_before).contains_key(g) {
                assert(has_gen(segs_before, g));
                let w = choose|j: int| 0 <= j < segs_before.len() && segs_before[j].generation == g;
                if w != segs_before.len() - 1 {
                    assert(segs_before[w].generation < segs_before[segs_before.len() - 1].generation);
                }
            }
        }
        store.push_segment(Segment { generation: g, data: Vec::new() });
        let ghost ops_b = ops@;
        ops.push(DiskOp::Create { generation: g });
        proof {
            assert(store.segments@.drop_last() =~= segs_before);
            let sg = store.segments@;
            lemma_files_index(sg);
            assert(sg[sg.len() - 1].data@ == Seq::<u8>::empty());
            assert forall|x: u64| #[trigger] store.files().contains_key(x) <==> (x == g || exists|i: int|
                0 <= i < orig.len() && orig[i].generation == x && orig[i].data@.len() > 0) by {
                if store.files().contains_key(x) {
                    assert(has_gen(sg, x));
                    let w = choose|j: int| 0 <= j < sg.len() && sg[j].generation == x;
                    if w < segs_before.len() {
                        assert(sg[w] == segs_before[w]);
                        assert(has_gen(segs_before, x));
                    }
                }
                if x == g {
                    assert(sg[sg.len() - 1].generation == x);
                } else if exists|i: int| 0 <= i < orig.len() && orig[i].generation == x && orig[i].data@.len() > 0 {
                    assert(has_gen(segs_before, x));
                    let w = choose|j: int| 0 <= j < segs_before.len() && segs_before[j].generation == x;
                    assert(sg[w] == segs_before[w]);
                }
            }
            lemma_apply_push(files_of(orig), ops_b, ops@[ops@.len() - 1]);
            assert(ops@ =~= ops_b.push(ops@[ops@.len() - 1]));
        }
        (store, ops)
    }
}

} // verus!
