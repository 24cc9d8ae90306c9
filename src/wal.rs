use vstd::prelude::*;

use crate::entries::{copy_bytes, decode_entry, encodable, encode_entry, lemma_decode_encode, Entry, EntryView};
use crate::errors::Error;
use crate::mem_table::{lemma_equal_tables, lemma_total_size_concat, total_size, MemTable};

verus! {

/// The records of a log, decoded one after another from the start until one
/// does not decode (a log may end in a torn record).
pub open spec fn decode_stream(s: Seq<u8>) -> Seq<EntryView>
    decreases s.len(),
{
    match decode_entry(s) {
        Some((e, n)) => if 0 < n <= s.len() {
            seq![e] + decode_stream(s.skip(n))
        } else {
            Seq::empty()
        },
        None => Seq::empty(),
    }
}

/// The framing of a sequence of records, one after another.
pub open spec fn encode_stream(recs: Seq<EntryView>) -> Seq<u8>
    decreases recs.len(),
{
    if recs.len() == 0 {
        Seq::empty()
    } else {
        encode_entry(recs[0]) + encode_stream(recs.drop_first())
    }
}

/// The map from key to record that results from applying `recs` in order to
/// `m`: each record replaces the one before it for its key.
pub open spec fn apply_records(m: Map<Seq<u8>, EntryView>, recs: Seq<EntryView>) -> Map<Seq<u8>, EntryView>
    decreases recs.len(),
{
    if recs.len() == 0 {
        m
    } else {
        apply_records(m, recs.drop_last()).insert(recs.last().key, recs.last())
    }
}

/// The records of several logs, one log after another.
pub open spec fn replay_segments(segments: Seq<Seq<u8>>) -> Seq<EntryView>
    decreases segments.len(),
{
    if segments.len() == 0 {
        Seq::empty()
    } else {
        replay_segments(segments.drop_last()) + decode_stream(segments.last())
    }
}

/// A log of encodable records replays to exactly those records.
pub proof fn lemma_log_round_trip(recs: Seq<EntryView>)
    requires
        forall|i: int| 0 <= i < recs.len() ==> encodable(#[trigger] recs[i]),
    ensures
        decode_stream(encode_stream(recs)) == recs,
    decreases recs.len(),
{
    if recs.len() == 0 {
        assert(decode_entry(Seq::<u8>::empty()) is None);
        assert(decode_stream(Seq::<u8>::empty()) =~= recs);
    } else {
        let e = recs[0];
        let rest = encode_stream(recs.drop_first());
        assert(encodable(e));
        lemma_decode_encode(e, rest);
        let s = encode_entry(e) + rest;
        let n = encode_entry(e).len() as int;
        assert(s.skip(n) =~= rest);
        assert forall|i: int| 0 <= i < recs.drop_first().len() implies encodable(#[trigger] recs.drop_first()[i]) by {
            assert(recs.drop_first()[i] == recs[i + 1]);
        }
        lemma_log_round_trip(recs.drop_first());
        assert(decode_stream(s) =~= recs);
    }
}

/// Writing records to a single fresh log and replaying it into an empty table
/// gives the table that applying the records in order gives.
pub proof fn lemma_replay_applies_ops(ops: Seq<EntryView>)
    requires
        forall|i: int| 0 <= i < ops.len() ==> encodable(#[trigger] ops[i]),
    ensures
        apply_records(Map::empty(), replay_segments(seq![encode_stream(ops)])) == apply_records(Map::empty(), ops),
{
    lemma_log_round_trip(ops);
    let segs = seq![encode_stream(ops)];
    assert(segs.drop_last() =~= Seq::<Seq<u8>>::empty());
    assert(replay_segments(Seq::<Seq<u8>>::empty()) =~= Seq::<EntryView>::empty());
    assert(segs.last() == encode_stream(ops));
    assert(replay_segments(segs) =~= ops);
}

/// A write whose log record was flushed survives a restart: whatever older
/// segments hold, and whatever records precede it in its own segment,
/// replaying the log gives the key the record last written for it.
pub proof fn lemma_restart_recovers_write(earlier: Seq<Seq<u8>>, ops: Seq<EntryView>, rec: EntryView)
    requires
        forall|i: int| 0 <= i < ops.len() ==> encodable(#[trigger] ops[i]),
        encodable(rec),
    ensures
        apply_records(Map::empty(), replay_segments(earlier.push(encode_stream(ops.push(rec))))).contains_key(rec.key),
        apply_records(Map::empty(), replay_segments(earlier.push(encode_stream(ops.push(rec)))))[rec.key] == rec,
{
    let all = ops.push(rec);
    assert forall|i: int| 0 <= i < all.len() implies encodable(#[trigger] all[i]) by {
        if i < ops.len() {
            assert(all[i] == ops[i]);
        }
    }
    lemma_log_round_trip(all);
    let segs = earlier.push(encode_stream(all));
    assert(segs.drop_last() =~= earlier);
    let recs = replay_segments(segs);
    assert(recs == replay_segments(earlier) + all);
    assert(recs.last() == rec);
}

/// Replaying a single segment holding `ops` rebuilds the table that applying
/// `ops` in order to an empty table builds: the same records in the same
/// order, and the same size estimate.
pub proof fn lemma_replayed_table_equals_direct(replayed: MemTable, direct: MemTable, ops: Seq<EntryView>)
    requires
        forall|i: int| 0 <= i < ops.len() ==> encodable(#[trigger] ops[i]),
        replayed.wf(),
        direct.wf(),
        replayed@ == apply_records(Map::empty(), replay_segments(seq![encode_stream(ops)])),
        direct@ == apply_records(Map::empty(), ops),
    ensures
        replayed.records() == direct.records(),
        total_size(replayed.records()) == total_size(direct.records()),
{
    lemma_replay_applies_ops(ops);
    lemma_equal_tables(replayed, direct);
}

/// Replaying the log segment written before a restart and the one written
/// after it, in that order, applies the records of both in the order they
/// were written, so the later write of a key wins.
pub proof fn lemma_replay_across_restart(before: Seq<EntryView>, after: Seq<EntryView>)
    requires
        forall|i: int| 0 <= i < before.len() ==> encodable(#[trigger] before[i]),
        forall|i: int| 0 <= i < after.len() ==> encodable(#[trigger] after[i]),
    ensures
        replay_segments(seq![encode_stream(before), encode_stream(after)]) == before + after,
        after.len() > 0 ==> apply_records(
            Map::empty(),
            replay_segments(seq![encode_stream(before), encode_stream(after)]),
        )[after.last().key] == after.last(),
{
    lemma_log_round_trip(before);
    lemma_log_round_trip(after);
    let segs = seq![encode_stream(before), encode_stream(after)];
    assert(segs.drop_last() =~= seq![encode_stream(before)]);
    assert(seq![encode_stream(before)].drop_last() =~= Seq::<Seq<u8>>::empty());
    assert(replay_segments(Seq::<Seq<u8>>::empty()) =~= Seq::<EntryView>::empty());
    assert(replay_segments(seq![encode_stream(before)]) =~= before);
    assert(replay_segments(segs) =~= before + after);
    if after.len() > 0 {
        assert((before + after).drop_last() =~= before + after.drop_last());
        assert((before + after).last() == after.last());
    }
}

/// The position of the last record for key `k` in `recs`, or -1.
pub open spec fn last_index_of(recs: Seq<EntryView>, k: Seq<u8>) -> int
    decreases recs.len(),
{
    if recs.len() == 0 {
        -1
    } else if recs.last().key == k {
        recs.len() - 1
    } else {
        last_index_of(recs.drop_last(), k)
    }
}

/// After applying `recs`, a key maps to the last record for it in `recs`, or
/// keeps its earlier mapping where `recs` holds none.
pub proof fn lemma_last_writer_wins(m: Map<Seq<u8>, EntryView>, recs: Seq<EntryView>, k: Seq<u8>)
    ensures
        -1 <= last_index_of(recs, k) < recs.len(),
        last_index_of(recs, k) >= 0 ==> recs[last_index_of(recs, k)].key == k,
        forall|j: int| last_index_of(recs, k) < j < recs.len() ==> (#[trigger] recs[j]).key != k,
        apply_records(m, recs).get(k) == if last_index_of(recs, k) >= 0 {
            Some(recs[last_index_of(recs, k)])
        } else {
            m.get(k)
        },
    decreases recs.len(),
{
    if recs.len() > 0 {
        let prev = recs.drop_last();
        lemma_last_writer_wins(m, prev, k);
        assert forall|j: int| last_index_of(recs, k) < j < recs.len() implies (#[trigger] recs[j]).key != k by {
            if j < recs.len() - 1 {
                assert(prev[j] == recs[j]);
            }
        }
        if last_index_of(recs, k) >= 0 && recs.last().key != k {
            assert(prev[last_index_of(prev, k)] == recs[last_index_of(recs, k)]);
        }
    }
}

/// The write-ahead log of one segment file: records are framed and kept
/// until [`WriteAheadLog::flush`] hands them over to be appended to the file.
pub struct WriteAheadLog {
    path: String,
    buffer: Vec<u8>,
}

impl WriteAheadLog {
    /// The bytes framed since the last flush.
    pub closed spec fn pending(&self) -> Seq<u8> {
        self.buffer@
    }

    pub closed spec fn spec_path(&self) -> Seq<char> {
        self.path@
    }

    /// A log for the segment file at `path`.
    pub fn from_path(path: String) -> (r: Self)
        ensures
            r.spec_path() == path@,
            r.pending() == Seq::<u8>::empty(),
    {
        Self { path, buffer: Vec::new() }
    }

    /// Appends a record that sets `key` to `value`.
    pub fn set(&mut self, key: &[u8], value: &[u8], timestamp: u128)
        ensures
            final(self).pending() == old(self).pending() + encode_entry(
                EntryView { key: key@, value: Some(value@), timestamp },
            ),
            final(self).spec_path() == old(self).spec_path(),
    {
        let entry = Entry::new(copy_bytes(key), Some(copy_bytes(value)), timestamp);
        entry.write_to(&mut self.buffer);
    }

    /// Appends a tombstone record for `key`.
    pub fn delete(&mut self, key: &[u8], timestamp: u128)
        ensures
            final(self).pending() == old(self).pending() + encode_entry(
                EntryView { key: key@, value: None, timestamp },
            ),
            final(self).spec_path() == old(self).spec_path(),
    {
        let entry = Entry::new(copy_bytes(key), None, timestamp);
        entry.write_to(&mut self.buffer);
    }

    /// Hands over the bytes framed since the last flush, to be appended to
    /// the segment file, and starts afresh.
    pub fn flush(&mut self) -> (r: Vec<u8>)
        ensures
            r@ == old(self).pending(),
            final(self).pending() == Seq::<u8>::empty(),
            final(self).spec_path() == old(self).spec_path(),
    {
        let mut out: Vec<u8> = Vec::new();
        std::mem::swap(&mut out, &mut self.buffer);
        out
    }

    /// The path of the segment file.
    pub fn path(&self) -> (r: String)
        ensures
            r@ == self.spec_path(),
    {
        self.path.clone()
    }

    /// Replays old segments, in the order given (oldest first), into a fresh
    /// MemTable and into this log: each record is appended to this log and
    /// applied to the table. Fails with `SizeOverflow` where the table's size
    /// estimate would not fit in a `usize`.
    pub fn restore(self, segments: &Vec<Vec<u8>>) -> (r: Result<(WriteAheadLog, MemTable), Error>)
        ensures
            total_size(replay_segments(segments@.map_values(|s: Vec<u8>| s@))) <= usize::MAX ==> r is Ok,
            r matches Ok((wal, mem)) ==> {
                &&& mem.wf()
                &&& total_size(mem.records()) <= total_size(replay_segments(segments@.map_values(|s: Vec<u8>| s@)))
                &&& mem@ == apply_records(Map::empty(), replay_segments(segments@.map_values(|s: Vec<u8>| s@)))
                &&& wal.pending() == self.pending() + encode_stream(replay_segments(segments@.map_values(|s: Vec<u8>| s@)))
                &&& wal.spec_path() == self.spec_path()
            },
            r matches Err(e) ==> e == Error::SizeOverflow,
    {
        let ghost segs = segments@.map_values(|s: Vec<u8>| s@);
        let ghost start = self.pending();
        let ghost path0 = self.spec_path();
        let mut mem = MemTable::new();
        let mut wal = self;
        let mut i: usize = 0;
        assert(segs.subrange(0, 0) =~= Seq::<Seq<u8>>::empty());
        assert(encode_stream(Seq::<EntryView>::empty()) =~= Seq::<u8>::empty());
        assert(start + Seq::<u8>::empty() =~= start);
        while i < segments.len()
            invariant
                segs == segments@.map_values(|s: Vec<u8>| s@),
                0 <= i <= segments@.len(),
                mem.wf(),
                mem@ == apply_records(Map::empty(), replay_segments(segs.subrange(0, i as int))),
                wal.pending() == start + encode_stream(replay_segments(segs.subrange(0, i as int))),
                total_size(mem.records()) <= total_size(replay_segments(segs.subrange(0, i as int))),
                wal.spec_path() == path0,
            decreases segments@.len() - i,
        {
            let records = decode_all(segments[i].as_slice());
            let ghost done = replay_segments(segs.subrange(0, i as int));
            let ghost rv = records@.map_values(|e: Entry| e@);
            let mut j: usize = 0;
            assert(done + rv.subrange(0, 0) =~= done);
            while j < records.len()
                invariant
                    segs == segments@.map_values(|s: Vec<u8>| s@),
                    0 <= i < segments@.len(),
                    done == replay_segments(segs.subrange(0, i as int)),
                    rv == records@.map_values(|e: Entry| e@),
                    rv == decode_stream(segs[i as int]),
                    0 <= j <= records@.len(),
                    mem.wf(),
                    mem@ == apply_records(Map::empty(), done + rv.subrange(0, j as int)),
                    wal.pending() == start + encode_stream(done + rv.subrange(0, j as int)),
                    total_size(mem.records()) <= total_size(done + rv.subrange(0, j as int)),
                    wal.spec_path() == path0,
                decreases records@.len() - j,
            {
                let e = &records[j];
                let ghost x = rv[j as int];
                assert(x == e@);
                let ghost prefix = done + rv.subrange(0, j as int);
                assert(done + rv.subrange(0, j + 1) =~= prefix.push(x));
                assert(prefix.push(x).drop_last() =~= prefix);
                let vlen: usize = match &e.value {
                    Some(v) => v.len(),
                    None => 0,
                };
                let size = mem.size();
                if (size as u128) + (e.key.len() as u128) + (vlen as u128) + 17 > usize::MAX as u128 {
                    proof {
                        assert(segs.subrange(0, i + 1).drop_last() =~= segs.subrange(0, i as int));
                        let whole = done + rv;
                        assert(prefix.push(x) + rv.subrange(j + 1, rv.len() as int) =~= whole);
                        lemma_total_size_concat(prefix.push(x), rv.subrange(j + 1, rv.len() as int));
                        lemma_replay_prefix_size(segs, i + 1);
                        assert(segs.subrange(0, segs.len() as int) =~= segs);
                    }
                    return Err(Error::SizeOverflow);
                }
                match &e.value {
                    Some(v) => {
                        wal.set(e.key.as_slice(), v.as_slice(), e.timestamp);
                        mem.set(e.key.as_slice(), v.as_slice(), e.timestamp);
                    },
                    None => {
                        wal.delete(e.key.as_slice(), e.timestamp);
                        mem.delete(e.key.as_slice(), e.timestamp);
                    },
                }
                proof {
                    lemma_encode_stream_push(prefix, x);
                }
                j += 1;
            }
            proof {
                assert(rv.subrange(0, rv.len() as int) =~= rv);
                assert(segs.subrange(0, i + 1).drop_last() =~= segs.subrange(0, i as int));
            }
            i += 1;
        }
        assert(segs.subrange(0, segs.len() as int) =~= segs);
        Ok((wal, mem))
    }
}

pub proof fn lemma_encode_stream_concat(a: Seq<EntryView>, b: Seq<EntryView>)
    ensures
        encode_stream(a + b) == encode_stream(a) + encode_stream(b),
    decreases a.len(),
{
    if a.len() == 0 {
        assert(a + b =~= b);
        assert(encode_stream(a) =~= Seq::<u8>::empty());
        assert(Seq::<u8>::empty() + encode_stream(b) =~= encode_stream(b));
    } else {
        assert((a + b).drop_first() =~= a.drop_first() + b);
        assert((a + b)[0] == a[0]);
        lemma_encode_stream_concat(a.drop_first(), b);
        assert(encode_stream(a + b) =~= encode_stream(a) + encode_stream(b));
    }
}

pub proof fn lemma_encode_stream_push(a: Seq<EntryView>, x: EntryView)
    ensures
        encode_stream(a.push(x)) == encode_stream(a) + encode_entry(x),
{
    lemma_encode_stream_concat(a, seq![x]);
    assert(seq![x].drop_first() =~= Seq::<EntryView>::empty());
    assert(encode_stream(Seq::<EntryView>::empty()) =~= Seq::<u8>::empty());
    assert(encode_stream(seq![x]) =~= encode_entry(x));
    assert(a.push(x) =~= a + seq![x]);
}

proof fn lemma_replay_prefix_size(segs: Seq<Seq<u8>>, k: int)
    requires
        0 <= k <= segs.len(),
    ensures
        total_size(replay_segments(segs.subrange(0, k))) <= total_size(replay_segments(segs)),
    decreases segs.len() - k,
{
    if k == segs.len() {
        assert(segs.subrange(0, k) =~= segs);
    } else {
        lemma_replay_prefix_size(segs, k + 1);
        assert(segs.subrange(0, k + 1).drop_last() =~= segs.subrange(0, k));
        lemma_total_size_concat(replay_segments(segs.subrange(0, k)), decode_stream(segs[k]));
    }
}

/// Decodes the records of a log from its start until one does not decode.
pub fn decode_all(bytes: &[u8]) -> (r: Vec<Entry>)
    ensures
        r@.map_values(|e: Entry| e@) == decode_stream(bytes@),
{
    let mut out: Vec<Entry> = Vec::new();
    let mut pos: usize = 0;
    let mut done = false;
    assert(bytes@.skip(0) =~= bytes@);
    assert(out@.map_values(|e: Entry| e@) + decode_stream(bytes@) =~= decode_stream(bytes@));
    while !done
        invariant
            0 <= pos <= bytes@.len(),
            done ==> out@.map_values(|e: Entry| e@) == decode_stream(bytes@),
            !done ==> out@.map_values(|e: Entry| e@) + decode_stream(bytes@.skip(pos as int)) == decode_stream(bytes@),
        decreases (if done { 0 } else { bytes@.len() + 1 - pos }),
    {
        let ghost before = out@.map_values(|e: Entry| e@);
        let ghost s = bytes@.skip(pos as int);
        match Entry::read_from(bytes, pos) {
            Some((e, next)) => {
                proof {
                    let n = next - pos;
                    assert(s.skip(n) =~= bytes@.skip(next as int));
                }
                out.push(e);
                assert(out@.map_values(|e: Entry| e@) =~= before.push(e@));
                assert(before.push(e@) + decode_stream(bytes@.skip(next as int)) =~= before + decode_stream(s));
                pos = next;
            },
            None => {
                assert(before + decode_stream(s) =~= before);
                done = true;
            },
        }
    }
    out
}

} // verus!
