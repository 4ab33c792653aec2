use vstd::prelude::*;

verus! {

use crate::record::{
    Record, RecordView, sum_enc, spec_seg_bytes, rec_at_offset, lemma_sum_enc_push,
    lemma_sum_enc_nonneg, lemma_sum_enc_concat, lemma_rec_at_push_end, lemma_rec_at_push_stable,
    lemma_sum_enc_bound, lemma_sum_enc_split, lemma_sum_enc_remove, views_of, spec_scan,
};
use crate::recovery::{
    ids_distinct, ids_ascending, pair_in, sum_data, insert_by_id, arrange, scanned,
    lemma_insert_by_id_at, lemma_arrange_props,
};

/// Rotation threshold the engine starts with: once the active segment
/// grows past this many bytes, the next segment is opened.
pub const DEFAULT_THRESHOLD: u64 = 1024;

/// How an engine operation can fail.
#[derive(Debug, PartialEq, Eq, Clone, Copy, Structural)]
pub enum StoreError {
    /// The caller passed an empty key.
    InvalidKey,
    /// The key is not live in the store.
    NotFound,
    /// Bytes on disk do not form a whole record.
    Corrupt,
    /// The engine is not open, or the surrounding I/O layer failed.
    Io,
    /// A fresh segment could not be created; the engine rejects writes
    /// until it is reopened.
    RotationFailed,
}

/// One segment: an append-only run of records under a single numeric id.
/// The last segment of the engine is the active one; all earlier ones are
/// sealed.
pub struct Segment {
    pub file_id: u64,
    pub records: Vec<Record>,
    pub size: u64,
}

impl Segment {
    /// The records of this segment, in append order.
    pub open spec fn recs(self) -> Seq<RecordView> {
        self.records@.map_values(|r: Record| r@)
    }

    /// The byte content of this segment's file.
    pub open spec fn bytes(self) -> Seq<u8> {
        spec_seg_bytes(self.recs())
    }

    /// The size field equals the total encoded length of the records.
    pub open spec fn wf(self) -> bool {
        self.size as int == sum_enc(self.recs())
    }
}

/// One entry of the in-memory index: where the latest record of a live key
/// begins on disk.
pub struct IndexEntry {
    pub key: Vec<u8>,
    pub file_id: u64,
    pub offset: u64,
}

/// The mathematical content of an [`IndexEntry`].
pub struct IndexEntryView {
    pub key: Seq<u8>,
    pub file_id: u64,
    pub offset: u64,
}

impl View for IndexEntry {
    type V = IndexEntryView;

    open spec fn view(&self) -> IndexEntryView {
        IndexEntryView { key: self.key@, file_id: self.file_id, offset: self.offset }
    }
}

/// The store that a sequence of records describes: records are applied in
/// order; a tombstone removes its key, any other record binds its key to
/// its value.
pub open spec fn replay(rs: Seq<RecordView>) -> Map<Seq<u8>, Seq<u8>>
    decreases rs.len(),
{
    if rs.len() == 0 {
        Map::empty()
    } else {
        let m = replay(rs.drop_last());
        let r = rs.last();
        if r.is_tombstone() {
            m.remove(r.key)
        } else {
            m.insert(r.key, r.value)
        }
    }
}

/// All records of a run of segments, in segment order then offset order.
pub open spec fn log_of(segs: Seq<Segment>) -> Seq<RecordView>
    decreases segs.len(),
{
    if segs.len() == 0 {
        Seq::empty()
    } else {
        log_of(segs.drop_last()) + segs.last().recs()
    }
}

/// Position of the segment with the given id, or -1 if there is none.
pub open spec fn seg_at(segs: Seq<Segment>, fid: u64) -> int
    decreases segs.len(),
{
    if segs.len() == 0 {
        -1
    } else if segs.first().file_id == fid {
        0
    } else {
        let rest = seg_at(segs.drop_first(), fid);
        if rest < 0 {
            -1
        } else {
            1 + rest
        }
    }
}

/// Whether some entry of the index carries this key.
pub open spec fn has_key(entries: Seq<IndexEntry>, k: Seq<u8>) -> bool {
    exists|p: int| 0 <= p < entries.len() && (#[trigger] entries[p])@.key == k
}

/// One index entry points, within these segments, at a whole record of
/// the right key whose value is the one the map binds.
pub open spec fn entry_tracks(segs: Seq<Segment>, m: Map<Seq<u8>, Seq<u8>>, e: IndexEntryView) -> bool {
    let si = seg_at(segs, e.file_id);
    &&& 0 <= si < segs.len()
    &&& rec_at_offset(segs[si].recs(), e.offset as int) matches Some(rv)
    &&& rv.key == e.key
    &&& rv.value.len() > 0
    &&& m.dom().contains(e.key)
    &&& rv.value == m[e.key]
}

/// The index lists exactly the keys of the map, each entry pointing at a
/// record holding that key's value.
pub open spec fn index_tracks(segs: Seq<Segment>, entries: Seq<IndexEntry>, m: Map<Seq<u8>, Seq<u8>>) -> bool {
    &&& forall|p: int, q: int|
        0 <= p < q < entries.len() ==> (#[trigger] entries[p])@.key != (#[trigger] entries[q])@.key
    &&& forall|p: int| 0 <= p < entries.len() ==> entry_tracks(segs, m, (#[trigger] entries[p])@)
    &&& forall|k: Seq<u8>| m.dom().contains(k) ==> has_key(entries, k)
}

/// Replaying one more record updates the map by that record alone.
pub proof fn lemma_replay_push(rs: Seq<RecordView>, r: RecordView)
    ensures
        replay(rs.push(r)) == (if r.is_tombstone() {
            replay(rs).remove(r.key)
        } else {
            replay(rs).insert(r.key, r.value)
        }),
{
    assert(rs.push(r).drop_last() =~= rs);
    assert(rs.push(r).last() == r);
}

/// Every value a replay binds is non-empty: tombstones only remove.
pub proof fn lemma_replay_values_nonempty(rs: Seq<RecordView>)
    ensures
        forall|k: Seq<u8>|
            #[trigger] replay(rs).dom().contains(k) ==> replay(rs)[k].len() > 0,
    decreases rs.len(),
{
    if rs.len() > 0 {
        lemma_replay_values_nonempty(rs.drop_last());
        let m = replay(rs.drop_last());
        let r = rs.last();
        assert forall|k: Seq<u8>| #[trigger]
            replay(rs).dom().contains(k) implies replay(rs)[k].len() > 0 by {
            if r.is_tombstone() {
                assert(m.dom().contains(k) && replay(rs)[k] == m[k]);
            } else if k == r.key {
                assert(replay(rs)[k] == r.value);
            } else {
                assert(m.dom().contains(k) && replay(rs)[k] == m[k]);
            }
        }
    }
}

proof fn lemma_log_of_push(segs: Seq<Segment>, s: Segment)
    ensures
        log_of(segs.push(s)) == log_of(segs) + s.recs(),
{
    assert(segs.push(s).drop_last() =~= segs);
    assert(segs.push(s).last() == s);
}

/// `seg_at` returns a real position bearing the id, or -1 when the id is
/// absent.
proof fn lemma_seg_at_valid(segs: Seq<Segment>, fid: u64)
    ensures
        seg_at(segs, fid) == -1 || (0 <= seg_at(segs, fid) < segs.len() && segs[seg_at(
            segs,
            fid,
        )].file_id == fid),
    decreases segs.len(),
{
    if segs.len() > 0 && segs.first().file_id != fid {
        lemma_seg_at_valid(segs.drop_first(), fid);
    }
}

/// With pairwise distinct ids, `seg_at` finds each position from its id.
proof fn lemma_seg_at_of_position(segs: Seq<Segment>, si: int)
    requires
        forall|i: int, j: int|
            0 <= i < j < segs.len() ==> (#[trigger] segs[i]).file_id != (
            #[trigger] segs[j]).file_id,
        0 <= si < segs.len(),
    ensures
        seg_at(segs, segs[si].file_id) == si,
    decreases segs.len(),
{
    if si > 0 {
        assert(segs.first().file_id != segs[si].file_id);
        lemma_seg_at_of_position(segs.drop_first(), si - 1);
        assert(segs.drop_first()[si - 1] == segs[si]);
    }
}

/// `seg_at` depends only on the ids.
proof fn lemma_seg_at_same_ids(s1: Seq<Segment>, s2: Seq<Segment>, fid: u64)
    requires
        s1.len() == s2.len(),
        forall|i: int|
            0 <= i < s1.len() ==> (#[trigger] s1[i]).file_id == (#[trigger] s2[i]).file_id,
    ensures
        seg_at(s1, fid) == seg_at(s2, fid),
    decreases s1.len(),
{
    if s1.len() > 0 {
        assert(s1.first().file_id == s2.first().file_id);
        lemma_seg_at_same_ids(s1.drop_first(), s2.drop_first(), fid);
    }
}

/// A segment appended at the end leaves all found positions as they are.
proof fn lemma_seg_at_push(segs: Seq<Segment>, s: Segment, fid: u64)
    requires
        0 <= seg_at(segs, fid),
    ensures
        seg_at(segs.push(s), fid) == seg_at(segs, fid),
    decreases segs.len(),
{
    assert(segs.len() > 0);
    assert(segs.push(s).first() == segs.first());
    assert(segs.push(s).drop_first() =~= segs.drop_first().push(s));
    if segs.first().file_id != fid {
        lemma_seg_at_push(segs.drop_first(), s, fid);
    }
}

/// Whether some record of the run carries this key.
pub open spec fn rec_keys_has(lv: Seq<RecordView>, k: Seq<u8>) -> bool {
    exists|p: int| 0 <= p < lv.len() && (#[trigger] lv[p]).key == k
}

/// Pairwise distinct keys.
pub open spec fn keys_distinct(lv: Seq<RecordView>) -> bool {
    forall|p: int, q: int| 0 <= p < q < lv.len() ==> (#[trigger] lv[p]).key != (#[trigger] lv[q]).key
}

/// No record of the run is a tombstone.
pub open spec fn no_tombstones(lv: Seq<RecordView>) -> bool {
    forall|p: int| 0 <= p < lv.len() ==> (#[trigger] lv[p]).value.len() > 0
}

/// A run of records with distinct keys and no tombstones replays to the
/// map that binds each record's key to its value.
pub proof fn lemma_replay_assoc(lv: Seq<RecordView>)
    requires
        keys_distinct(lv),
        no_tombstones(lv),
    ensures
        forall|k: Seq<u8>| #[trigger] replay(lv).dom().contains(k) == rec_keys_has(lv, k),
        forall|p: int|
            0 <= p < lv.len() ==> replay(lv).dom().contains((#[trigger] lv[p]).key) && replay(lv)[
                lv[p].key
            ] == lv[p].value,
    decreases lv.len(),
{
    if lv.len() == 0 {
        assert forall|k: Seq<u8>| #[trigger]
            replay(lv).dom().contains(k) == rec_keys_has(lv, k) by {
            assert(!replay(lv).dom().contains(k));
            assert(!rec_keys_has(lv, k));
        }
    } else {
        let body = lv.drop_last();
        let last = lv.last();
        assert(keys_distinct(body) && no_tombstones(body)) by {
            assert(forall|p: int| 0 <= p < body.len() ==> body[p] == lv[p]);
        }
        lemma_replay_assoc(body);
        assert(replay(lv) == replay(body).insert(last.key, last.value));
        assert forall|k: Seq<u8>| #[trigger]
            replay(lv).dom().contains(k) == rec_keys_has(lv, k) by {
            if replay(lv).dom().contains(k) {
                if k == last.key {
                    assert(lv[lv.len() - 1].key == k);
                } else {
                    assert(replay(body).dom().contains(k));
                    let p = choose|p: int| 0 <= p < body.len() && (#[trigger] body[p]).key == k;
                    assert(lv[p].key == k);
                }
                assert(rec_keys_has(lv, k));
            }
            if rec_keys_has(lv, k) {
                let p = choose|p: int| 0 <= p < lv.len() && (#[trigger] lv[p]).key == k;
                if p == lv.len() - 1 {
                    assert(replay(lv).dom().contains(k));
                } else {
                    assert(body[p].key == k);
                    assert(rec_keys_has(body, k));
                    assert(replay(body).dom().contains(k));
                }
            }
        }
        assert forall|p: int| 0 <= p < lv.len() implies replay(lv).dom().contains(
            (#[trigger] lv[p]).key,
        ) && replay(lv)[lv[p].key] == lv[p].value by {
            if p == lv.len() - 1 {
                assert(replay(lv)[last.key] == last.value);
            } else {
                assert(body[p] == lv[p]);
                assert(lv[p].key != last.key);
                assert(replay(lv)[lv[p].key] == replay(body)[lv[p].key]);
            }
        }
    }
}

/// Dropping one record of such a run drops exactly its key from the map.
pub proof fn lemma_replay_assoc_remove(lv: Seq<RecordView>, p: int)
    requires
        keys_distinct(lv),
        no_tombstones(lv),
        0 <= p < lv.len(),
    ensures
        replay(lv.remove(p)) == replay(lv).remove(lv[p].key),
{
    let small = lv.remove(p);
    assert(keys_distinct(small) && no_tombstones(small)) by {
        assert(forall|q: int|
            0 <= q < small.len() ==> #[trigger] small[q] == (if q < p {
                lv[q]
            } else {
                lv[q + 1]
            }));
        assert forall|i: int, j: int| 0 <= i < j < small.len() implies (
        #[trigger] small[i]).key != (#[trigger] small[j]).key by {
            let i0: int = if i < p {
                i
            } else {
                i + 1
            };
            let j0: int = if j < p {
                j
            } else {
                j + 1
            };
            assert(small[i] == lv[i0] && small[j] == lv[j0]);
        }
    }
    lemma_replay_assoc(lv);
    lemma_replay_assoc(small);
    let target = replay(lv).remove(lv[p].key);
    assert forall|k: Seq<u8>| #[trigger]
        replay(small).dom().contains(k) == target.dom().contains(k) by {
        if replay(small).dom().contains(k) {
            let q = choose|q: int| 0 <= q < small.len() && (#[trigger] small[q]).key == k;
            let q0: int = if q < p {
                q
            } else {
                q + 1
            };
            assert(small[q] == lv[q0]);
            assert(lv[q0].key == k);
            assert(rec_keys_has(lv, k));
            assert(k != lv[p].key);
        }
        if target.dom().contains(k) {
            assert(replay(lv).dom().contains(k) && k != lv[p].key);
            let q = choose|q: int| 0 <= q < lv.len() && (#[trigger] lv[q]).key == k;
            assert(q != p);
            if q < p {
                assert(small[q].key == k);
            } else {
                assert(small[q - 1].key == k);
            }
            assert(rec_keys_has(small, k));
        }
    }
    assert forall|k: Seq<u8>| target.dom().contains(k) implies replay(small)[k] == target[k] by {
        assert(replay(small).dom().contains(k));
        assert(rec_keys_has(small, k));
        let q = choose|q: int| 0 <= q < small.len() && (#[trigger] small[q]).key == k;
        let q0: int = if q < p {
            q
        } else {
            q + 1
        };
        assert(small[q] == lv[q0]);
        assert(replay(small)[k] == small[q].value);
        assert(replay(lv)[k] == lv[q0].value);
        assert(target[k] == replay(lv)[k]);
    }
    assert(replay(small) =~= target);
}

/// Position of the record that carries this key, if one does.
fn find_record(rs: &Vec<Record>, key: &Vec<u8>) -> (out: Option<usize>)
    ensures
        match out {
            Some(p) => p < rs@.len() && rs@[p as int]@.key == key@,
            None => !rec_keys_has(crate::record::views_of(rs@), key@),
        },
{
    let mut i: usize = 0;
    while i < rs.len()
        invariant
            i <= rs@.len(),
            forall|p: int| 0 <= p < i ==> (#[trigger] rs@[p])@.key != key@,
        decreases rs@.len() - i,
    {
        if bytes_eq(&rs[i].key, key) {
            return Some(i);
        }
        i = i + 1;
    }
    proof {
        let lv = crate::record::views_of(rs@);
        if rec_keys_has(lv, key@) {
            let p = choose|p: int| 0 <= p < lv.len() && (#[trigger] lv[p]).key == key@;
            assert(rs@[p]@.key == key@);
        }
    }
    None
}

/// Replacing an entry in place, key kept, carries no key in or out.
proof fn lemma_has_key_update(entries: Seq<IndexEntry>, p: int, e: IndexEntry)
    requires
        0 <= p < entries.len(),
        entries[p]@.key == e@.key,
    ensures
        forall|k: Seq<u8>| has_key(entries.update(p, e), k) == has_key(entries, k),
{
    assert forall|k: Seq<u8>| has_key(entries.update(p, e), k) == has_key(entries, k) by {
        if has_key(entries.update(p, e), k) {
            let q = choose|q: int|
                0 <= q < entries.update(p, e).len() && (#[trigger] entries.update(p, e)[q])@.key
                    == k;
            assert(0 <= q < entries.len() && entries[q]@.key == k || entries[p]@.key == k);
            assert(has_key(entries, k));
        }
        if has_key(entries, k) {
            let q = choose|q: int| 0 <= q < entries.len() && (#[trigger] entries[q])@.key == k;
            if q == p {
                assert(entries.update(p, e)[p]@.key == k);
            } else {
                assert(entries.update(p, e)[q]@.key == k);
            }
            assert(has_key(entries.update(p, e), k));
        }
    }
}

/// A pushed entry adds exactly its own key.
proof fn lemma_has_key_push(entries: Seq<IndexEntry>, e: IndexEntry)
    ensures
        forall|k: Seq<u8>| #![trigger has_key(entries.push(e), k)]
            has_key(entries.push(e), k) == (has_key(entries, k) || k == e@.key),
{
    assert forall|k: Seq<u8>| #![trigger has_key(entries.push(e), k)]
        has_key(entries.push(e), k) == (has_key(entries, k) || k == e@.key) by {
        if has_key(entries.push(e), k) {
            let q = choose|q: int|
                0 <= q < entries.push(e).len() && (#[trigger] entries.push(e)[q])@.key == k;
            if q < entries.len() {
                assert(entries[q]@.key == k);
                assert(has_key(entries, k));
            } else {
                assert(k == e@.key);
            }
        }
        if has_key(entries, k) {
            let q = choose|q: int| 0 <= q < entries.len() && (#[trigger] entries[q])@.key == k;
            assert(entries.push(e)[q]@.key == k);
            assert(has_key(entries.push(e), k));
        }
        if k == e@.key {
            assert(entries.push(e)[entries.len() as int]@.key == k);
            assert(has_key(entries.push(e), k));
        }
    }
}

/// With pairwise distinct keys, removing an entry takes exactly its key
/// out.
proof fn lemma_has_key_remove(entries: Seq<IndexEntry>, p: int)
    requires
        0 <= p < entries.len(),
        forall|i: int, j: int|
            0 <= i < j < entries.len() ==> (#[trigger] entries[i])@.key != (
            #[trigger] entries[j])@.key,
    ensures
        forall|k: Seq<u8>|
            has_key(entries.remove(p), k) == (has_key(entries, k) && k != entries[p]@.key),
{
    assert forall|k: Seq<u8>|
        has_key(entries.remove(p), k) == (has_key(entries, k) && k != entries[p]@.key) by {
        let small = entries.remove(p);
        if has_key(small, k) {
            let q = choose|q: int| 0 <= q < small.len() && (#[trigger] small[q])@.key == k;
            if q < p {
                assert(entries[q]@.key == k);
            } else {
                assert(entries[q + 1]@.key == k);
            }
            assert(has_key(entries, k));
            assert(k != entries[p]@.key);
        }
        if has_key(entries, k) && k != entries[p]@.key {
            let q = choose|q: int| 0 <= q < entries.len() && (#[trigger] entries[q])@.key == k;
            assert(q != p);
            if q < p {
                assert(small[q]@.key == k);
            } else {
                assert(small[q - 1]@.key == k);
            }
            assert(has_key(small, k));
        }
    }
}

/// Compares two byte strings.
fn bytes_eq(a: &Vec<u8>, b: &Vec<u8>) -> (out: bool)
    ensures
        out == (a@ == b@),
{
    if a.len() != b.len() {
        return false;
    }
    let mut i: usize = 0;
    while i < a.len()
        invariant
            i <= a@.len(),
            a@.len() == b@.len(),
            forall|j: int| 0 <= j < i ==> a@[j] == b@[j],
        decreases a@.len() - i,
    {
        if a[i] != b[i] {
            return false;
        }
        i = i + 1;
    }
    proof {
        assert(a@ =~= b@);
    }
    true
}

/// Copies a byte string.
fn copy_bytes(v: &Vec<u8>) -> (out: Vec<u8>)
    ensures
        out@ == v@,
{
    vstd::slice::slice_to_vec(v.as_slice())
}

/// Relies on chrono's `Utc::now` and `DateTime::timestamp_nanos_opt`: the
/// wall clock's reading as non-leap nanoseconds since the Unix epoch, or
/// `None` when that count falls outside `i64`. The reading depends on the
/// clock, so nothing is promised of it.
#[verifier::external_body]
fn clock_nanos() -> (t: Option<i64>) {
    chrono::Utc::now().timestamp_nanos_opt()
}

/// Encodes one segment's records into the byte content of its file.
fn seg_data(seg: &Segment) -> (out: Vec<u8>)
    ensures
        out@ == seg.bytes(),
{
    let mut out: Vec<u8> = Vec::new();
    proof {
        assert(seg.recs().take(0) =~= Seq::<RecordView>::empty());
        assert(out@ =~= spec_seg_bytes(seg.recs().take(0)));
    }
    let n = seg.records.len();
    let mut j: usize = 0;
    while j < n
        invariant
            n as int == seg.recs().len(),
            0 <= j <= n,
            out@ == spec_seg_bytes(seg.recs().take(j as int)),
        decreases n - j,
    {
        let mut chunk = crate::record::encode(&seg.records[j]);
        out.append(&mut chunk);
        proof {
            assert(seg.recs().take(j + 1).drop_last() =~= seg.recs().take(j as int));
            assert(seg.recs().take(j + 1).last() == seg.recs()[j as int]);
        }
        j = j + 1;
    }
    proof {
        assert(seg.recs().take(n as int) =~= seg.recs());
    }
    out
}

/// A prefix of the segments holds at most the whole log's bytes.
proof fn lemma_log_take_bound(segs: Seq<Segment>, k: int)
    requires
        0 <= k <= segs.len(),
        forall|i: int| 0 <= i < segs.len() ==> (#[trigger] segs[i]).wf(),
    ensures
        sum_enc(log_of(segs.take(k))) <= sum_enc(log_of(segs)),
    decreases segs.len() - k,
{
    if k < segs.len() {
        lemma_log_take_bound(segs, k + 1);
        assert(segs.take(k + 1).drop_last() =~= segs.take(k));
        assert(segs.take(k + 1).last() == segs[k]);
        lemma_sum_enc_concat(log_of(segs.take(k)), segs[k].recs());
        lemma_sum_enc_nonneg(segs[k].recs());
    } else {
        assert(segs.take(k) =~= segs);
    }
}

/// Position of the entry that carries this key, if one does.
fn find_entry(entries: &Vec<IndexEntry>, key: &Vec<u8>) -> (out: Option<usize>)
    ensures
        match out {
            Some(p) => p < entries@.len() && entries@[p as int]@.key == key@,
            None => !has_key(entries@, key@),
        },
{
    let mut i: usize = 0;
    while i < entries.len()
        invariant
            i <= entries@.len(),
            forall|p: int| 0 <= p < i ==> (#[trigger] entries@[p])@.key != key@,
        decreases entries@.len() - i,
    {
        if bytes_eq(&entries[i].key, key) {
            return Some(i);
        }
        i = i + 1;
    }
    None
}

/// The append-only key-value store: an in-memory model of the segment
/// files on disk, an index from each live key to its latest record, and
/// the rotation state.
pub struct LogFile {
    threshold: u64,
    current_file_id: u64,
    degraded: bool,
    segments: Vec<Segment>,
    index: Vec<IndexEntry>,
}

impl View for LogFile {
    type V = Map<Seq<u8>, Seq<u8>>;

    /// The observable store: each live key bound to its current value.
    closed spec fn view(&self) -> Map<Seq<u8>, Seq<u8>> {
        replay(log_of(self.segments@))
    }
}

impl Default for LogFile {
    /// A fresh engine, as `new` makes it.
    fn default() -> (out: Self)
        ensures
            out.inv(),
            out@ == Map::<Seq<u8>, Seq<u8>>::empty(),
            !out.is_open(),
    {
        Self::new()
    }
}

impl LogFile {
    /// All records the engine holds, in log order.
    pub closed spec fn log(self) -> Seq<RecordView> {
        log_of(self.segments@)
    }

    /// Total byte size of all segments.
    pub open spec fn log_bytes(self) -> int {
        sum_enc(self.log())
    }

    /// Id of the active segment; ids ever assigned are at most this.
    pub closed spec fn active_id(self) -> u64 {
        self.current_file_id
    }

    /// Whether an active segment exists to append to.
    pub closed spec fn is_open(self) -> bool {
        self.segments@.len() > 0
    }

    /// Whether the engine refuses writes until reopened.
    pub closed spec fn is_degraded(self) -> bool {
        self.degraded
    }

    /// The configured rotation threshold.
    pub closed spec fn spec_threshold(self) -> u64 {
        self.threshold
    }

    /// Byte size of the active segment; the offset the next record gets.
    pub closed spec fn active_size(self) -> int {
        if self.segments@.len() == 0 {
            0
        } else {
            self.segments@.last().size as int
        }
    }

    /// One index entry points at a whole record of the right key, whose
    /// value is the key's current one.
    pub closed spec fn entry_ok(self, e: IndexEntryView) -> bool {
        entry_tracks(self.segments@, self@, e)
    }

    /// The segment half of well-formedness: ids strictly ascend and end
    /// at the active id, sizes are consistent, and the whole log fits the
    /// 64-bit offsets.
    pub closed spec fn seg_inv(self) -> bool {
        let segs = self.segments@;
        &&& forall|i: int, j: int|
            0 <= i < j < segs.len() ==> (#[trigger] segs[i]).file_id < (#[trigger] segs[j]).file_id
        &&& forall|i: int| 0 <= i < segs.len() ==> (#[trigger] segs[i]).wf()
        &&& segs.len() > 0 ==> segs.last().file_id == self.current_file_id
        &&& forall|i: int|
            0 <= i < segs.len() ==> (#[trigger] segs[i]).file_id <= self.current_file_id
        &&& self.current_file_id >= 1
        &&& self.log_bytes() <= u64::MAX
    }

    /// The index half of well-formedness: one entry per live key and no
    /// other, each resolving to its key's current record.
    pub closed spec fn index_inv(self) -> bool {
        &&& forall|p: int, q: int|
            0 <= p < q < self.index@.len() ==> (#[trigger] self.index@[p])@.key != (
            #[trigger] self.index@[q])@.key
        &&& forall|p: int| 0 <= p < self.index@.len() ==> self.entry_ok((#[trigger] self.index@[p])@)
        &&& forall|k: Seq<u8>| self@.dom().contains(k) ==> has_key(self.index@, k)
    }

    /// Well-formedness of the whole engine.
    pub closed spec fn inv(self) -> bool {
        self.seg_inv() && self.index_inv()
    }

    /// A fresh engine: nothing on disk, nothing live, default threshold.
    /// `create` or `start` must run before records can be appended.
    pub fn new() -> (out: Self)
        ensures
            out.inv(),
            out@ == Map::<Seq<u8>, Seq<u8>>::empty(),
            out.log() == Seq::<RecordView>::empty(),
            !out.is_open(),
            !out.is_degraded(),
            out.active_id() == 1,
            out.spec_threshold() == DEFAULT_THRESHOLD,
            out.spec_segment_ids() == Seq::<u64>::empty(),
    {
        let out = LogFile {
            threshold: DEFAULT_THRESHOLD,
            current_file_id: 1,
            degraded: false,
            segments: Vec::new(),
            index: Vec::new(),
        };
        proof {
            assert(log_of(out.segments@) =~= Seq::<RecordView>::empty());
            assert(out@ =~= Map::<Seq<u8>, Seq<u8>>::empty());
            assert(out.spec_segment_ids() =~= Seq::<u64>::empty());
        }
        out
    }

    /// Opens the first, empty active segment if none exists yet; with one
    /// already there it leaves everything as it is.
    pub fn create(&mut self) -> (out: Result<(), StoreError>)
        requires
            old(self).inv(),
        ensures
            final(self).inv(),
            out == Ok::<(), StoreError>(()),
            final(self)@ == old(self)@,
            final(self).log() == old(self).log(),
            final(self).is_open(),
            final(self).active_id() == old(self).active_id(),
            final(self).spec_threshold() == old(self).spec_threshold(),
            final(self).is_degraded() == old(self).is_degraded(),
            old(self).is_open() ==> *final(self) == *old(self),
            !old(self).is_open() ==> final(self).spec_segment_ids() == old(
                self,
            ).spec_segment_ids().push(old(self).active_id()),
            !old(self).is_open() ==> final(self).active_size() == 0,
    {
        if self.segments.len() == 0 {
            proof {
                if old(self).index@.len() > 0 {
                    assert(old(self).entry_ok(old(self).index@[0]@));
                    assert(false);
                }
            }
            let seg = Segment { file_id: self.current_file_id, records: Vec::new(), size: 0 };
            self.segments.push(seg);
            proof {
                let segs = self.segments@;
                assert(segs.last().recs() =~= Seq::<RecordView>::empty());
                assert(segs.drop_last() =~= old(self).segments@);
                assert(log_of(segs) =~= old(self).log());
                assert(self@ == old(self)@);
                assert(self.log_bytes() == old(self).log_bytes());
                assert(segs.last().wf());
                assert(self.spec_segment_ids() =~= old(self).spec_segment_ids().push(
                    self.current_file_id,
                ));
                assert(self.inv());
            }
        }
        Ok(())
    }

    /// Appends one record for this key, updating the index and rotating
    /// the active segment once it has grown past the threshold. An empty
    /// value acts as a tombstone: the key stops being live. Timestamps
    /// come from the wall clock and do not affect what the store holds.
    #[verifier::rlimit(100)]
    pub fn append(&mut self, key: &Vec<u8>, value: &Vec<u8>) -> (out: Result<(), StoreError>)
        requires
            old(self).inv(),
            old(self).log_bytes() + 24 + key@.len() + value@.len() <= u64::MAX,
        ensures
            final(self).inv(),
            final(self).spec_threshold() == old(self).spec_threshold(),
            key@.len() == 0 ==> (out == Err::<(), StoreError>(StoreError::InvalidKey)
                && *final(self) == *old(self)),
            key@.len() > 0 && !old(self).is_open() ==> (out == Err::<(), StoreError>(
                StoreError::Io,
            ) && *final(self) == *old(self)),
            key@.len() > 0 && old(self).is_open() && old(self).is_degraded() ==> (out == Err::<
                (),
                StoreError,
            >(StoreError::RotationFailed) && *final(self) == *old(self)),
            key@.len() > 0 && old(self).is_open() && !old(self).is_degraded() ==> ({
                let n = 24 + key@.len() + value@.len();
                let pre = *old(self);
                let post = *final(self);
                let grown = pre.active_size() + n;
                &&& (exists|ts: i64|
                    post.log() == pre.log().push(
                        (RecordView { timestamp: ts, key: key@, value: value@ }),
                    ))
                &&& post@ == (if value@.len() == 0 {
                    pre@.remove(key@)
                } else {
                    pre@.insert(key@, value@)
                })
                &&& post.log_bytes() == pre.log_bytes() + n
                &&& (grown > pre.spec_threshold() && pre.active_id() < u64::MAX ==> out
                    == Ok::<(), StoreError>(()) && post.active_id() == pre.active_id() + 1
                    && post.active_size() == 0 && post.spec_segment_ids()
                    == pre.spec_segment_ids().push(post.active_id()) && !post.is_degraded()
                    && post.is_open())
                &&& (grown > pre.spec_threshold() && pre.active_id() == u64::MAX ==> out
                    == Err::<(), StoreError>(StoreError::RotationFailed) && post.is_degraded()
                    && post.active_id() == pre.active_id() && post.spec_segment_ids()
                    == pre.spec_segment_ids())
                &&& (grown <= pre.spec_threshold() ==> out == Ok::<(), StoreError>(())
                    && post.active_id() == pre.active_id() && post.active_size() == grown
                    && post.spec_segment_ids() == pre.spec_segment_ids()
                    && !post.is_degraded() && post.is_open())
            }),
    {
        if key.len() == 0 {
            return Err(StoreError::InvalidKey);
        }
        self.put_record(key, value)
    }

    /// The write path shared by `append`, `update` and `delete`: append
    /// the record, bring the index in line, rotate if the active segment
    /// has grown past the threshold. The key may be empty here: `delete`
    /// writes tombstones for whatever key is live, while `append` and
    /// `update` reject empty keys before calling this.
    fn put_record(&mut self, key: &Vec<u8>, value: &Vec<u8>) -> (out: Result<(), StoreError>)
        requires
            old(self).inv(),
            old(self).log_bytes() + 24 + key@.len() + value@.len() <= u64::MAX,
        ensures
            final(self).inv(),
            final(self).spec_threshold() == old(self).spec_threshold(),
            !old(self).is_open() ==> (out == Err::<(), StoreError>(StoreError::Io) && *final(self)
                == *old(self)),
            old(self).is_open() && old(self).is_degraded() ==> (out == Err::<(), StoreError>(
                StoreError::RotationFailed,
            ) && *final(self) == *old(self)),
            old(self).is_open() && !old(self).is_degraded() ==> ({
                let n = 24 + key@.len() + value@.len();
                let pre = *old(self);
                let post = *final(self);
                let grown = pre.active_size() + n;
                &&& (exists|ts: i64|
                    post.log() == pre.log().push(
                        (RecordView { timestamp: ts, key: key@, value: value@ }),
                    ))
                &&& post@ == (if value@.len() == 0 {
                    pre@.remove(key@)
                } else {
                    pre@.insert(key@, value@)
                })
                &&& post.log_bytes() == pre.log_bytes() + n
                &&& (grown > pre.spec_threshold() && pre.active_id() < u64::MAX ==> out
                    == Ok::<(), StoreError>(()) && post.active_id() == pre.active_id() + 1
                    && post.active_size() == 0 && post.spec_segment_ids()
                    == pre.spec_segment_ids().push(post.active_id()) && !post.is_degraded()
                    && post.is_open())
                &&& (grown > pre.spec_threshold() && pre.active_id() == u64::MAX ==> out
                    == Err::<(), StoreError>(StoreError::RotationFailed) && post.is_degraded()
                    && post.active_id() == pre.active_id() && post.spec_segment_ids()
                    == pre.spec_segment_ids())
                &&& (grown <= pre.spec_threshold() ==> out == Ok::<(), StoreError>(())
                    && post.active_id() == pre.active_id() && post.active_size() == grown
                    && post.spec_segment_ids() == pre.spec_segment_ids()
                    && !post.is_degraded() && post.is_open())
            }),
    {
        if self.segments.len() == 0 {
            return Err(StoreError::Io);
        }
        if self.degraded {
            return Err(StoreError::RotationFailed);
        }
        proof {
            lemma_sum_enc_nonneg(old(self).log());
        }
        let timestamp: i64 = match clock_nanos() {
            Some(t) => t,
            None => 0,
        };
        let rec = Record { timestamp, key: copy_bytes(key), value: copy_bytes(value) };
        let ghost rv = rec@;
        let rec_size: u64 = 24 + key.len() as u64 + value.len() as u64;
        let offset = self.extend_active(rec, rec_size);
        let tomb = value.len() == 0;
        self.apply_index(key, tomb, offset, Ghost(rv), Ghost(*old(self)));
        let ghost indexed = *self;
        proof {
            assert(indexed.inv());
            assert(self.log() == old(self).log().push(
                (RecordView { timestamp: rv.timestamp, key: key@, value: value@ }),
            ));
        }
        let grown = offset + rec_size;
        if grown > self.threshold {
            if self.current_file_id == u64::MAX {
                self.degraded = true;
                proof {
                    assert(self.segments@ == indexed.segments@);
                    assert(self.index@ == indexed.index@);
                    assert(self@ == indexed@);
                    assert forall|e: IndexEntryView| self.entry_ok(e) == indexed.entry_ok(
                        e,
                    ) by {
                        assert(self.segments@ == indexed.segments@);
                    }
                    assert(self.inv());
                }
                return Err(StoreError::RotationFailed);
            }
            self.rotate();
        }
        Ok(())
    }

    /// Appends one record to the active segment and keeps the size and
    /// offset bookkeeping straight; the index is not touched yet.
    fn extend_active(&mut self, rec: Record, rec_size: u64) -> (offset: u64)
        requires
            old(self).inv(),
            old(self).is_open(),
            rec_size as int == rec@.enc_len(),
            old(self).log_bytes() + rec@.enc_len() <= u64::MAX,
        ensures
            final(self).threshold == old(self).threshold,
            final(self).current_file_id == old(self).current_file_id,
            final(self).degraded == old(self).degraded,
            final(self).index@ == old(self).index@,
            final(self).seg_inv(),
            final(self).is_open(),
            final(self).segments@.len() == old(self).segments@.len(),
            final(self).log() == old(self).log().push(rec@),
            final(self)@ == (if rec@.is_tombstone() {
                old(self)@.remove(rec@.key)
            } else {
                old(self)@.insert(rec@.key, rec@.value)
            }),
            final(self).log_bytes() == old(self).log_bytes() + rec@.enc_len(),
            final(self).active_size() == old(self).active_size() + rec@.enc_len(),
            offset as int == old(self).active_size(),
            final(self).spec_segment_ids() == old(self).spec_segment_ids(),
            rec@.value.len() > 0 ==> final(self).entry_ok(
                (IndexEntryView {
                    key: rec@.key,
                    file_id: final(self).current_file_id,
                    offset: offset,
                }),
            ),
            forall|e: IndexEntryView|
                old(self).entry_ok(e) && e.key != rec@.key ==> final(self).entry_ok(e),
    {
        proof {
            lemma_sum_enc_nonneg(old(self).log());
            let segs = old(self).segments@;
            assert(segs =~= segs.drop_last().push(segs.last()));
            lemma_log_of_push(segs.drop_last(), segs.last());
            assert(log_of(segs.drop_last().push(segs.last())) == old(self).log());
            lemma_sum_enc_concat(log_of(segs.drop_last()), segs.last().recs());
            lemma_sum_enc_nonneg(log_of(segs.drop_last()));
            assert(old(self).active_size() <= old(self).log_bytes());
        }
        let ghost rv = rec@;
        let mut seg = self.segments.pop().unwrap();
        let offset: u64 = seg.size;
        seg.records.push(rec);
        seg.size = seg.size + rec_size;
        self.segments.push(seg);
        proof {
            let pre = *old(self);
            let presegs = pre.segments@;
            let n = presegs.len() as int;
            let oseg = presegs.last();
            let nseg = self.segments@.last();
            assert(self.segments@ =~= presegs.drop_last().push(nseg));
            assert(nseg.file_id == oseg.file_id);
            assert(nseg.recs() =~= oseg.recs().push(rv));
            lemma_log_of_push(presegs.drop_last(), oseg);
            assert(presegs.drop_last().push(oseg) =~= presegs);
            lemma_log_of_push(presegs.drop_last(), nseg);
            assert(log_of(presegs.drop_last()) + oseg.recs().push(rv) =~= (log_of(
                presegs.drop_last(),
            ) + oseg.recs()).push(rv));
            assert(self.log() == pre.log().push(rv));
            lemma_replay_push(pre.log(), rv);
            lemma_sum_enc_push(pre.log(), rv);
            assert(self.log_bytes() == pre.log_bytes() + rv.enc_len());
            lemma_sum_enc_push(oseg.recs(), rv);
            assert(nseg.wf());
            assert(forall|i: int|
                0 <= i < n ==> (#[trigger] self.segments@[i]).file_id == presegs[i].file_id);
            assert(forall|i: int| 0 <= i < n - 1 ==> self.segments@[i] == presegs[i]);
            assert forall|i: int, j: int| 0 <= i < j < n implies (
            #[trigger] self.segments@[i]).file_id < (#[trigger] self.segments@[j]).file_id by {
                assert(presegs[i].file_id < presegs[j].file_id);
            }
            assert(forall|i: int| 0 <= i < n ==> (#[trigger] self.segments@[i]).wf());
            assert(self.spec_segment_ids() =~= pre.spec_segment_ids());
            // the fresh record is found at its offset in the active segment
            assert(offset as int == sum_enc(oseg.recs()));
            lemma_rec_at_push_end(oseg.recs(), rv);
            assert(rec_at_offset(nseg.recs(), offset as int) == Some(rv));
            lemma_seg_at_of_position(self.segments@, n - 1);
            assert(seg_at(self.segments@, pre.active_id()) == n - 1);
            if rv.value.len() > 0 {
                assert(self@.dom().contains(rv.key) && self@[rv.key] == rv.value);
            }
            // entries whose key is another one still resolve to the same
            // record and the same current value
            assert forall|e: IndexEntryView|
                pre.entry_ok(e) && e.key != rv.key implies self.entry_ok(e) by {
                let si = seg_at(presegs, e.file_id);
                lemma_seg_at_same_ids(self.segments@, presegs, e.file_id);
                if si == n - 1 {
                    lemma_rec_at_push_stable(oseg.recs(), rv, e.offset as int);
                } else {
                    assert(self.segments@[si] == presegs[si]);
                }
                assert(self@.dom().contains(e.key) && self@[e.key] == pre@[e.key]);
            }
        }
        offset
    }

    /// Brings the index entry for this key in line with the record that
    /// `extend_active` just wrote at `offset`: an upsert for a value, a
    /// removal for a tombstone.
    fn apply_index(
        &mut self,
        key: &Vec<u8>,
        is_tombstone: bool,
        offset: u64,
        Ghost(rv): Ghost<RecordView>,
        Ghost(pre): Ghost<LogFile>,
    )
        requires
            pre.inv(),
            rv.key == key@,
            is_tombstone == rv.is_tombstone(),
            old(self).index@ == pre.index@,
            old(self).segments@.len() > 0,
            old(self)@ == (if rv.is_tombstone() {
                pre@.remove(rv.key)
            } else {
                pre@.insert(rv.key, rv.value)
            }),
            rv.value.len() > 0 ==> old(self).entry_ok(
                (IndexEntryView {
                    key: key@,
                    file_id: old(self).current_file_id,
                    offset: offset,
                }),
            ),
            forall|e: IndexEntryView| pre.entry_ok(e) && e.key != rv.key ==> old(self).entry_ok(e),
        ensures
            final(self).index_inv(),
            final(self).segments@ == old(self).segments@,
            final(self).current_file_id == old(self).current_file_id,
            final(self).threshold == old(self).threshold,
            final(self).degraded == old(self).degraded,
    {
        let ghost entries = old(self).index@;
        proof {
            assert(forall|p: int, q: int|
                0 <= p < q < entries.len() ==> (#[trigger] entries[p])@.key != (
                #[trigger] entries[q])@.key);
            assert(forall|p: int| 0 <= p < entries.len() ==> pre.entry_ok((#[trigger] entries[p])@));
        }
        let pos = find_entry(&self.index, key);
        if is_tombstone {
            match pos {
                Some(p) => {
                    self.index.remove(p);
                    proof {
                        assert(self.index@ == entries.remove(p as int));
                        assert forall|i: int, j: int|
                            0 <= i < j < self.index@.len() implies (
                        #[trigger] self.index@[i])@.key != (#[trigger] self.index@[j])@.key by {
                            let i0: int = if i < p { i } else { i + 1 };
                            let j0: int = if j < p { j } else { j + 1 };
                            assert(self.index@[i] == entries[i0]);
                            assert(self.index@[j] == entries[j0]);
                        }
                        assert forall|q: int| 0 <= q < self.index@.len() implies self.entry_ok(
                            (#[trigger] self.index@[q])@,
                        ) by {
                            let q0: int = if q < p { q } else { q + 1 };
                            assert(self.index@[q] == entries[q0]);
                            assert(pre.entry_ok(entries[q0]@));
                            assert(entries[q0]@.key != rv.key);
                            assert(old(self).entry_ok(entries[q0]@));
                            assert(self.segments@ == old(self).segments@ && self@ == old(self)@);
                        }
                        lemma_has_key_remove(entries, p as int);
                        assert forall|k: Seq<u8>| self@.dom().contains(k) implies has_key(
                            self.index@,
                            k,
                        ) by {
                            assert(pre@.dom().contains(k) && k != key@);
                            assert(has_key(entries, k));
                        }
                        assert(self.index_inv());
                    }
                },
                None => {
                    proof {
                        assert forall|q: int|
                            0 <= q < entries.len() implies (#[trigger] entries[q])@.key != key@ by {
                            if entries[q]@.key == key@ {
                                assert(has_key(entries, key@));
                            }
                        }
                        assert forall|q: int| 0 <= q < self.index@.len() implies self.entry_ok(
                            (#[trigger] self.index@[q])@,
                        ) by {
                            assert(pre.entry_ok(entries[q]@));
                            assert(entries[q]@.key != rv.key);
                            assert(old(self).entry_ok(entries[q]@));
                        }
                        assert forall|k: Seq<u8>| self@.dom().contains(k) implies has_key(
                            self.index@,
                            k,
                        ) by {
                            assert(pre@.dom().contains(k) && k != key@);
                        }
                        assert(self.index_inv());
                    }
                },
            }
        } else {
            let e = IndexEntry { key: copy_bytes(key), file_id: self.current_file_id, offset };
            let ghost ev = e@;
            proof {
                assert(ev == (IndexEntryView {
                    key: key@,
                    file_id: old(self).current_file_id,
                    offset: offset,
                }));
                assert(old(self).entry_ok(ev));
                assert(self.entry_ok(ev));
            }
            match pos {
                Some(p) => {
                    self.index.remove(p);
                    self.index.insert(p, e);
                    proof {
                        assert(self.index@ =~= entries.update(p as int, e));
                        assert forall|i: int, j: int|
                            0 <= i < j < self.index@.len() implies (
                        #[trigger] self.index@[i])@.key != (#[trigger] self.index@[j])@.key by {
                            assert(entries[i]@.key != entries[j]@.key);
                            assert(entries[p as int]@.key == key@);
                        }
                        assert forall|q: int| 0 <= q < self.index@.len() implies self.entry_ok(
                            (#[trigger] self.index@[q])@,
                        ) by {
                            if q != p {
                                assert(self.index@[q] == entries[q]);
                                assert(pre.entry_ok(entries[q]@));
                                assert(entries[q]@.key != rv.key);
                                assert(old(self).entry_ok(entries[q]@));
                            } else {
                                assert(self.index@[q]@ == ev);
                            }
                        }
                        lemma_has_key_update(entries, p as int, e);
                        assert forall|k: Seq<u8>| self@.dom().contains(k) implies has_key(
                            self.index@,
                            k,
                        ) by {
                            if k != key@ {
                                assert(pre@.dom().contains(k));
                                assert(has_key(entries, k));
                            } else {
                                assert(has_key(entries, key@));
                            }
                        }
                        assert(self.index_inv());
                    }
                },
                None => {
                    self.index.push(e);
                    proof {
                        assert forall|q: int|
                            0 <= q < entries.len() implies (#[trigger] entries[q])@.key != key@ by {
                            if entries[q]@.key == key@ {
                                assert(has_key(entries, key@));
                            }
                        }
                        assert forall|i: int, j: int|
                            0 <= i < j < self.index@.len() implies (
                        #[trigger] self.index@[i])@.key != (#[trigger] self.index@[j])@.key by {
                            if j < entries.len() {
                                assert(entries[i]@.key != entries[j]@.key);
                            } else {
                                assert(self.index@[j]@ == ev);
                                assert(entries[i]@.key != key@);
                            }
                        }
                        assert forall|q: int| 0 <= q < self.index@.len() implies self.entry_ok(
                            (#[trigger] self.index@[q])@,
                        ) by {
                            if q < entries.len() {
                                assert(self.index@[q] == entries[q]);
                                assert(pre.entry_ok(entries[q]@));
                                assert(entries[q]@.key != rv.key);
                                assert(old(self).entry_ok(entries[q]@));
                            } else {
                                assert(self.index@[q]@ == ev);
                            }
                        }
                        lemma_has_key_push(entries, e);
                        assert forall|k: Seq<u8>| self@.dom().contains(k) implies has_key(
                            self.index@,
                            k,
                        ) by {
                            if k != key@ {
                                assert(pre@.dom().contains(k));
                                assert(has_key(entries, k));
                            }
                        }
                        assert(self.index_inv());
                    }
                },
            }
        }
    }

    /// Looks a key up and returns a copy of its current value, straight
    /// from the record its index entry points at.
    pub fn read(&self, key: &Vec<u8>) -> (out: Result<Vec<u8>, StoreError>)
        requires
            self.inv(),
        ensures
            match out {
                Ok(v) => self@.dom().contains(key@) && v@ == self@[key@],
                Err(e) => e == StoreError::NotFound && !self@.dom().contains(key@),
            },
    {
        let pos = match find_entry(&self.index, key) {
            Some(p) => p,
            None => {
                return Err(StoreError::NotFound);
            },
        };
        let ghost ev = self.index@[pos as int]@;
        proof {
            assert(self.entry_ok(ev));
        }
        let entry_fid = self.index[pos].file_id;
        let entry_off = self.index[pos].offset;
        let ghost sa = seg_at(self.segments@, ev.file_id);
        let seg_count = self.segments.len();
        let mut si: usize = 0;
        while self.segments[si].file_id != entry_fid
            invariant
                self.inv(),
                self.entry_ok(ev),
                ev.file_id == entry_fid,
                ev.offset == entry_off,
                sa == seg_at(self.segments@, ev.file_id),
                self.segments@.len() == seg_count as int,
                0 <= si <= sa < self.segments@.len(),
                forall|j: int| 0 <= j < si ==> (#[trigger] self.segments@[j]).file_id != entry_fid,
            decreases sa - si,
        {
            proof {
                lemma_seg_at_valid(self.segments@, ev.file_id);
                if si as int == sa {
                    assert(false);
                }
            }
            si = si + 1;
        }
        proof {
            lemma_seg_at_of_position(self.segments@, si as int);
            assert(si as int == sa);
        }
        let seg = &self.segments[si];
        let ghost rvv = rec_at_offset(seg.recs(), ev.offset as int).unwrap();
        let rec_count = seg.records.len();
        proof {
            assert(seg.recs().skip(0) =~= seg.recs());
            assert(seg.recs().take(0) =~= Seq::<RecordView>::empty());
            assert(seg.recs().len() == rec_count as int);
        }
        let mut ri: usize = 0;
        let mut acc: u64 = 0;
        while acc != entry_off
            invariant
                seg.recs().len() == rec_count as int,
                0 <= ri <= rec_count,
                acc <= entry_off,
                seg.wf(),
                rec_at_offset(seg.recs().skip(ri as int), entry_off - acc) == Some(rvv),
                sum_enc(seg.recs()) <= u64::MAX,
                acc as int == sum_enc(seg.recs().take(ri as int)),
            decreases entry_off - acc,
        {
            let ghost tail = seg.recs().skip(ri as int);
            proof {
                assert(tail.len() > 0);
                assert(tail.first() == seg.recs()[ri as int]);
                lemma_sum_enc_bound(seg.recs(), ri as int);
                assert(tail.first().enc_len() <= entry_off - acc);
                assert(tail.drop_first() =~= seg.recs().skip(ri as int + 1));
                lemma_sum_enc_push(seg.recs().take(ri as int), seg.recs()[ri as int]);
                assert(seg.recs().take(ri as int).push(seg.recs()[ri as int]) =~= seg.recs().take(
                    ri as int + 1,
                ));
            }
            let r = &seg.records[ri];
            let step: u64 = 24 + r.key.len() as u64 + r.value.len() as u64;
            acc = acc + step;
            ri = ri + 1;
        }
        proof {
            let tail = seg.recs().skip(ri as int);
            assert(tail.len() > 0);
            assert(tail.first() == seg.recs()[ri as int]);
            assert(seg.recs()[ri as int] == rvv);
            assert(rvv.value == self@[key@]);
        }
        Ok(copy_bytes(&self.segments[si].records[ri].value))
    }

    /// Rewrites the value of a key that is already live; a key not live
    /// is refused. An empty value acts as a tombstone, as in `append`.
    pub fn update(&mut self, key: &Vec<u8>, value: &Vec<u8>) -> (out: Result<(), StoreError>)
        requires
            old(self).inv(),
            old(self).log_bytes() + 24 + key@.len() + value@.len() <= u64::MAX,
        ensures
            final(self).inv(),
            final(self).spec_threshold() == old(self).spec_threshold(),
            key@.len() == 0 ==> (out == Err::<(), StoreError>(StoreError::InvalidKey)
                && *final(self) == *old(self)),
            key@.len() > 0 && !old(self)@.dom().contains(key@) ==> (out == Err::<(), StoreError>(
                StoreError::NotFound,
            ) && *final(self) == *old(self)),
            key@.len() > 0 && old(self)@.dom().contains(key@) && old(self).is_degraded() ==> (out
                == Err::<(), StoreError>(StoreError::RotationFailed) && *final(self) == *old(
                self,
            )),
            key@.len() > 0 && old(self)@.dom().contains(key@) && !old(self).is_degraded() ==> ({
                let n = 24 + key@.len() + value@.len();
                let pre = *old(self);
                let post = *final(self);
                let grown = pre.active_size() + n;
                &&& (exists|ts: i64|
                    post.log() == pre.log().push(
                        (RecordView { timestamp: ts, key: key@, value: value@ }),
                    ))
                &&& post@ == (if value@.len() == 0 {
                    pre@.remove(key@)
                } else {
                    pre@.insert(key@, value@)
                })
                &&& post.log_bytes() == pre.log_bytes() + n
                &&& (grown > pre.spec_threshold() && pre.active_id() < u64::MAX ==> out
                    == Ok::<(), StoreError>(()) && post.active_id() == pre.active_id() + 1
                    && post.active_size() == 0 && !post.is_degraded() && post.is_open())
                &&& (grown > pre.spec_threshold() && pre.active_id() == u64::MAX ==> out
                    == Err::<(), StoreError>(StoreError::RotationFailed) && post.is_degraded())
                &&& (grown <= pre.spec_threshold() ==> out == Ok::<(), StoreError>(())
                    && post.active_id() == pre.active_id() && post.active_size() == grown
                    && !post.is_degraded() && post.is_open())
            }),
    {
        if key.len() == 0 {
            return Err(StoreError::InvalidKey);
        }
        match find_entry(&self.index, key) {
            Some(p) => {
                proof {
                    assert(self.entry_ok(self.index@[p as int]@));
                    assert(self@.dom().contains(key@));
                }
            },
            None => {
                return Err(StoreError::NotFound);
            },
        }
        self.append(key, value)
    }

    /// Takes a live key out of the store by appending a tombstone record
    /// and dropping its index entry; a key not live is refused.
    pub fn delete(&mut self, key: &Vec<u8>) -> (out: Result<(), StoreError>)
        requires
            old(self).inv(),
            old(self).log_bytes() + 24 + key@.len() <= u64::MAX,
        ensures
            final(self).inv(),
            final(self).spec_threshold() == old(self).spec_threshold(),
            !old(self)@.dom().contains(key@) ==> (out == Err::<(), StoreError>(
                StoreError::NotFound,
            ) && *final(self) == *old(self)),
            old(self)@.dom().contains(key@) && old(self).is_degraded() ==> (out == Err::<
                (),
                StoreError,
            >(StoreError::RotationFailed) && *final(self) == *old(self)),
            old(self)@.dom().contains(key@) && !old(self).is_degraded() ==> ({
                let n = 24 + key@.len();
                let pre = *old(self);
                let post = *final(self);
                let grown = pre.active_size() + n;
                &&& (exists|ts: i64|
                    post.log() == pre.log().push(
                        (RecordView { timestamp: ts, key: key@, value: Seq::empty() }),
                    ))
                &&& post@ == pre@.remove(key@)
                &&& post.log_bytes() == pre.log_bytes() + n
                &&& (grown > pre.spec_threshold() && pre.active_id() == u64::MAX ==> out
                    == Err::<(), StoreError>(StoreError::RotationFailed) && post.is_degraded())
                &&& (grown > pre.spec_threshold() && pre.active_id() < u64::MAX ==> out
                    == Ok::<(), StoreError>(()) && post.active_id() == pre.active_id() + 1
                    && post.active_size() == 0 && !post.is_degraded() && post.is_open())
                &&& (grown <= pre.spec_threshold() ==> out == Ok::<(), StoreError>(())
                    && post.active_id() == pre.active_id() && post.active_size() == grown
                    && !post.is_degraded() && post.is_open())
            }),
    {
        match find_entry(&self.index, key) {
            Some(p) => {
                proof {
                    assert(self.entry_ok(self.index@[p as int]@));
                    assert(self@.dom().contains(key@));
                }
            },
            None => {
                return Err(StoreError::NotFound);
            },
        }
        let empty: Vec<u8> = Vec::new();
        self.put_record(key, &empty)
    }

    /// Scans every segment in id order, offset order within each, and
    /// keeps for each key only its latest record, dropping keys whose
    /// latest record is a tombstone: the live set of the store.
    fn collect_live(&self) -> (live: Vec<Record>)
        requires
            self.inv(),
        ensures
            keys_distinct(views_of(live@)),
            no_tombstones(views_of(live@)),
            replay(views_of(live@)) == self@,
            sum_enc(views_of(live@)) <= self.log_bytes(),
    {
        let mut live: Vec<Record> = Vec::new();
        proof {
            assert(views_of(live@) =~= Seq::<RecordView>::empty());
            assert(self.segments@.take(0) =~= Seq::<Segment>::empty());
            assert(replay(views_of(live@)) =~= replay(log_of(self.segments@.take(0))));
        }
        let seg_count = self.segments.len();
        let mut si: usize = 0;
        while si < seg_count
            invariant
                self.inv(),
                seg_count as int == self.segments@.len(),
                0 <= si <= seg_count,
                keys_distinct(views_of(live@)),
                no_tombstones(views_of(live@)),
                replay(views_of(live@)) == replay(log_of(self.segments@.take(si as int))),
                sum_enc(views_of(live@)) <= sum_enc(log_of(self.segments@.take(si as int))),
            decreases seg_count - si,
        {
            let ghost done = log_of(self.segments@.take(si as int));
            let seg = &self.segments[si];
            let rec_count = seg.records.len();
            proof {
                assert(seg.recs().take(0) =~= Seq::<RecordView>::empty());
                assert(done + seg.recs().take(0) =~= done);
            }
            let mut rj: usize = 0;
            while rj < rec_count
                invariant
                    self.inv(),
                    seg_count as int == self.segments@.len(),
                    0 <= si < seg_count,
                    seg == &self.segments@[si as int],
                    done == log_of(self.segments@.take(si as int)),
                    rec_count as int == seg.recs().len(),
                    0 <= rj <= rec_count,
                    keys_distinct(views_of(live@)),
                    no_tombstones(views_of(live@)),
                    replay(views_of(live@)) == replay(done + seg.recs().take(rj as int)),
                    sum_enc(views_of(live@)) <= sum_enc(done + seg.recs().take(rj as int)),
                decreases rec_count - rj,
            {
                let ghost prefix = done + seg.recs().take(rj as int);
                let ghost rv = seg.recs()[rj as int];
                let ghost lv = views_of(live@);
                proof {
                    assert(seg.recs().take(rj + 1) =~= seg.recs().take(rj as int).push(rv));
                    assert(done + seg.recs().take(rj + 1) =~= prefix.push(rv));
                    lemma_replay_push(prefix, rv);
                    lemma_sum_enc_push(prefix, rv);
                    lemma_sum_enc_nonneg(seq![rv]);
                }
                let r = &seg.records[rj];
                let pos = find_record(&live, &r.key);
                if r.value.len() == 0 {
                    match pos {
                        Some(p) => {
                            live.remove(p);
                            proof {
                                assert(views_of(live@) =~= lv.remove(p as int));
                                lemma_replay_assoc_remove(lv, p as int);
                                lemma_sum_enc_remove(lv, p as int);
                                assert(lv[p as int].key == rv.key);
                                assert(keys_distinct(views_of(live@))
                                    && no_tombstones(views_of(live@))) by {
                                    assert(forall|q: int|
                                        0 <= q < lv.remove(p as int).len()
                                            ==> #[trigger] lv.remove(p as int)[q] == (if q < p {
                                            lv[q]
                                        } else {
                                            lv[q + 1]
                                        }));
                                }
                            }
                        },
                        None => {
                            proof {
                                lemma_replay_assoc(lv);
                                assert(!replay(lv).dom().contains(rv.key));
                                assert(replay(lv) =~= replay(lv).remove(rv.key));
                            }
                        },
                    }
                } else {
                    let cpy = Record {
                        timestamp: r.timestamp,
                        key: copy_bytes(&r.key),
                        value: copy_bytes(&r.value),
                    };
                    proof {
                        assert(cpy@ == rv);
                    }
                    match pos {
                        Some(p) => {
                            live.remove(p);
                            let ghost lv2 = views_of(live@);
                            proof {
                                assert(lv2 =~= lv.remove(p as int));
                                lemma_replay_assoc_remove(lv, p as int);
                                lemma_sum_enc_remove(lv, p as int);
                                assert(lv[p as int].key == rv.key);
                                assert(keys_distinct(lv2) && no_tombstones(lv2)) by {
                                    assert(forall|q: int|
                                        0 <= q < lv2.len() ==> #[trigger] lv2[q] == (if q < p {
                                            lv[q]
                                        } else {
                                            lv[q + 1]
                                        }));
                                }
                            }
                            live.push(cpy);
                            proof {
                                assert(views_of(live@) =~= lv2.push(rv));
                                lemma_replay_push(lv2, rv);
                                lemma_sum_enc_push(lv2, rv);
                                assert(replay(lv2).remove(rv.key).insert(rv.key, rv.value)
                                    =~= replay(lv2).insert(rv.key, rv.value));
                                assert(replay(lv).remove(rv.key).insert(rv.key, rv.value)
                                    =~= replay(lv).insert(rv.key, rv.value));
                                assert(keys_distinct(views_of(live@))) by {
                                    lemma_replay_assoc(lv2);
                                    assert(!rec_keys_has(lv2, rv.key));
                                    assert(forall|q: int|
                                        0 <= q < lv2.len() ==> #[trigger] lv2.push(rv)[q]
                                            == lv2[q]);
                                }
                            }
                        },
                        None => {
                            live.push(cpy);
                            proof {
                                assert(views_of(live@) =~= lv.push(rv));
                                lemma_replay_push(lv, rv);
                                lemma_sum_enc_push(lv, rv);
                                assert(keys_distinct(views_of(live@))) by {
                                    assert(forall|q: int|
                                        0 <= q < lv.len() ==> #[trigger] lv.push(rv)[q] == lv[q]);
                                }
                            }
                        },
                    }
                }
                rj = rj + 1;
            }
            proof {
                let nxt = self.segments@.take(si + 1);
                assert(nxt.drop_last() =~= self.segments@.take(si as int));
                assert(nxt.last() == self.segments@[si as int]);
                assert(log_of(nxt) == done + seg.recs());
                assert(seg.recs().take(rec_count as int) =~= seg.recs());
            }
            si = si + 1;
        }
        proof {
            assert(self.segments@.take(seg_count as int) =~= self.segments@);
        }
        live
    }

    /// Collapses all segments into a single new one that holds exactly
    /// the live records, under a fresh id above every earlier one, and
    /// rebuilds the index to point into it. What the store holds does not
    /// change.
    pub fn compact(&mut self) -> (out: Result<(), StoreError>)
        requires
            old(self).inv(),
        ensures
            final(self).inv(),
            final(self).spec_threshold() == old(self).spec_threshold(),
            !old(self).is_open() ==> (out == Err::<(), StoreError>(StoreError::Io) && *final(self)
                == *old(self)),
            old(self).is_open() && old(self).is_degraded() ==> (out == Err::<(), StoreError>(
                StoreError::RotationFailed,
            ) && *final(self) == *old(self)),
            old(self).is_open() && !old(self).is_degraded() && old(self).active_id() == u64::MAX
                ==> (out == Err::<(), StoreError>(StoreError::RotationFailed)
                && final(self).is_degraded() && final(self)@ == old(self)@),
            old(self).is_open() && !old(self).is_degraded() && old(self).active_id() < u64::MAX
                ==> ({
                let pre = *old(self);
                let post = *final(self);
                &&& out == Ok::<(), StoreError>(())
                &&& post@ == pre@
                &&& !post.is_degraded()
                &&& post.active_id() == pre.active_id() + 1
                &&& post.spec_segment_ids() == seq![post.active_id()]
                &&& keys_distinct(post.log())
                &&& no_tombstones(post.log())
                &&& post.log_bytes() == sum_enc(post.log())
                &&& post.active_size() == post.log_bytes()
            }),
    {
        if self.segments.len() == 0 {
            return Err(StoreError::Io);
        }
        if self.degraded {
            return Err(StoreError::RotationFailed);
        }
        if self.current_file_id == u64::MAX {
            self.degraded = true;
            proof {
                assert(self.segments@ == old(self).segments@);
                assert(self.index@ == old(self).index@);
                assert(self@ == old(self)@);
                assert forall|e: IndexEntryView| self.entry_ok(e) == old(self).entry_ok(e) by {
                    assert(self.segments@ == old(self).segments@);
                }
                assert(self.inv());
            }
            return Err(StoreError::RotationFailed);
        }
        let live = self.collect_live();
        let ghost lv = views_of(live@);
        let new_id = self.current_file_id + 1;
        let live_count = live.len();
        let mut entries: Vec<IndexEntry> = Vec::new();
        let mut size: u64 = 0;
        proof {
            assert(lv.take(0) =~= Seq::<RecordView>::empty());
            lemma_sum_enc_nonneg(old(self).log());
        }
        let mut i: usize = 0;
        while i < live_count
            invariant
                live_count as int == lv.len(),
                lv == views_of(live@),
                0 <= i <= live_count,
                sum_enc(lv) <= u64::MAX,
                keys_distinct(lv),
                no_tombstones(lv),
                size as int == sum_enc(lv.take(i as int)),
                entries@.len() == i as int,
                forall|p: int|
                    0 <= p < i ==> (#[trigger] entries@[p])@ == (IndexEntryView {
                        key: lv[p].key,
                        file_id: new_id,
                        offset: sum_enc(lv.take(p)) as u64,
                    }),
            decreases live_count - i,
        {
            proof {
                lemma_sum_enc_split(lv, i as int);
                lemma_sum_enc_nonneg(lv.skip(i as int));
                lemma_sum_enc_bound(lv, i as int);
                assert(lv.skip(i as int).first() == lv[i as int]);
                assert(lv.skip(i as int).drop_first() =~= lv.skip(i as int + 1));
                assert(sum_enc(lv.skip(i as int)) == lv[i as int].enc_len() + sum_enc(
                    lv.skip(i as int + 1),
                ));
                lemma_sum_enc_nonneg(lv.skip(i as int + 1));
                lemma_sum_enc_push(lv.take(i as int), lv[i as int]);
                assert(lv.take(i as int).push(lv[i as int]) =~= lv.take(i as int + 1));
            }
            let r = &live[i];
            entries.push(IndexEntry { key: copy_bytes(&r.key), file_id: new_id, offset: size });
            let step: u64 = 24 + r.key.len() as u64 + r.value.len() as u64;
            size = size + step;
            i = i + 1;
        }
        proof {
            assert(lv.take(live_count as int) =~= lv);
        }
        let seg = Segment { file_id: new_id, records: live, size };
        let mut fresh_segments: Vec<Segment> = Vec::new();
        fresh_segments.push(seg);
        self.segments = fresh_segments;
        self.index = entries;
        self.current_file_id = new_id;
        proof {
            let segs = self.segments@;
            assert(segs.len() == 1);
            assert(segs[0].recs() == lv);
            assert(log_of(segs.drop_last()) =~= Seq::<RecordView>::empty());
            assert(Seq::<RecordView>::empty() + segs.last().recs() =~= lv);
            assert(self.log() == lv);
            assert(self@ == old(self)@);
            assert(segs[0].wf());
            lemma_replay_assoc(lv);
            assert forall|p: int| 0 <= p < self.index@.len() implies self.entry_ok(
                (#[trigger] self.index@[p])@,
            ) by {
                let e = self.index@[p]@;
                assert(e.key == lv[p].key);
                assert(seg_at(segs, new_id) == 0);
                crate::record::lemma_rec_at_take(lv, p);
                assert(sum_enc(lv.take(p)) <= sum_enc(lv)) by {
                    lemma_sum_enc_split(lv, p);
                    lemma_sum_enc_nonneg(lv.skip(p));
                }
                lemma_sum_enc_nonneg(lv.take(p));
                assert(e.offset as int == sum_enc(lv.take(p)));
                assert(rec_at_offset(segs[0].recs(), e.offset as int) == Some(lv[p]));
            }
            assert forall|k: Seq<u8>| self@.dom().contains(k) implies has_key(
                self.index@,
                k,
            ) by {
                assert(replay(lv).dom().contains(k));
                assert(rec_keys_has(lv, k));
                let p = choose|p: int| 0 <= p < lv.len() && (#[trigger] lv[p]).key == k;
                assert(self.index@[p]@.key == k);
            }
            assert forall|p: int, q: int|
                0 <= p < q < self.index@.len() implies (#[trigger] self.index@[p])@.key != (
            #[trigger] self.index@[q])@.key by {
                assert(lv[p].key != lv[q].key);
            }
            assert(self.spec_segment_ids() =~= seq![new_id]);
            assert(self.inv());
        }
        Ok(())
    }

    /// Rebuilds the whole index from the segments alone, exactly as a
    /// scan of the files on disk would: ascending id, ascending offset,
    /// last record per key wins, tombstones drop their key.
    fn build_index(&mut self)
        requires
            old(self).seg_inv(),
            old(self).index@.len() == 0,
        ensures
            final(self).inv(),
            final(self).segments@ == old(self).segments@,
            final(self).current_file_id == old(self).current_file_id,
            final(self).threshold == old(self).threshold,
            final(self).degraded == old(self).degraded,
    {
        let ghost segs = self.segments@;
        let mut entries: Vec<IndexEntry> = Vec::new();
        proof {
            assert(segs.take(0) =~= Seq::<Segment>::empty());
            assert(replay(log_of(segs.take(0))) =~= Map::<Seq<u8>, Seq<u8>>::empty());
            assert(index_tracks(segs, entries@, replay(log_of(segs.take(0)))));
        }
        let seg_count = self.segments.len();
        let mut si: usize = 0;
        while si < seg_count
            invariant
                self.seg_inv(),
                segs == self.segments@,
                seg_count as int == segs.len(),
                0 <= si <= seg_count,
                index_tracks(segs, entries@, replay(log_of(segs.take(si as int)))),
            decreases seg_count - si,
        {
            let ghost done = log_of(segs.take(si as int));
            let rec_count = self.segments[si].records.len();
            proof {
                assert(self.segments@[si as int].recs().take(0) =~= Seq::<RecordView>::empty());
                assert(done + self.segments@[si as int].recs().take(0) =~= done);
                assert(self.segments@[si as int].recs().take(0) =~= Seq::<RecordView>::empty());
                assert(sum_enc(self.segments@[si as int].recs().take(0)) == 0);
            }
            let mut rj: usize = 0;
            let mut acc: u64 = 0;
            while rj < rec_count
                invariant
                    self.seg_inv(),
                    segs == self.segments@,
                    seg_count as int == segs.len(),
                    0 <= si < seg_count,
                    done == log_of(segs.take(si as int)),
                    rec_count as int == segs[si as int].recs().len(),
                    0 <= rj <= rec_count,
                    acc as int == sum_enc(segs[si as int].recs().take(rj as int)),
                    index_tracks(
                        segs,
                        entries@,
                        replay(done + segs[si as int].recs().take(rj as int)),
                    ),
                decreases rec_count - rj,
            {
                let ghost prefix = done + segs[si as int].recs().take(rj as int);
                let ghost m = replay(prefix);
                let ghost recs = segs[si as int].recs();
                let ghost rv = recs[rj as int];
                let ghost pre_entries = entries@;
                proof {
                    assert(recs.take(rj + 1) =~= recs.take(rj as int).push(rv));
                    assert(done + recs.take(rj + 1) =~= prefix.push(rv));
                    lemma_replay_push(prefix, rv);
                    lemma_sum_enc_push(recs.take(rj as int), rv);
                    // the running offset lands on this record
                    lemma_sum_enc_split(recs, rj as int);
                    lemma_sum_enc_nonneg(recs.skip(rj as int));
                    assert(recs.skip(rj as int).first() == rv);
                    assert(recs.skip(rj as int).drop_first() =~= recs.skip(rj as int + 1));
                    assert(sum_enc(recs.skip(rj as int)) == rv.enc_len() + sum_enc(
                        recs.skip(rj as int + 1),
                    ));
                    lemma_sum_enc_nonneg(recs.skip(rj as int + 1));
                    assert(segs[si as int].wf());
                    assert(acc as int + rv.enc_len() <= segs[si as int].size as int);
                    crate::record::lemma_rec_at_take(recs, rj as int);
                    assert(rec_at_offset(recs, acc as int) == Some(rv));
                }
                let r = &self.segments[si].records[rj];
                let pos = find_entry(&entries, &r.key);
                if r.value.len() == 0 {
                    match pos {
                        Some(p) => {
                            entries.remove(p);
                            proof {
                                assert(entries@ == pre_entries.remove(p as int));
                                assert forall|i: int, j: int|
                                    0 <= i < j < entries@.len() implies (
                                #[trigger] entries@[i])@.key != (#[trigger] entries@[j])@.key by {
                                    let i0: int = if i < p { i } else { i + 1 };
                                    let j0: int = if j < p { j } else { j + 1 };
                                    assert(entries@[i] == pre_entries[i0]);
                                    assert(entries@[j] == pre_entries[j0]);
                                }
                                assert forall|q: int|
                                    0 <= q < entries@.len() implies entry_tracks(
                                    segs,
                                    replay(prefix.push(rv)),
                                    (#[trigger] entries@[q])@,
                                ) by {
                                    let q0: int = if q < p { q } else { q + 1 };
                                    assert(entries@[q] == pre_entries[q0]);
                                    assert(entry_tracks(segs, m, pre_entries[q0]@));
                                    assert(pre_entries[q0]@.key != rv.key);
                                }
                                lemma_has_key_remove(pre_entries, p as int);
                                assert forall|k: Seq<u8>|
                                    replay(prefix.push(rv)).dom().contains(k) implies has_key(
                                    entries@,
                                    k,
                                ) by {
                                    assert(m.dom().contains(k) && k != rv.key);
                                    assert(has_key(pre_entries, k));
                                }
                            }
                        },
                        None => {
                            proof {
                                assert forall|q: int|
                                    0 <= q < pre_entries.len() implies (
                                #[trigger] pre_entries[q])@.key != rv.key by {
                                    if pre_entries[q]@.key == rv.key {
                                        assert(has_key(pre_entries, rv.key));
                                    }
                                }
                                assert(!m.dom().contains(rv.key)) by {
                                    if m.dom().contains(rv.key) {
                                        assert(has_key(pre_entries, rv.key));
                                        let q = choose|q: int|
                                            0 <= q < pre_entries.len() && (
                                            #[trigger] pre_entries[q])@.key == rv.key;
                                        assert(false);
                                    }
                                }
                                assert(replay(prefix.push(rv)) =~= m);
                            }
                        },
                    }
                } else {
                    let e = IndexEntry {
                        key: copy_bytes(&r.key),
                        file_id: self.segments[si].file_id,
                        offset: acc,
                    };
                    let ghost ev = e@;
                    proof {
                        lemma_seg_at_of_position(segs, si as int);
                        assert(seg_at(segs, ev.file_id) == si as int);
                        assert(entry_tracks(segs, replay(prefix.push(rv)), ev));
                    }
                    match pos {
                        Some(p) => {
                            entries.remove(p);
                            entries.insert(p, e);
                            proof {
                                assert(entries@ =~= pre_entries.update(p as int, e));
                                assert forall|i: int, j: int|
                                    0 <= i < j < entries@.len() implies (
                                #[trigger] entries@[i])@.key != (#[trigger] entries@[j])@.key by {
                                    assert(pre_entries[i]@.key != pre_entries[j]@.key);
                                    assert(pre_entries[p as int]@.key == rv.key);
                                }
                                assert forall|q: int|
                                    0 <= q < entries@.len() implies entry_tracks(
                                    segs,
                                    replay(prefix.push(rv)),
                                    (#[trigger] entries@[q])@,
                                ) by {
                                    if q != p {
                                        assert(entries@[q] == pre_entries[q]);
                                        assert(entry_tracks(segs, m, pre_entries[q]@));
                                        assert(pre_entries[q]@.key != rv.key);
                                    } else {
                                        assert(entries@[q]@ == ev);
                                    }
                                }
                                lemma_has_key_update(pre_entries, p as int, e);
                                assert forall|k: Seq<u8>|
                                    replay(prefix.push(rv)).dom().contains(k) implies has_key(
                                    entries@,
                                    k,
                                ) by {
                                    if k != rv.key {
                                        assert(m.dom().contains(k));
                                        assert(has_key(pre_entries, k));
                                    } else {
                                        assert(has_key(pre_entries, rv.key));
                                    }
                                }
                            }
                        },
                        None => {
                            entries.push(e);
                            proof {
                                assert forall|q: int|
                                    0 <= q < pre_entries.len() implies (
                                #[trigger] pre_entries[q])@.key != rv.key by {
                                    if pre_entries[q]@.key == rv.key {
                                        assert(has_key(pre_entries, rv.key));
                                    }
                                }
                                assert forall|i: int, j: int|
                                    0 <= i < j < entries@.len() implies (
                                #[trigger] entries@[i])@.key != (#[trigger] entries@[j])@.key by {
                                    if j < pre_entries.len() {
                                        assert(pre_entries[i]@.key != pre_entries[j]@.key);
                                    } else {
                                        assert(entries@[j]@ == ev);
                                        assert(pre_entries[i]@.key != rv.key);
                                    }
                                }
                                assert forall|q: int|
                                    0 <= q < entries@.len() implies entry_tracks(
                                    segs,
                                    replay(prefix.push(rv)),
                                    (#[trigger] entries@[q])@,
                                ) by {
                                    if q < pre_entries.len() {
                                        assert(entries@[q] == pre_entries[q]);
                                        assert(entry_tracks(segs, m, pre_entries[q]@));
                                        assert(pre_entries[q]@.key != rv.key);
                                    } else {
                                        assert(entries@[q]@ == ev);
                                    }
                                }
                                lemma_has_key_push(pre_entries, e);
                                assert forall|k: Seq<u8>|
                                    replay(prefix.push(rv)).dom().contains(k) implies has_key(
                                    entries@,
                                    k,
                                ) by {
                                    if k != rv.key {
                                        assert(m.dom().contains(k));
                                        assert(has_key(pre_entries, k));
                                    }
                                }
                            }
                        },
                    }
                }
                let step: u64 = 24 + r.key.len() as u64 + r.value.len() as u64;
                acc = acc + step;
                rj = rj + 1;
            }
            proof {
                let nxt = segs.take(si + 1);
                assert(nxt.drop_last() =~= segs.take(si as int));
                assert(nxt.last() == segs[si as int]);
                assert(segs[si as int].recs().take(rec_count as int) =~= segs[si as int].recs());
                assert(log_of(nxt) == done + segs[si as int].recs());
            }
            si = si + 1;
        }
        proof {
            assert(segs.take(seg_count as int) =~= segs);
        }
        self.index = entries;
        proof {
            assert(self@ == replay(log_of(segs)));
            assert forall|p: int| 0 <= p < self.index@.len() implies self.entry_ok(
                (#[trigger] self.index@[p])@,
            ) by {
                assert(entry_tracks(segs, replay(log_of(segs)), self.index@[p]@));
            }
            assert(self.index_inv());
        }
    }

    /// Reopens the store from the segment files found on disk, given as
    /// pairs of the id parsed from each file's name and the file's bytes.
    /// The files are put in ascending id order, each is scanned from its
    /// start up to its end or its first malformed bytes, and the index is
    /// rebuilt from what the scan finds. A fresh empty active segment is
    /// opened under an id above every one found.
    pub fn start(&mut self, files: Vec<(u64, Vec<u8>)>) -> (out: Result<(), StoreError>)
        requires
            ids_distinct(files@),
            forall|i: int| 0 <= i < files@.len() ==> (#[trigger] files@[i]).0 < u64::MAX,
            sum_data(files@) <= u64::MAX,
        ensures
            final(self).inv(),
            out == Ok::<(), StoreError>(()),
            final(self).spec_threshold() == old(self).spec_threshold(),
            !final(self).is_degraded(),
            final(self).is_open(),
            final(self).log() == scanned(arrange(files@)),
            final(self)@ == replay(scanned(arrange(files@))),
            final(self).active_size() == 0,
            files@.len() == 0 ==> final(self).active_id() == 1,
            files@.len() > 0 ==> final(self).active_id() == arrange(files@).last().0 + 1,
    {
        self.index = Vec::new();
        self.segments = Vec::new();
        self.degraded = false;
        self.current_file_id = 1;
        // order the files by id
        let ghost all = files@;
        let mut rest = files;
        let mut ordered: Vec<(u64, Vec<u8>)> = Vec::new();
        proof {
            assert(all.take(0) =~= Seq::<(u64, Vec<u8>)>::empty());
            assert(arrange(all.take(0)) =~= Seq::<(u64, Vec<u8>)>::empty());
            assert(all.skip(0) =~= all);
        }
        let mut k: usize = 0;
        let total = rest.len();
        while k < total
            invariant
                total as int == all.len(),
                0 <= k <= total,
                rest@ == all.skip(k as int),
                ordered@ == arrange(all.take(k as int)),
                ids_distinct(all),
                forall|i: int| 0 <= i < all.len() ==> (#[trigger] all[i]).0 < u64::MAX,
                sum_data(all) <= u64::MAX,
            decreases total - k,
        {
            let item = rest.remove(0);
            let ghost gitem = item;
            proof {
                assert(all.skip(k as int)[0] == all[k as int]);
                assert(all.skip(k as int).remove(0) =~= all.skip(k as int + 1));
                assert(gitem == all[k as int]);
            }
            let ghost before = ordered@;
            let x_id = item.0;
            let mut p: usize = 0;
            while p < ordered.len() && ordered[p].0 <= x_id
                invariant
                    0 <= p <= ordered@.len(),
                    x_id == gitem.0,
                    forall|q: int| 0 <= q < p ==> !((#[trigger] ordered@[q]).0 > x_id),
                decreases ordered@.len() - p,
            {
                p = p + 1;
            }
            ordered.insert(p, item);
            proof {
                lemma_insert_by_id_at(before, gitem, p as int);
                assert(ordered@ == before.insert(p as int, gitem));
                assert(all.take(k + 1).drop_last() =~= all.take(k as int));
                assert(all.take(k + 1).last() == all[k as int]);
                assert(arrange(all.take(k + 1)) == insert_by_id(before, gitem));
            }
            k = k + 1;
        }
        proof {
            assert(all.take(total as int) =~= all);
            assert(ids_distinct(all.take(total as int)));
            lemma_arrange_props(all);
        }
        let ghost ord = ordered@;
        // scan each file into a segment
        let file_count = ordered.len();
        let mut i: usize = 0;
        while i < file_count
            invariant
                ord == arrange(all),
                ordered@ == ord,
                file_count as int == ord.len(),
                0 <= i <= file_count,
                self.threshold == old(self).threshold,
                self.degraded == false,
                self.index@.len() == 0,
                self.segments@.len() == i as int,
                forall|j: int|
                    0 <= j < i ==> (#[trigger] self.segments@[j]).file_id == ord[j].0,
                forall|j: int| 0 <= j < i ==> (#[trigger] self.segments@[j]).wf(),
                log_of(self.segments@) == scanned(ord.take(i as int)),
                sum_enc(log_of(self.segments@)) <= sum_data(ord.take(i as int)),
                ids_ascending(ord),
                forall|j: int| 0 <= j < ord.len() ==> pair_in(all, #[trigger] ord[j]),
                sum_data(ord) == sum_data(all) <= u64::MAX,
            decreases file_count - i,
        {
            let ghost presegs = self.segments@;
            let (records, end) = crate::record::scan_segment(&ordered[i].1);
            proof {
                crate::record::lemma_scan_sum(ord[i as int].1@, 0);
            }
            let seg = Segment { file_id: ordered[i].0, records, size: end as u64 };
            self.segments.push(seg);
            proof {
                let nseg = self.segments@.last();
                assert(self.segments@ == presegs.push(nseg));
                assert(nseg.recs() == spec_scan(ord[i as int].1@, 0));
                assert(nseg.wf());
                lemma_log_of_push(presegs, nseg);
                assert(ord.take(i + 1).drop_last() =~= ord.take(i as int));
                assert(ord.take(i + 1).last() == ord[i as int]);
                assert(scanned(ord.take(i + 1)) == scanned(ord.take(i as int)) + spec_scan(
                    ord[i as int].1@,
                    0,
                ));
                lemma_sum_enc_concat(scanned(ord.take(i as int)), nseg.recs());
                assert(sum_data(ord.take(i + 1)) == sum_data(ord.take(i as int)) + ord[i
                    as int].1@.len());
            }
            i = i + 1;
        }
        proof {
            assert(ord.take(file_count as int) =~= ord);
            assert(sum_data(ord.take(file_count as int)) == sum_data(ord));
        }
        // open a fresh active segment above every id found
        let next_id: u64 = if file_count == 0 {
            1
        } else {
            proof {
                assert(pair_in(all, ord[file_count - 1]));
                let q = choose|q: int|
                    0 <= q < all.len() && (#[trigger] all[q]) == ord[file_count - 1];
                assert(all[q].0 < u64::MAX);
            }
            self.segments[file_count - 1].file_id + 1
        };
        self.current_file_id = next_id;
        let fresh = Segment { file_id: next_id, records: Vec::new(), size: 0 };
        let ghost presegs = self.segments@;
        self.segments.push(fresh);
        proof {
            let segs = self.segments@;
            assert(segs.last().recs() =~= Seq::<RecordView>::empty());
            lemma_log_of_push(presegs, segs.last());
            assert(log_of(presegs) + Seq::<RecordView>::empty() =~= log_of(presegs));
            assert(self.log() == scanned(ord));
            lemma_sum_enc_concat(log_of(presegs), Seq::<RecordView>::empty());
            assert forall|a: int, b: int| 0 <= a < b < segs.len() implies (
            #[trigger] segs[a]).file_id < (#[trigger] segs[b]).file_id by {
                if b < segs.len() - 1 {
                    assert(ord[a].0 < ord[b].0);
                } else {
                    assert(segs[a].file_id == ord[a].0);
                    if a < segs.len() - 2 {
                        assert(ord[a].0 < ord[segs.len() - 2].0);
                    }
                }
            }
            assert(forall|a: int|
                0 <= a < segs.len() ==> (#[trigger] segs[a]).file_id <= self.current_file_id);
            assert(self.seg_inv());
        }
        self.build_index();
        proof {
            assert(self.active_size() == 0);
            assert(self.inv());
        }
        Ok(())
    }

    /// Seals the active segment and opens an empty one under the next id.
    fn rotate(&mut self)
        requires
            old(self).inv(),
            old(self).is_open(),
            old(self).current_file_id < u64::MAX,
        ensures
            final(self).inv(),
            final(self).threshold == old(self).threshold,
            final(self).degraded == old(self).degraded,
            final(self).index@ == old(self).index@,
            final(self).current_file_id == old(self).current_file_id + 1,
            final(self).log() == old(self).log(),
            final(self)@ == old(self)@,
            final(self).log_bytes() == old(self).log_bytes(),
            final(self).is_open(),
            final(self).active_size() == 0,
            final(self).spec_segment_ids() == old(self).spec_segment_ids().push(
                final(self).current_file_id,
            ),
    {
        self.current_file_id = self.current_file_id + 1;
        let fresh = Segment { file_id: self.current_file_id, records: Vec::new(), size: 0 };
        self.segments.push(fresh);
        proof {
            let midsegs = old(self).segments@;
            let m = midsegs.len() as int;
            assert(self.segments@ == midsegs.push(fresh));
            assert(self.segments@.last().recs() =~= Seq::<RecordView>::empty());
            lemma_log_of_push(midsegs, fresh);
            assert(log_of(midsegs) + Seq::<RecordView>::empty() =~= log_of(midsegs));
            assert(self.log() == old(self).log());
            assert(self@ == old(self)@);
            assert(self.log_bytes() == old(self).log_bytes());
            assert forall|i: int, j: int| 0 <= i < j < self.segments@.len() implies (
            #[trigger] self.segments@[i]).file_id < (#[trigger] self.segments@[j]).file_id by {
                if j < m {
                    assert(midsegs[i].file_id < midsegs[j].file_id);
                } else {
                    assert(self.segments@[i] == midsegs[i]);
                    assert(midsegs[i].file_id <= old(self).current_file_id);
                }
            }
            assert forall|q: int| 0 <= q < self.index@.len() implies self.entry_ok(
                (#[trigger] self.index@[q])@,
            ) by {
                let e = self.index@[q]@;
                assert(old(self).entry_ok(e));
                lemma_seg_at_push(midsegs, fresh, e.file_id);
                assert(self.segments@[seg_at(midsegs, e.file_id)] == midsegs[seg_at(
                    midsegs,
                    e.file_id,
                )]);
            }
            assert(self.spec_segment_ids() =~= old(self).spec_segment_ids().push(
                self.current_file_id,
            ));
            assert(self.inv());
        }
    }

    /// Sets the rotation threshold: the active segment is sealed once it
    /// grows past this many bytes.
    pub fn set_segment_size_threshold(&mut self, bytes: u64)
        ensures
            final(self).spec_threshold() == bytes,
            final(self).inv() == old(self).inv(),
            final(self)@ == old(self)@,
            final(self).log() == old(self).log(),
            final(self).is_open() == old(self).is_open(),
            final(self).is_degraded() == old(self).is_degraded(),
            final(self).active_id() == old(self).active_id(),
            final(self).active_size() == old(self).active_size(),
            final(self).log_bytes() == old(self).log_bytes(),
    {
        self.threshold = bytes;
        proof {
            assert(self.segments@ == old(self).segments@);
            assert(self.index@ == old(self).index@);
            assert(self@ == old(self)@);
            assert(self.log_bytes() == old(self).log_bytes());
            assert forall|e: IndexEntryView| self.entry_ok(e) == old(self).entry_ok(e) by {
                assert(self.segments@ == old(self).segments@);
            }
            if old(self).inv() {
                assert(self.inv());
            }
            if self.inv() {
                assert(old(self).inv());
            }
        }
    }

    /// Ids of all segments, ascending; the last is the active segment's.
    pub closed spec fn spec_segment_ids(self) -> Seq<u64> {
        self.segments@.map_values(|s: Segment| s.file_id)
    }

    /// The byte content of the segment with this id, if one exists.
    pub closed spec fn spec_segment_data(self, file_id: u64) -> Option<Seq<u8>> {
        let si = seg_at(self.segments@, file_id);
        if 0 <= si < self.segments@.len() {
            Some(self.segments@[si].bytes())
        } else {
            None
        }
    }

    /// The byte content of every segment file, paired with its id and in
    /// ascending id order: what a crash would leave on disk.
    pub closed spec fn spec_disk_image(self) -> Seq<(u64, Seq<u8>)> {
        self.segments@.map_values(|s: Segment| (s.file_id, s.bytes()))
    }

    /// The byte content of the segment with this id: the bytes its file
    /// on disk holds.
    pub fn segment_data(&self, file_id: u64) -> (out: Option<Vec<u8>>)
        requires
            self.inv(),
        ensures
            match out {
                Some(b) => self.spec_segment_data(file_id) == Some(b@),
                None => self.spec_segment_data(file_id) is None,
            },
    {
        let n = self.segments.len();
        let mut i: usize = 0;
        while i < n
            invariant
                self.inv(),
                n as int == self.segments@.len(),
                0 <= i <= n,
                forall|j: int| 0 <= j < i ==> (#[trigger] self.segments@[j]).file_id != file_id,
            decreases n - i,
        {
            if self.segments[i].file_id == file_id {
                let bytes = seg_data(&self.segments[i]);
                proof {
                    lemma_seg_at_of_position(self.segments@, i as int);
                }
                return Some(bytes);
            }
            i = i + 1;
        }
        proof {
            lemma_seg_at_valid(self.segments@, file_id);
        }
        None
    }

    /// The index entries, in the order the index holds them.
    pub closed spec fn spec_index_entries(self) -> Seq<IndexEntryView> {
        self.index@.map_values(|e: IndexEntry| e@)
    }

    /// The bytes of a hint file for the store's current index: written
    /// beside a compacted segment so a later recovery can find every
    /// live key at once.
    pub fn hint_data(&self) -> (out: Vec<u8>)
        ensures
            out@ == crate::hint::spec_hint_bytes(self.spec_index_entries()),
    {
        crate::hint::encode_hint(&self.index)
    }

    /// The byte content of every segment file with its id, ascending:
    /// what the store's directory holds, and what `start` takes back.
    pub fn disk_image(&self) -> (out: Vec<(u64, Vec<u8>)>)
        requires
            self.inv(),
        ensures
            out@.map_values(|p: (u64, Vec<u8>)| (p.0, p.1@)) == self.spec_disk_image(),
    {
        let mut out: Vec<(u64, Vec<u8>)> = Vec::new();
        let n = self.segments.len();
        let mut i: usize = 0;
        proof {
            assert(out@.map_values(|p: (u64, Vec<u8>)| (p.0, p.1@)) =~= self.segments@.take(
                0,
            ).map_values(|s: Segment| (s.file_id, s.bytes())));
        }
        while i < n
            invariant
                self.inv(),
                n as int == self.segments@.len(),
                0 <= i <= n,
                out@.map_values(|p: (u64, Vec<u8>)| (p.0, p.1@)) == self.segments@.take(
                    i as int,
                ).map_values(|s: Segment| (s.file_id, s.bytes())),
            decreases n - i,
        {
            let ghost prev = out@;
            let bytes = seg_data(&self.segments[i]);
            let ghost gb = bytes@;
            let fid = self.segments[i].file_id;
            out.push((fid, bytes));
            proof {
                let m1 = out@.map_values(|p: (u64, Vec<u8>)| (p.0, p.1@));
                let t = self.segments@.take(i + 1).map_values(
                    |s: Segment| (s.file_id, s.bytes()),
                );
                assert(prev.map_values(|p: (u64, Vec<u8>)| (p.0, p.1@)).len() == prev.len());
                assert(self.segments@.take(i as int).map_values(
                    |s: Segment| (s.file_id, s.bytes()),
                ).len() == i);
                assert(prev.len() == i);
                assert(out@.len() == i + 1);
                assert forall|j: int| 0 <= j < i + 1 implies m1[j] == t[j] by {
                    if j < i {
                        assert(out@[j] == prev[j]);
                        assert(prev.map_values(|p: (u64, Vec<u8>)| (p.0, p.1@))[j]
                            == self.segments@.take(i as int).map_values(
                            |s: Segment| (s.file_id, s.bytes()),
                        )[j]);
                    } else {
                        assert(out@[j].0 == fid && out@[j].1@ == gb);
                        assert(t[j] == (self.segments@[i as int].file_id, self.segments@[i
                            as int].bytes()));
                    }
                }
                assert(m1 =~= t);
            }
            i = i + 1;
        }
        proof {
            assert(self.segments@.take(n as int) =~= self.segments@);
        }
        out
    }

    /// Total byte size of all segments together.
    pub fn total_size(&self) -> (out: u64)
        requires
            self.inv(),
        ensures
            out as int == self.log_bytes(),
    {
        let n = self.segments.len();
        let mut acc: u64 = 0;
        let mut i: usize = 0;
        proof {
            assert(self.segments@.take(0) =~= Seq::<Segment>::empty());
        }
        while i < n
            invariant
                self.inv(),
                n as int == self.segments@.len(),
                0 <= i <= n,
                acc as int == sum_enc(log_of(self.segments@.take(i as int))),
            decreases n - i,
        {
            proof {
                let segs = self.segments@;
                assert(segs.take(i + 1).drop_last() =~= segs.take(i as int));
                assert(segs.take(i + 1).last() == segs[i as int]);
                lemma_sum_enc_concat(log_of(segs.take(i as int)), segs[i as int].recs());
                lemma_log_take_bound(segs, i + 1);
                assert(sum_enc(log_of(segs.take(i + 1))) <= self.log_bytes());
            }
            acc = acc + self.segments[i].size;
            i = i + 1;
        }
        proof {
            assert(self.segments@.take(n as int) =~= self.segments@);
        }
        acc
    }

    /// Ids of all segments, ascending; the last one is the active segment.
    pub fn segment_ids(&self) -> (out: Vec<u64>)
        ensures
            out@ == self.spec_segment_ids(),
    {
        let mut out: Vec<u64> = Vec::new();
        let mut i: usize = 0;
        while i < self.segments.len()
            invariant
                i <= self.segments@.len(),
                out@ == self.segments@.take(i as int).map_values(|s: Segment| s.file_id),
            decreases self.segments@.len() - i,
        {
            out.push(self.segments[i].file_id);
            proof {
                assert(self.segments@.take(i + 1) =~= self.segments@.take(i as int).push(
                    self.segments@[i as int],
                ));
                assert(self.segments@.take(i + 1).map_values(|s: Segment| s.file_id)
                    =~= self.segments@.take(i as int).map_values(|s: Segment| s.file_id).push(
                    self.segments@[i as int].file_id,
                ));
            }
            i = i + 1;
        }
        proof {
            assert(self.segments@.take(self.segments@.len() as int) =~= self.segments@);
        }
        out
    }
}

/// Law: a value just written is the value read back. After a successful
/// `append` of a non-empty value, whose contract gives the new store
/// `pre@.insert(key, value)`, `read` on that key — whose contract returns
/// exactly the store's binding — yields that value.
pub proof fn lemma_put_then_get(pre: LogFile, post: LogFile, key: Seq<u8>, value: Seq<u8>)
    requires
        post@ == pre@.insert(key, value),
    ensures
        post@.dom().contains(key),
        post@[key] == value,
{
}

/// Law: the last write wins. Of any two writes to one key, in whatever
/// store they land, a read sees only the later one.
pub proof fn lemma_last_write_wins(pre: LogFile, key: Seq<u8>, v1: Seq<u8>, v2: Seq<u8>)
    ensures
        pre@.insert(key, v1).insert(key, v2).dom().contains(key),
        pre@.insert(key, v1).insert(key, v2)[key] == v2,
{
}

/// Law: a tombstone masks all history. After a write of a key and then a
/// `delete` — whose contract gives the new store `pre@.remove(key)` — the
/// key is not live, whatever was written before.
pub proof fn lemma_tombstone_masks(pre: LogFile, key: Seq<u8>, value: Seq<u8>)
    ensures
        !pre@.insert(key, value).remove(key).dom().contains(key),
{
}

/// Law: segment ids only climb. In a well-formed store the ids stand in
/// strictly ascending order, ending at the active id; each operation's
/// contract leaves the active id the same or higher, so every id the
/// store ever assigns lies above every earlier one.
pub proof fn lemma_segment_ids_ascend(e: LogFile)
    requires
        e.inv(),
    ensures
        forall|i: int, j: int|
            0 <= i < j < e.spec_segment_ids().len() ==> e.spec_segment_ids()[i]
                < e.spec_segment_ids()[j],
        e.spec_segment_ids().len() > 0 ==> e.spec_segment_ids().last() == e.active_id(),
{
}

/// The byte total of the disk image is the byte total of the log.
proof fn lemma_image_sum(segs: Seq<Segment>, img: Seq<(u64, Vec<u8>)>)
    requires
        img.len() == segs.len(),
        forall|i: int|
            0 <= i < segs.len() ==> (#[trigger] img[i]).1@ == (#[trigger] segs[i]).bytes(),
    ensures
        sum_data(img) == sum_enc(log_of(segs)),
    decreases segs.len(),
{
    if segs.len() > 0 {
        assert(img.drop_last().len() == segs.drop_last().len());
        assert(forall|i: int|
            0 <= i < segs.drop_last().len() ==> (#[trigger] img.drop_last()[i]) == img[i] && (
            #[trigger] segs.drop_last()[i]) == segs[i]);
        lemma_image_sum(segs.drop_last(), img.drop_last());
        crate::record::lemma_seg_bytes_len(segs.last().recs());
        lemma_sum_enc_concat(log_of(segs.drop_last()), segs.last().recs());
        assert(img.last().1@ == segs[segs.len() - 1].bytes());
    }
}

/// Scanning the disk image finds exactly the log's records.
proof fn lemma_image_scan(segs: Seq<Segment>, img: Seq<(u64, Vec<u8>)>)
    requires
        img.len() == segs.len(),
        forall|i: int|
            0 <= i < segs.len() ==> (#[trigger] img[i]).1@ == (#[trigger] segs[i]).bytes(),
        forall|i: int| 0 <= i < segs.len() ==> (#[trigger] segs[i]).wf(),
    ensures
        scanned(img) == log_of(segs),
    decreases segs.len(),
{
    if segs.len() > 0 {
        assert(img.drop_last().len() == segs.drop_last().len());
        assert(forall|i: int|
            0 <= i < segs.drop_last().len() ==> (#[trigger] img.drop_last()[i]) == img[i] && (
            #[trigger] segs.drop_last()[i]) == segs[i]);
        lemma_image_scan(segs.drop_last(), img.drop_last());
        let recs = segs.last().recs();
        assert(segs[segs.len() - 1].wf());
        assert(crate::record::all_fit(recs)) by {
            assert forall|i: int| 0 <= i < recs.len() implies (#[trigger] recs[i]).fits() by {
                lemma_sum_enc_bound(recs, i);
            }
        }
        crate::record::lemma_scan_seg_bytes(recs);
        assert(img.last().1@ == segs[segs.len() - 1].bytes());
        assert(spec_scan(img.last().1@, 0) == recs);
    }
}

/// Law: recovery restores the store. Reopening from the bytes the
/// segment files hold — with `start`, whose contract rebuilds the store
/// as `replay(scanned(arrange(img)))` — yields exactly the store that
/// wrote them, however the process stopped.
pub proof fn lemma_recovery_equivalence(e: LogFile, img: Seq<(u64, Vec<u8>)>)
    requires
        e.inv(),
        img.map_values(|p: (u64, Vec<u8>)| (p.0, p.1@)) == e.spec_disk_image(),
    ensures
        ids_distinct(img),
        forall|i: int| 0 <= i < img.len() ==> (#[trigger] img[i]).0 <= e.active_id(),
        sum_data(img) <= u64::MAX,
        replay(scanned(arrange(img))) == e@,
{
    let segs = e.segments@;
    let lhs = img.map_values(|p: (u64, Vec<u8>)| (p.0, p.1@));
    let rhs = segs.map_values(|s: Segment| (s.file_id, s.bytes()));
    assert(lhs.len() == img.len() && rhs.len() == segs.len());
    assert forall|i: int|
        0 <= i < img.len() implies (#[trigger] img[i]).0 == segs[i].file_id && img[i].1@
        == segs[i].bytes() by {
        assert(lhs[i] == rhs[i]);
    }
    assert(ids_ascending(img)) by {
        assert forall|i: int, j: int| 0 <= i < j < img.len() implies (#[trigger] img[i]).0 < (
        #[trigger] img[j]).0 by {
            assert(segs[i].file_id < segs[j].file_id);
        }
    }
    assert(ids_distinct(img));
    crate::recovery::lemma_arrange_of_sorted(img);
    lemma_image_sum(segs, img);
    lemma_image_scan(segs, img);
}

} // verus!
