use vstd::prelude::*;

verus! {

use vstd::bytes::{
    spec_u64_to_le_bytes, spec_u64_from_le_bytes, lemma_auto_spec_u64_to_from_le_bytes,
    u64_to_le_bytes, u64_from_le_bytes,
};
use vstd::slice::{slice_subrange, slice_to_vec};

/// Byte length of the fixed record header: a timestamp, a key size and a
/// value size, eight bytes each, little-endian.
pub const HEADER_LEN: u64 = 24;

/// One log record. A record whose value is empty is a tombstone: it marks
/// its key as deleted.
pub struct Record {
    pub timestamp: i64,
    pub key: Vec<u8>,
    pub value: Vec<u8>,
}

/// The mathematical content of a [`Record`].
pub struct RecordView {
    pub timestamp: i64,
    pub key: Seq<u8>,
    pub value: Seq<u8>,
}

impl View for Record {
    type V = RecordView;

    open spec fn view(&self) -> RecordView {
        RecordView { timestamp: self.timestamp, key: self.key@, value: self.value@ }
    }
}

impl RecordView {
    /// A tombstone carries no value payload.
    pub open spec fn is_tombstone(self) -> bool {
        self.value.len() == 0
    }

    /// Byte length of the encoding of this record.
    pub open spec fn enc_len(self) -> int {
        24 + self.key.len() as int + self.value.len() as int
    }

    /// Whether the key and value sizes can be written in the 64-bit header
    /// fields without loss.
    pub open spec fn fits(self) -> bool {
        self.key.len() <= u64::MAX && self.value.len() <= u64::MAX
    }

    /// The on-disk encoding: timestamp, key size, value size, then the key
    /// and value bytes, all integers little-endian.
    pub open spec fn enc(self) -> Seq<u8> {
        spec_u64_to_le_bytes(self.timestamp as u64) + spec_u64_to_le_bytes(
            self.key.len() as u64,
        ) + spec_u64_to_le_bytes(self.value.len() as u64) + self.key + self.value
    }
}

pub proof fn lemma_enc_len(r: RecordView)
    ensures
        r.enc().len() == r.enc_len(),
{
    lemma_auto_spec_u64_to_from_le_bytes();
}

/// What decoding finds at one offset of a segment: a record and the offset
/// just after it, a clean end of the data, or bytes that do not form a
/// whole record.
pub enum Decoded {
    Item(Record, usize),
    End,
    Corrupt,
}

/// The record that starts at offset `off` of `data`, with the offset just
/// after it, or `None` if no whole record lies there.
pub open spec fn spec_decode_at(data: Seq<u8>, off: int) -> Option<(RecordView, int)> {
    if 0 <= off && off + 24 <= data.len() {
        let ts = spec_u64_from_le_bytes(data.subrange(off, off + 8)) as i64;
        let klen = spec_u64_from_le_bytes(data.subrange(off + 8, off + 16)) as int;
        let vlen = spec_u64_from_le_bytes(data.subrange(off + 16, off + 24)) as int;
        if off + 24 + klen + vlen <= data.len() {
            Some(
                (
                    RecordView {
                        timestamp: ts,
                        key: data.subrange(off + 24, off + 24 + klen),
                        value: data.subrange(off + 24 + klen, off + 24 + klen + vlen),
                    },
                    off + 24 + klen + vlen,
                ),
            )
        } else {
            None
        }
    } else {
        None
    }
}

/// Encodes one record.
pub fn encode(r: &Record) -> (out: Vec<u8>)
    ensures
        out@ == r@.enc(),
{
    proof {
        lemma_auto_spec_u64_to_from_le_bytes();
    }
    let ts_bits: u64 = #[verifier::truncate] (r.timestamp as u64);
    let mut out = u64_to_le_bytes(ts_bits);
    let mut ks = u64_to_le_bytes(r.key.len() as u64);
    let mut vs = u64_to_le_bytes(r.value.len() as u64);
    out.append(&mut ks);
    out.append(&mut vs);
    let ghost head = out@;
    let mut i: usize = 0;
    while i < r.key.len()
        invariant
            i <= r.key.len(),
            out@ == head + r.key@.subrange(0, i as int),
        decreases r.key.len() - i,
    {
        out.push(r.key[i]);
        assert(out@ =~= head + r.key@.subrange(0, i + 1));
        i = i + 1;
    }
    assert(r.key@.subrange(0, r.key@.len() as int) =~= r.key@);
    let ghost head2 = out@;
    let mut j: usize = 0;
    while j < r.value.len()
        invariant
            j <= r.value.len(),
            out@ == head2 + r.value@.subrange(0, j as int),
        decreases r.value.len() - j,
    {
        out.push(r.value[j]);
        assert(out@ =~= head2 + r.value@.subrange(0, j + 1));
        j = j + 1;
    }
    assert(r.value@.subrange(0, r.value@.len() as int) =~= r.value@);
    assert(out@ == r@.enc());
    out
}

/// Decodes the record that starts at `offset`, if a whole one lies there.
pub fn decode_at(data: &Vec<u8>, offset: usize) -> (out: Decoded)
    requires
        offset <= data@.len(),
    ensures
        match out {
            Decoded::Item(r, next) => {
                &&& spec_decode_at(data@, offset as int) == Some((r@, next as int))
                &&& offset < next <= data@.len()
            },
            Decoded::End => offset == data@.len(),
            Decoded::Corrupt => offset < data@.len() && spec_decode_at(
                data@,
                offset as int,
            ) is None,
        },
{
    if offset == data.len() {
        return Decoded::End;
    }
    if data.len() - offset < 24 {
        return Decoded::Corrupt;
    }
    let ts_bits = u64_from_le_bytes(slice_subrange(data.as_slice(), offset, offset + 8));
    let klen64 = u64_from_le_bytes(slice_subrange(data.as_slice(), offset + 8, offset + 16));
    let vlen64 = u64_from_le_bytes(slice_subrange(data.as_slice(), offset + 16, offset + 24));
    let room = (data.len() - offset - 24) as u64;
    if klen64 > room || vlen64 > room - klen64 {
        return Decoded::Corrupt;
    }
    let klen = klen64 as usize;
    let vlen = vlen64 as usize;
    let key = slice_to_vec(slice_subrange(data.as_slice(), offset + 24, offset + 24 + klen));
    let value = slice_to_vec(
        slice_subrange(data.as_slice(), offset + 24 + klen, offset + 24 + klen + vlen),
    );
    let timestamp: i64 = #[verifier::truncate] (ts_bits as i64);
    let next = offset + 24 + klen + vlen;
    Decoded::Item(Record { timestamp, key, value }, next)
}

/// All whole records from offset `off` on, up to the first point where no
/// whole record follows.
pub open spec fn spec_scan(data: Seq<u8>, off: int) -> Seq<RecordView>
    decreases data.len() - off when 0 <= off <= data.len()
{
    match spec_decode_at(data, off) {
        Some((r, next)) => seq![r] + spec_scan(data, next),
        None => Seq::empty(),
    }
}

/// The offset at which scanning from `off` stops.
pub open spec fn spec_scan_end(data: Seq<u8>, off: int) -> int
    decreases data.len() - off when 0 <= off <= data.len()
{
    match spec_decode_at(data, off) {
        Some((r, next)) => spec_scan_end(data, next),
        None => off,
    }
}

/// Total encoded byte length of a sequence of records.
pub open spec fn sum_enc(rs: Seq<RecordView>) -> int
    decreases rs.len(),
{
    if rs.len() == 0 {
        0
    } else {
        rs.first().enc_len() + sum_enc(rs.drop_first())
    }
}

pub proof fn lemma_sum_enc_push(rs: Seq<RecordView>, r: RecordView)
    ensures
        sum_enc(rs.push(r)) == sum_enc(rs) + r.enc_len(),
    decreases rs.len(),
{
    if rs.len() == 0 {
        assert(rs.push(r).first() == r);
        assert(rs.push(r).drop_first() =~= Seq::<RecordView>::empty());
        assert(sum_enc(Seq::<RecordView>::empty()) == 0);
        assert(sum_enc(rs.push(r)) == r.enc_len() + sum_enc(rs.push(r).drop_first()));
    } else {
        assert(rs.push(r).first() == rs.first());
        assert(rs.push(r).drop_first() =~= rs.drop_first().push(r));
        lemma_sum_enc_push(rs.drop_first(), r);
        assert(sum_enc(rs.push(r)) == rs.first().enc_len() + sum_enc(rs.push(r).drop_first()));
        assert(sum_enc(rs) == rs.first().enc_len() + sum_enc(rs.drop_first()));
    }
}

pub proof fn lemma_sum_enc_concat(a: Seq<RecordView>, b: Seq<RecordView>)
    ensures
        sum_enc(a + b) == sum_enc(a) + sum_enc(b),
    decreases b.len(),
{
    if b.len() == 0 {
        assert(a + b =~= a);
    } else {
        lemma_sum_enc_concat(a, b.drop_last());
        assert(a + b =~= (a + b.drop_last()).push(b.last()));
        lemma_sum_enc_push(a + b.drop_last(), b.last());
        assert(b =~= b.drop_last().push(b.last()));
        lemma_sum_enc_push(b.drop_last(), b.last());
    }
}

pub proof fn lemma_sum_enc_nonneg(rs: Seq<RecordView>)
    ensures
        sum_enc(rs) >= 24 * rs.len(),
    decreases rs.len(),
{
    if rs.len() > 0 {
        lemma_sum_enc_nonneg(rs.drop_first());
    }
}

/// The record of the sequence that begins at byte offset `off`, records
/// being laid end to end, or `None` if no record begins exactly there.
pub open spec fn rec_at_offset(rs: Seq<RecordView>, off: int) -> Option<RecordView>
    decreases rs.len(),
{
    if rs.len() == 0 {
        None
    } else if off == 0 {
        Some(rs.first())
    } else if off >= rs.first().enc_len() {
        rec_at_offset(rs.drop_first(), off - rs.first().enc_len())
    } else {
        None
    }
}

/// Appending a record moves no earlier record.
pub proof fn lemma_rec_at_push_stable(rs: Seq<RecordView>, r: RecordView, off: int)
    requires
        rec_at_offset(rs, off) is Some,
    ensures
        rec_at_offset(rs.push(r), off) == rec_at_offset(rs, off),
    decreases rs.len(),
{
    assert(rs.len() > 0);
    assert(rs.push(r).first() == rs.first());
    assert(rs.push(r).drop_first() =~= rs.drop_first().push(r));
    if off != 0 && off >= rs.first().enc_len() {
        lemma_rec_at_push_stable(rs.drop_first(), r, off - rs.first().enc_len());
    }
}

/// An appended record begins right after the bytes already there.
pub proof fn lemma_rec_at_push_end(rs: Seq<RecordView>, r: RecordView)
    ensures
        rec_at_offset(rs.push(r), sum_enc(rs)) == Some(r),
    decreases rs.len(),
{
    lemma_sum_enc_nonneg(rs);
    if rs.len() == 0 {
        assert(rs.push(r).first() == r);
    } else {
        assert(rs.push(r).first() == rs.first());
        assert(rs.push(r).drop_first() =~= rs.drop_first().push(r));
        lemma_sum_enc_nonneg(rs.drop_first());
        assert(sum_enc(rs) == rs.first().enc_len() + sum_enc(rs.drop_first()));
        lemma_rec_at_push_end(rs.drop_first(), r);
    }
}

/// Each record begins at the total length of those before it.
pub proof fn lemma_rec_at_take(rs: Seq<RecordView>, i: int)
    requires
        0 <= i < rs.len(),
    ensures
        rec_at_offset(rs, sum_enc(rs.take(i))) == Some(rs[i]),
    decreases i,
{
    if i == 0 {
        assert(rs.take(0) =~= Seq::<RecordView>::empty());
        assert(sum_enc(rs.take(0)) == 0);
    } else {
        let rest = rs.drop_first();
        assert(rs.take(i).first() == rs.first());
        assert(rs.take(i).drop_first() =~= rest.take(i - 1));
        assert(sum_enc(rs.take(i)) == rs.first().enc_len() + sum_enc(rest.take(i - 1)));
        lemma_sum_enc_nonneg(rest.take(i - 1));
        lemma_rec_at_take(rest, i - 1);
        assert(rest[i - 1] == rs[i]);
    }
}

/// The mathematical contents of a run of records.
pub open spec fn views_of(rs: Seq<Record>) -> Seq<RecordView> {
    rs.map_values(|r: Record| r@)
}

pub proof fn lemma_sum_enc_split(rs: Seq<RecordView>, p: int)
    requires
        0 <= p <= rs.len(),
    ensures
        sum_enc(rs) == sum_enc(rs.take(p)) + sum_enc(rs.skip(p)),
{
    lemma_sum_enc_concat(rs.take(p), rs.skip(p));
    assert(rs.take(p) + rs.skip(p) =~= rs);
}

pub proof fn lemma_sum_enc_remove(rs: Seq<RecordView>, p: int)
    requires
        0 <= p < rs.len(),
    ensures
        sum_enc(rs.remove(p)) == sum_enc(rs) - rs[p].enc_len(),
{
    lemma_sum_enc_split(rs, p);
    assert(rs.skip(p).first() == rs[p]);
    assert(rs.skip(p).drop_first() =~= rs.skip(p + 1));
    assert(sum_enc(rs.skip(p)) == rs[p].enc_len() + sum_enc(rs.skip(p + 1)));
    assert(rs.remove(p) =~= rs.take(p) + rs.skip(p + 1));
    lemma_sum_enc_concat(rs.take(p), rs.skip(p + 1));
}

pub proof fn lemma_sum_enc_update(rs: Seq<RecordView>, p: int, r: RecordView)
    requires
        0 <= p < rs.len(),
    ensures
        sum_enc(rs.update(p, r)) == sum_enc(rs) - rs[p].enc_len() + r.enc_len(),
{
    lemma_sum_enc_split(rs, p);
    assert(rs.skip(p).first() == rs[p]);
    assert(rs.skip(p).drop_first() =~= rs.skip(p + 1));
    assert(sum_enc(rs.skip(p)) == rs[p].enc_len() + sum_enc(rs.skip(p + 1)));
    let upd = rs.update(p, r);
    lemma_sum_enc_split(upd, p);
    assert(upd.take(p) =~= rs.take(p));
    assert(upd.skip(p).first() == r);
    assert(upd.skip(p).drop_first() =~= rs.skip(p + 1));
    assert(sum_enc(upd.skip(p)) == r.enc_len() + sum_enc(rs.skip(p + 1)));
}

/// Each record's encoding is at least the header and at most the whole.
pub proof fn lemma_sum_enc_bound(rs: Seq<RecordView>, i: int)
    requires
        0 <= i < rs.len(),
    ensures
        24 <= rs[i].enc_len() <= sum_enc(rs),
    decreases rs.len(),
{
    if i == 0 {
        lemma_sum_enc_nonneg(rs.drop_first());
    } else {
        lemma_sum_enc_bound(rs.drop_first(), i - 1);
        assert(rs.drop_first()[i - 1] == rs[i]);
    }
}

/// The concatenation of the encodings of a sequence of records: the byte
/// content of a whole segment.
pub open spec fn spec_seg_bytes(rs: Seq<RecordView>) -> Seq<u8>
    decreases rs.len(),
{
    if rs.len() == 0 {
        Seq::empty()
    } else {
        spec_seg_bytes(rs.drop_last()) + rs.last().enc()
    }
}

pub proof fn lemma_seg_bytes_first(rs: Seq<RecordView>)
    requires
        rs.len() > 0,
    ensures
        spec_seg_bytes(rs) == rs.first().enc() + spec_seg_bytes(rs.drop_first()),
    decreases rs.len(),
{
    if rs.len() == 1 {
        assert(rs.drop_last() =~= Seq::<RecordView>::empty());
        assert(rs.drop_first() =~= Seq::<RecordView>::empty());
        assert(spec_seg_bytes(rs) =~= rs.first().enc() + spec_seg_bytes(rs.drop_first()));
    } else {
        let body = rs.drop_last();
        lemma_seg_bytes_first(body);
        assert(rs.drop_first().drop_last() =~= body.drop_first());
        assert(rs.drop_first().last() == rs.last());
        assert(rs.drop_first().len() > 0);
        assert(spec_seg_bytes(rs.drop_first()) == spec_seg_bytes(body.drop_first())
            + rs.last().enc());
        assert(spec_seg_bytes(rs) == (body.first().enc() + spec_seg_bytes(body.drop_first()))
            + rs.last().enc());
        assert((body.first().enc() + spec_seg_bytes(body.drop_first())) + rs.last().enc()
            =~= body.first().enc() + (spec_seg_bytes(body.drop_first()) + rs.last().enc()));
        assert(body.first() == rs.first());
    }
}

pub proof fn lemma_seg_bytes_len(rs: Seq<RecordView>)
    ensures
        spec_seg_bytes(rs).len() == sum_enc(rs),
    decreases rs.len(),
{
    if rs.len() > 0 {
        lemma_seg_bytes_first(rs);
        lemma_seg_bytes_len(rs.drop_first());
        lemma_enc_len(rs.first());
    }
}

/// Whether every record of a sequence has sizes that the header fields
/// can carry.
pub open spec fn all_fit(rs: Seq<RecordView>) -> bool {
    forall|i: int| 0 <= i < rs.len() ==> (#[trigger] rs[i]).fits()
}

/// Decoding reads back exactly what encoding wrote, wherever the record
/// stands in the stream.
pub proof fn lemma_decode_encode(pre: Seq<u8>, r: RecordView, post: Seq<u8>)
    requires
        r.fits(),
    ensures
        spec_decode_at(pre + r.enc() + post, pre.len() as int) == Some(
            (r, pre.len() + r.enc_len()),
        ),
{
    lemma_auto_spec_u64_to_from_le_bytes();
    lemma_enc_len(r);
    let data = pre + r.enc() + post;
    let off = pre.len() as int;
    let a = spec_u64_to_le_bytes(r.timestamp as u64);
    let b = spec_u64_to_le_bytes(r.key.len() as u64);
    let c = spec_u64_to_le_bytes(r.value.len() as u64);
    assert(r.enc() == a + b + c + r.key + r.value);
    assert(data.subrange(off, off + 8) =~= a);
    assert(data.subrange(off + 8, off + 16) =~= b);
    assert(data.subrange(off + 16, off + 24) =~= c);
    let t = r.timestamp;
    assert((t as u64) as i64 == t) by (bit_vector);
    let klen = spec_u64_from_le_bytes(b) as int;
    let vlen = spec_u64_from_le_bytes(c) as int;
    assert(klen == r.key.len());
    assert(vlen == r.value.len());
    assert(data.subrange(off + 24, off + 24 + klen) =~= r.key);
    assert(data.subrange(off + 24 + klen, off + 24 + klen + vlen) =~= r.value);
    assert(spec_decode_at(data, off) == Some((r, off + r.enc_len())));
}

/// Decoding is position-independent: bytes in front only shift the offsets.
pub proof fn lemma_decode_shift(pre: Seq<u8>, d: Seq<u8>, k: int)
    requires
        0 <= k <= d.len(),
    ensures
        match spec_decode_at(d, k) {
            Some((r, n)) => spec_decode_at(pre + d, pre.len() + k) == Some(
                (r, pre.len() + n),
            ),
            None => spec_decode_at(pre + d, pre.len() + k) is None,
        },
{
    let data = pre + d;
    let off = pre.len() + k;
    if k + 24 <= d.len() {
        assert(data.subrange(off, off + 8) =~= d.subrange(k, k + 8));
        assert(data.subrange(off + 8, off + 16) =~= d.subrange(k + 8, k + 16));
        assert(data.subrange(off + 16, off + 24) =~= d.subrange(k + 16, k + 24));
        let klen = spec_u64_from_le_bytes(d.subrange(k + 8, k + 16)) as int;
        let vlen = spec_u64_from_le_bytes(d.subrange(k + 16, k + 24)) as int;
        if k + 24 + klen + vlen <= d.len() {
            assert(data.subrange(off + 24, off + 24 + klen) =~= d.subrange(k + 24, k + 24 + klen));
            assert(data.subrange(off + 24 + klen, off + 24 + klen + vlen) =~= d.subrange(
                k + 24 + klen,
                k + 24 + klen + vlen,
            ));
        }
    }
}

pub proof fn lemma_scan_shift(pre: Seq<u8>, d: Seq<u8>, k: int)
    requires
        0 <= k <= d.len(),
    ensures
        spec_scan(pre + d, pre.len() + k) == spec_scan(d, k),
        spec_scan_end(pre + d, pre.len() + k) == pre.len() + spec_scan_end(d, k),
    decreases d.len() - k,
{
    lemma_decode_shift(pre, d, k);
    match spec_decode_at(d, k) {
        Some((r, n)) => {
            lemma_scan_shift(pre, d, n);
        },
        None => {},
    }
}

/// Scanning the byte image of a whole segment yields exactly its records.
pub proof fn lemma_scan_seg_bytes(rs: Seq<RecordView>)
    requires
        all_fit(rs),
    ensures
        spec_scan(spec_seg_bytes(rs), 0) == rs,
        spec_scan_end(spec_seg_bytes(rs), 0) == spec_seg_bytes(rs).len(),
    decreases rs.len(),
{
    if rs.len() == 0 {
        assert(spec_scan(spec_seg_bytes(rs), 0) =~= rs);
    } else {
        let first = rs.first();
        let rest = rs.drop_first();
        lemma_seg_bytes_first(rs);
        let data = spec_seg_bytes(rs);
        lemma_enc_len(first);
        assert(first.fits());
        lemma_decode_encode(Seq::empty(), first, spec_seg_bytes(rest));
        assert(Seq::<u8>::empty() + first.enc() + spec_seg_bytes(rest) =~= data);
        assert(spec_decode_at(data, 0) == Some((first, first.enc_len())));
        assert(all_fit(rest)) by {
            assert(forall|i: int|
                0 <= i < rest.len() ==> rest[i] == rs[i + 1] && (#[trigger] rest[i]).fits());
        }
        lemma_scan_seg_bytes(rest);
        lemma_scan_shift(first.enc(), spec_seg_bytes(rest), 0);
        assert(first.enc() + spec_seg_bytes(rest) =~= data);
        assert(spec_scan(data, first.enc_len()) == spec_scan(spec_seg_bytes(rest), 0));
        assert(spec_scan(data, 0) == seq![first] + rest);
        assert(seq![first] + rest =~= rs);
        lemma_seg_bytes_len(rs);
        lemma_seg_bytes_len(rest);
    }
}

/// A scan's records take up exactly the bytes it walked over.
pub proof fn lemma_scan_sum(data: Seq<u8>, off: int)
    requires
        0 <= off <= data.len(),
    ensures
        sum_enc(spec_scan(data, off)) == spec_scan_end(data, off) - off,
    decreases data.len() - off,
{
    match spec_decode_at(data, off) {
        Some((r, next)) => {
            lemma_scan_sum(data, next);
            let rest = spec_scan(data, next);
            assert(spec_scan(data, off) == seq![r] + rest);
            assert((seq![r] + rest).first() == r);
            assert((seq![r] + rest).drop_first() =~= rest);
            assert(sum_enc(seq![r] + rest) == r.enc_len() + sum_enc(rest));
            assert(r.enc_len() == next - off);
        },
        None => {},
    }
}

/// Decodes records from the start of `data` until its end or the first
/// malformed bytes, returning them with the offset where the scan stopped.
pub fn scan_segment(data: &Vec<u8>) -> (out: (Vec<Record>, usize))
    ensures
        out.0@.map_values(|r: Record| r@) == spec_scan(data@, 0),
        out.1 as int == spec_scan_end(data@, 0),
        out.1 <= data@.len(),
{
    let mut records: Vec<Record> = Vec::new();
    let mut offset: usize = 0;
    loop
        invariant
            offset <= data@.len(),
            spec_scan(data@, 0) == records@.map_values(|r: Record| r@) + spec_scan(
                data@,
                offset as int,
            ),
            spec_scan_end(data@, 0) == spec_scan_end(data@, offset as int),
        decreases data@.len() - offset,
    {
        match decode_at(data, offset) {
            Decoded::Item(r, next) => {
                let ghost pre = records@.map_values(|rr: Record| rr@);
                records.push(r);
                assert(records@.map_values(|rr: Record| rr@) =~= pre.push(r@));
                assert(pre + spec_scan(data@, offset as int) == pre.push(r@) + spec_scan(
                    data@,
                    next as int,
                )) by {
                    assert(spec_scan(data@, offset as int) == seq![r@] + spec_scan(
                        data@,
                        next as int,
                    ));
                    assert(pre + (seq![r@] + spec_scan(data@, next as int)) =~= pre.push(r@)
                        + spec_scan(data@, next as int));
                }
                offset = next;
            },
            Decoded::End => {
                assert(spec_decode_at(data@, offset as int) is None);
                assert(spec_scan(data@, offset as int) == Seq::<RecordView>::empty());
                assert(records@.map_values(|rr: Record| rr@) + Seq::<RecordView>::empty()
                    =~= records@.map_values(|rr: Record| rr@));
                return (records, offset);
            },
            Decoded::Corrupt => {
                assert(spec_scan(data@, offset as int) == Seq::<RecordView>::empty());
                assert(records@.map_values(|rr: Record| rr@) + Seq::<RecordView>::empty()
                    =~= records@.map_values(|rr: Record| rr@));
                return (records, offset);
            },
        }
    }
}

} // verus!
