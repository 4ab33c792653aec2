use vstd::prelude::*;

verus! {

use vstd::bytes::{
    spec_u64_to_le_bytes, spec_u64_from_le_bytes, lemma_auto_spec_u64_to_from_le_bytes,
    u64_to_le_bytes, u64_from_le_bytes,
};
use vstd::slice::{slice_subrange, slice_to_vec};
use crate::log_file::{IndexEntry, IndexEntryView};

/// The hint file: a snapshot of the index written beside a compacted
/// segment so that recovery can find every live key without scanning.
/// One entry is laid out as the key size, the key bytes, a timestamp
/// field, the segment id and the byte offset, all integers 64-bit
/// little-endian. This writer leaves the timestamp field zero; readers
/// step over it.

/// The encoding of one hint entry.
pub open spec fn spec_hint_entry(e: IndexEntryView) -> Seq<u8> {
    spec_u64_to_le_bytes(e.key.len() as u64) + e.key + spec_u64_to_le_bytes(0u64)
        + spec_u64_to_le_bytes(e.file_id) + spec_u64_to_le_bytes(e.offset)
}

/// The byte length of one encoded hint entry.
pub open spec fn spec_hint_entry_len(e: IndexEntryView) -> int {
    32 + e.key.len() as int
}

pub proof fn lemma_hint_entry_len(e: IndexEntryView)
    ensures
        spec_hint_entry(e).len() == spec_hint_entry_len(e),
{
    lemma_auto_spec_u64_to_from_le_bytes();
}

/// The byte content of a whole hint file.
pub open spec fn spec_hint_bytes(es: Seq<IndexEntryView>) -> Seq<u8>
    decreases es.len(),
{
    if es.len() == 0 {
        Seq::empty()
    } else {
        spec_hint_entry(es.first()) + spec_hint_bytes(es.drop_first())
    }
}

proof fn lemma_hint_bytes_snoc(es: Seq<IndexEntryView>, e: IndexEntryView)
    ensures
        spec_hint_bytes(es.push(e)) == spec_hint_bytes(es) + spec_hint_entry(e),
    decreases es.len(),
{
    if es.len() == 0 {
        assert(es.push(e).first() == e);
        assert(es.push(e).drop_first() =~= Seq::<IndexEntryView>::empty());
        assert(spec_hint_bytes(Seq::<IndexEntryView>::empty()) == Seq::<u8>::empty());
        assert(spec_hint_bytes(es.push(e)) =~= spec_hint_bytes(es) + spec_hint_entry(e));
    } else {
        assert(es.push(e).first() == es.first());
        assert(es.push(e).drop_first() =~= es.drop_first().push(e));
        lemma_hint_bytes_snoc(es.drop_first(), e);
        assert(spec_hint_entry(es.first()) + (spec_hint_bytes(es.drop_first())
            + spec_hint_entry(e)) =~= (spec_hint_entry(es.first()) + spec_hint_bytes(
            es.drop_first(),
        )) + spec_hint_entry(e));
    }
}

/// The entries a hint file's bytes hold from `off` on, or `None` where
/// the bytes do not form whole entries up to the very end.
pub open spec fn spec_parse_hint(data: Seq<u8>, off: int) -> Option<Seq<IndexEntryView>>
    decreases data.len() - off when 0 <= off <= data.len()
{
    if off == data.len() {
        Some(Seq::empty())
    } else if off + 8 > data.len() {
        None
    } else {
        let klen = spec_u64_from_le_bytes(data.subrange(off, off + 8)) as int;
        if off + 32 + klen > data.len() {
            None
        } else {
            let e = IndexEntryView {
                key: data.subrange(off + 8, off + 8 + klen),
                file_id: spec_u64_from_le_bytes(
                    data.subrange(off + 16 + klen, off + 24 + klen),
                ),
                offset: spec_u64_from_le_bytes(data.subrange(off + 24 + klen, off + 32 + klen)),
            };
            match spec_parse_hint(data, off + 32 + klen) {
                Some(rest) => Some(seq![e] + rest),
                None => None,
            }
        }
    }
}

/// Encodes a run of index entries as a hint file's bytes.
pub fn encode_hint(entries: &Vec<IndexEntry>) -> (out: Vec<u8>)
    ensures
        out@ == spec_hint_bytes(entries@.map_values(|e: IndexEntry| e@)),
{
    let ghost es = entries@.map_values(|e: IndexEntry| e@);
    let mut out: Vec<u8> = Vec::new();
    proof {
        assert(es.take(0) =~= Seq::<IndexEntryView>::empty());
        assert(out@ =~= spec_hint_bytes(es.take(0)));
    }
    let mut i: usize = 0;
    while i < entries.len()
        invariant
            i <= entries@.len(),
            es == entries@.map_values(|e: IndexEntry| e@),
            es.len() == entries@.len(),
            out@ == spec_hint_bytes(es.take(i as int)),
        decreases entries@.len() - i,
    {
        proof {
            lemma_auto_spec_u64_to_from_le_bytes();
        }
        let e = &entries[i];
        let mut chunk = u64_to_le_bytes(e.key.len() as u64);
        let mut kb = slice_to_vec(e.key.as_slice());
        chunk.append(&mut kb);
        let mut ts = u64_to_le_bytes(0);
        chunk.append(&mut ts);
        let mut fid = u64_to_le_bytes(e.file_id);
        chunk.append(&mut fid);
        let mut off = u64_to_le_bytes(e.offset);
        chunk.append(&mut off);
        proof {
            assert(es[i as int] == entries@[i as int]@);
            assert(chunk@ =~= spec_hint_entry(es[i as int]));
        }
        out.append(&mut chunk);
        proof {
            assert(es.take(i + 1) =~= es.take(i as int).push(es[i as int]));
            lemma_hint_bytes_snoc(es.take(i as int), es[i as int]);
        }
        i = i + 1;
    }
    proof {
        assert(es.take(es.len() as int) =~= es);
    }
    out
}

/// Reads a hint file's bytes back into index entries, or `None` where
/// they do not form whole entries to the very end.
pub fn parse_hint(data: &Vec<u8>) -> (out: Option<Vec<IndexEntry>>)
    ensures
        match out {
            Some(es) => spec_parse_hint(data@, 0) == Some(
                es@.map_values(|e: IndexEntry| e@),
            ),
            None => spec_parse_hint(data@, 0) is None,
        },
{
    let mut acc: Vec<IndexEntry> = Vec::new();
    let mut offset: usize = 0;
    proof {
        assert(acc@.map_values(|e: IndexEntry| e@) =~= Seq::<IndexEntryView>::empty());
    }
    loop
        invariant
            offset <= data@.len(),
            ({
                let done = acc@.map_values(|e: IndexEntry| e@);
                match spec_parse_hint(data@, offset as int) {
                    Some(rest) => spec_parse_hint(data@, 0) == Some(done + rest),
                    None => spec_parse_hint(data@, 0) is None,
                }
            }),
        decreases data@.len() - offset,
    {
        let ghost done = acc@.map_values(|e: IndexEntry| e@);
        if offset == data.len() {
            proof {
                assert(spec_parse_hint(data@, offset as int) == Some(
                    Seq::<IndexEntryView>::empty(),
                ));
                assert(done + Seq::<IndexEntryView>::empty() =~= done);
            }
            return Some(acc);
        }
        if data.len() - offset < 8 {
            return None;
        }
        let klen64 = u64_from_le_bytes(slice_subrange(data.as_slice(), offset, offset + 8));
        let room = (data.len() - offset) as u64;
        if klen64 > room || 32 > room - klen64 {
            proof {
                assert(offset + 32 + klen64 as int > data@.len());
            }
            return None;
        }
        let klen = klen64 as usize;
        let key = slice_to_vec(
            slice_subrange(data.as_slice(), offset + 8, offset + 8 + klen),
        );
        let file_id = u64_from_le_bytes(
            slice_subrange(data.as_slice(), offset + 16 + klen, offset + 24 + klen),
        );
        let off_field = u64_from_le_bytes(
            slice_subrange(data.as_slice(), offset + 24 + klen, offset + 32 + klen),
        );
        let entry = IndexEntry { key, file_id, offset: off_field };
        let ghost ev = entry@;
        acc.push(entry);
        proof {
            assert(acc@.map_values(|e: IndexEntry| e@) =~= done.push(ev));
            let o = offset as int;
            let kl = klen as int;
            assert(ev.key == data@.subrange(o + 8, o + 8 + kl));
            assert(ev.file_id == spec_u64_from_le_bytes(data@.subrange(o + 16 + kl, o + 24 + kl)));
            assert(ev.offset == spec_u64_from_le_bytes(data@.subrange(o + 24 + kl, o + 32 + kl)));
            match spec_parse_hint(data@, o + 32 + kl) {
                Some(rest) => {
                    assert(spec_parse_hint(data@, o) == Some(seq![ev] + rest));
                    assert(done + (seq![ev] + rest) =~= done.push(ev) + rest);
                },
                None => {
                    assert(spec_parse_hint(data@, o) is None);
                },
            }
        }
        offset = offset + 32 + klen;
    }
}

/// Decoding a hint file reads back exactly the entries written into it.
pub proof fn lemma_hint_round_trip(es: Seq<IndexEntryView>)
    requires
        forall|i: int| 0 <= i < es.len() ==> (#[trigger] es[i]).key.len() <= u64::MAX,
    ensures
        spec_parse_hint(spec_hint_bytes(es), 0) == Some(es),
    decreases es.len(),
{
    lemma_auto_spec_u64_to_from_le_bytes();
    if es.len() == 0 {
        assert(spec_parse_hint(spec_hint_bytes(es), 0) == Some(Seq::<IndexEntryView>::empty()));
        assert(Seq::<IndexEntryView>::empty() =~= es);
    } else {
        let e = es.first();
        let rest = es.drop_first();
        let head = spec_hint_entry(e);
        let tail = spec_hint_bytes(rest);
        let data = spec_hint_bytes(es);
        assert(data == head + tail);
        lemma_hint_entry_len(e);
        let klen = e.key.len() as int;
        assert(data.subrange(0, 8) =~= spec_u64_to_le_bytes(e.key.len() as u64));
        assert(spec_u64_from_le_bytes(data.subrange(0, 8)) as int == klen);
        assert(data.subrange(8, 8 + klen) =~= e.key);
        assert(data.subrange(16 + klen, 24 + klen) =~= spec_u64_to_le_bytes(e.file_id));
        assert(data.subrange(24 + klen, 32 + klen) =~= spec_u64_to_le_bytes(e.offset));
        assert(forall|i: int| 0 <= i < rest.len() ==> rest[i] == es[i + 1]);
        lemma_hint_round_trip(rest);
        lemma_parse_hint_shift_at(head, tail, 0);
        assert(spec_parse_hint(data, 32 + klen) == spec_parse_hint(tail, 0));
        assert(spec_parse_hint(data, 0) == Some(seq![e] + rest));
        assert(seq![e] + rest =~= es);
    }
}

/// Parsing is position-independent: bytes in front only shift the
/// offsets.
proof fn lemma_parse_hint_shift_at(pre: Seq<u8>, d: Seq<u8>, k: int)
    requires
        0 <= k <= d.len(),
    ensures
        spec_parse_hint(pre + d, pre.len() + k) == spec_parse_hint(d, k),
    decreases d.len() - k,
{
    let data = pre + d;
    let off = pre.len() + k;
    if k == d.len() {
    } else if k + 8 > d.len() {
    } else {
        assert(data.subrange(off, off + 8) =~= d.subrange(k, k + 8));
        let klen = spec_u64_from_le_bytes(d.subrange(k, k + 8)) as int;
        if k + 32 + klen <= d.len() {
            assert(data.subrange(off + 8, off + 8 + klen) =~= d.subrange(k + 8, k + 8 + klen));
            assert(data.subrange(off + 16 + klen, off + 24 + klen) =~= d.subrange(
                k + 16 + klen,
                k + 24 + klen,
            ));
            assert(data.subrange(off + 24 + klen, off + 32 + klen) =~= d.subrange(
                k + 24 + klen,
                k + 32 + klen,
            ));
            lemma_parse_hint_shift_at(pre, d, k + 32 + klen);
        }
    }
}

} // verus!
