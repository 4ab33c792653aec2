use vstd::prelude::*;

verus! {

use crate::record::{RecordView, spec_scan};

/// Recovery takes the segment files as pairs of a numeric id and the
/// file's bytes. This module says how those pairs are put in id order and
/// what a full scan of them finds.

/// Whether two pairs of the run share an id.
pub open spec fn ids_distinct(fs: Seq<(u64, Vec<u8>)>) -> bool {
    forall|i: int, j: int| 0 <= i < j < fs.len() ==> (#[trigger] fs[i]).0 != (#[trigger] fs[j]).0
}

/// Strictly ascending ids.
pub open spec fn ids_ascending(fs: Seq<(u64, Vec<u8>)>) -> bool {
    forall|i: int, j: int| 0 <= i < j < fs.len() ==> (#[trigger] fs[i]).0 < (#[trigger] fs[j]).0
}

/// Whether the run holds this pair.
pub open spec fn pair_in(fs: Seq<(u64, Vec<u8>)>, e: (u64, Vec<u8>)) -> bool {
    exists|i: int| 0 <= i < fs.len() && (#[trigger] fs[i]) == e
}

/// Whether the run holds this id.
pub open spec fn id_in(fs: Seq<(u64, Vec<u8>)>, fid: u64) -> bool {
    exists|i: int| 0 <= i < fs.len() && (#[trigger] fs[i]).0 == fid
}

/// Total byte count of the files.
pub open spec fn sum_data(fs: Seq<(u64, Vec<u8>)>) -> int
    decreases fs.len(),
{
    if fs.len() == 0 {
        0
    } else {
        sum_data(fs.drop_last()) + fs.last().1@.len()
    }
}

/// The pair placed at its position in an id-ordered run.
pub open spec fn insert_by_id(s: Seq<(u64, Vec<u8>)>, x: (u64, Vec<u8>)) -> Seq<(u64, Vec<u8>)>
    decreases s.len(),
{
    if s.len() == 0 {
        seq![x]
    } else if x.0 < s.first().0 {
        seq![x] + s
    } else {
        seq![s.first()] + insert_by_id(s.drop_first(), x)
    }
}

/// The run rearranged in ascending id order.
pub open spec fn arrange(fs: Seq<(u64, Vec<u8>)>) -> Seq<(u64, Vec<u8>)>
    decreases fs.len(),
{
    if fs.len() == 0 {
        Seq::empty()
    } else {
        insert_by_id(arrange(fs.drop_last()), fs.last())
    }
}

/// All records a scan of these files finds, files in the order given,
/// each file from its start.
pub open spec fn scanned(fs: Seq<(u64, Vec<u8>)>) -> Seq<RecordView>
    decreases fs.len(),
{
    if fs.len() == 0 {
        Seq::empty()
    } else {
        scanned(fs.drop_last()) + spec_scan(fs.last().1@, 0)
    }
}

/// Inserting into an id-ordered run keeps it ordered and adds exactly the
/// new pair.
#[verifier::rlimit(100)]
pub proof fn lemma_insert_by_id_props(s: Seq<(u64, Vec<u8>)>, x: (u64, Vec<u8>))
    requires
        ids_ascending(s),
        !id_in(s, x.0),
    ensures
        ids_ascending(insert_by_id(s, x)),
        insert_by_id(s, x).len() == s.len() + 1,
        forall|j: int|
            0 <= j < insert_by_id(s, x).len() ==> (#[trigger] insert_by_id(s, x)[j]) == x
                || pair_in(s, insert_by_id(s, x)[j]),
        pair_in(insert_by_id(s, x), x),
        forall|fid: u64| #[trigger]
            id_in(insert_by_id(s, x), fid) == (id_in(s, fid) || fid == x.0),
        sum_data(insert_by_id(s, x)) == sum_data(s) + x.1@.len(),
    decreases s.len(),
{
    let out = insert_by_id(s, x);
    if s.len() == 0 {
        assert(out == seq![x]);
        assert(out[0] == x);
        assert forall|fid: u64| #[trigger]
            id_in(out, fid) == (id_in(s, fid) || fid == x.0) by {
            if id_in(out, fid) {
                let i = choose|i: int| 0 <= i < out.len() && (#[trigger] out[i]).0 == fid;
                assert(out[i] == x);
            }
            if fid == x.0 {
                assert(out[0].0 == fid);
            }
        }
        assert(out.drop_last() =~= Seq::<(u64, Vec<u8>)>::empty());
        assert(sum_data(Seq::<(u64, Vec<u8>)>::empty()) == 0);
        assert(out.last() == x);
        assert(sum_data(out) == x.1@.len());
    } else if x.0 < s.first().0 {
        assert(out == seq![x] + s);
        assert(out[0] == x);
        assert(forall|j: int| 1 <= j < out.len() ==> (#[trigger] out[j]) == s[j - 1]);
        assert forall|i: int, j: int| 0 <= i < j < out.len() implies (#[trigger] out[i]).0 < (
        #[trigger] out[j]).0 by {
            if i == 0 {
                assert(out[j] == s[j - 1]);
                if j > 1 {
                    assert(s[0].0 < s[j - 1].0);
                }
            } else {
                assert(s[i - 1].0 < s[j - 1].0);
            }
        }
        assert forall|j: int|
            0 <= j < out.len() implies (#[trigger] out[j]) == x || pair_in(s, out[j]) by {
            if j > 0 {
                assert(out[j] == s[j - 1]);
            }
        }
        assert forall|fid: u64| #[trigger]
            id_in(out, fid) == (id_in(s, fid) || fid == x.0) by {
            if id_in(out, fid) {
                let i = choose|i: int| 0 <= i < out.len() && (#[trigger] out[i]).0 == fid;
                if i > 0 {
                    assert(s[i - 1].0 == fid);
                }
            }
            if id_in(s, fid) {
                let i = choose|i: int| 0 <= i < s.len() && (#[trigger] s[i]).0 == fid;
                assert(out[i + 1].0 == fid);
            }
            if fid == x.0 {
                assert(out[0].0 == fid);
            }
        }
        lemma_sum_data_cons(x, s);
    } else {
        let rest = insert_by_id(s.drop_first(), x);
        assert(ids_ascending(s.drop_first())) by {
            assert(forall|i: int|
                0 <= i < s.drop_first().len() ==> (#[trigger] s.drop_first()[i]) == s[i + 1]);
        }
        assert(!id_in(s.drop_first(), x.0)) by {
            if id_in(s.drop_first(), x.0) {
                let i = choose|i: int|
                    0 <= i < s.drop_first().len() && (#[trigger] s.drop_first()[i]).0 == x.0;
                assert(s[i + 1].0 == x.0);
                assert(id_in(s, x.0));
            }
        }
        lemma_insert_by_id_props(s.drop_first(), x);
        assert(out == seq![s.first()] + rest);
        assert(out[0] == s.first());
        assert(forall|j: int| 1 <= j < out.len() ==> (#[trigger] out[j]) == rest[j - 1]);
        assert(x.0 != s.first().0) by {
            assert(s[0].0 == s.first().0);
        }
        assert forall|i: int, j: int| 0 <= i < j < out.len() implies (#[trigger] out[i]).0 < (
        #[trigger] out[j]).0 by {
            if i == 0 {
                assert(out[j] == rest[j - 1]);
                if rest[j - 1] == x {
                    assert(s.first().0 < x.0);
                } else {
                    assert(pair_in(s.drop_first(), rest[j - 1]));
                    let q = choose|q: int|
                        0 <= q < s.drop_first().len() && (#[trigger] s.drop_first()[q]) == rest[j
                            - 1];
                    assert(s[q + 1] == rest[j - 1]);
                    assert(s[0].0 < s[q + 1].0);
                }
            } else {
                assert(rest[i - 1].0 < rest[j - 1].0);
            }
        }
        assert forall|j: int|
            0 <= j < out.len() implies (#[trigger] out[j]) == x || pair_in(s, out[j]) by {
            if j == 0 {
                assert(s[0] == out[j]);
                assert(pair_in(s, out[j]));
            } else {
                assert(out[j] == rest[j - 1]);
                if rest[j - 1] != x {
                    assert(pair_in(s.drop_first(), rest[j - 1]));
                    let q = choose|q: int|
                        0 <= q < s.drop_first().len() && (#[trigger] s.drop_first()[q]) == rest[j
                            - 1];
                    assert(s[q + 1] == rest[j - 1]);
                    assert(pair_in(s, out[j]));
                }
            }
        }
        assert(pair_in(out, x)) by {
            let q = choose|q: int| 0 <= q < rest.len() && (#[trigger] rest[q]) == x;
            assert(out[q + 1] == x);
        }
        assert forall|fid: u64| #[trigger]
            id_in(out, fid) == (id_in(s, fid) || fid == x.0) by {
            if id_in(out, fid) {
                let i = choose|i: int| 0 <= i < out.len() && (#[trigger] out[i]).0 == fid;
                if i == 0 {
                    assert(s[0].0 == fid);
                    assert(id_in(s, fid));
                } else {
                    assert(rest[i - 1].0 == fid);
                    assert(id_in(rest, fid));
                    if id_in(s.drop_first(), fid) {
                        let q = choose|q: int|
                            0 <= q < s.drop_first().len() && (#[trigger] s.drop_first()[q]).0
                                == fid;
                        assert(s[q + 1].0 == fid);
                        assert(id_in(s, fid));
                    }
                }
            }
            if id_in(s, fid) {
                let i = choose|i: int| 0 <= i < s.len() && (#[trigger] s[i]).0 == fid;
                if i == 0 {
                    assert(out[0].0 == fid);
                } else {
                    assert(s.drop_first()[i - 1].0 == fid);
                    assert(id_in(s.drop_first(), fid));
                    assert(id_in(rest, fid));
                    let q = choose|q: int| 0 <= q < rest.len() && (#[trigger] rest[q]).0 == fid;
                    assert(out[q + 1].0 == fid);
                }
            }
            if fid == x.0 {
                assert(pair_in(rest, x));
                let q = choose|q: int| 0 <= q < rest.len() && (#[trigger] rest[q]) == x;
                assert(out[q + 1].0 == fid);
            }
        }
        lemma_sum_data_cons(s.first(), rest);
        lemma_sum_data_cons(s.first(), s.drop_first());
        assert(seq![s.first()] + s.drop_first() =~= s);
    }
}

/// Splitting the head off the byte total.
proof fn lemma_sum_data_cons(x: (u64, Vec<u8>), s: Seq<(u64, Vec<u8>)>)
    ensures
        sum_data(seq![x] + s) == x.1@.len() + sum_data(s),
    decreases s.len(),
{
    if s.len() == 0 {
        assert(seq![x] + s =~= seq![x]);
        assert(seq![x].drop_last() =~= Seq::<(u64, Vec<u8>)>::empty());
        assert(sum_data(Seq::<(u64, Vec<u8>)>::empty()) == 0);
        assert(seq![x].last() == x);
        assert(sum_data(seq![x]) == x.1@.len());
        assert(sum_data(s) == 0);
    } else {
        assert((seq![x] + s).drop_last() =~= seq![x] + s.drop_last());
        assert((seq![x] + s).last() == s.last());
        lemma_sum_data_cons(x, s.drop_last());
    }
}

/// Rearranging keeps the ids ascending and moves exactly the given pairs.
pub proof fn lemma_arrange_props(fs: Seq<(u64, Vec<u8>)>)
    requires
        ids_distinct(fs),
    ensures
        ids_ascending(arrange(fs)),
        arrange(fs).len() == fs.len(),
        forall|j: int|
            0 <= j < arrange(fs).len() ==> pair_in(fs, #[trigger] arrange(fs)[j]),
        forall|fid: u64| #[trigger] id_in(arrange(fs), fid) == id_in(fs, fid),
        sum_data(arrange(fs)) == sum_data(fs),
    decreases fs.len(),
{
    if fs.len() > 0 {
        let body = fs.drop_last();
        let x = fs.last();
        assert(ids_distinct(body)) by {
            assert(forall|i: int| 0 <= i < body.len() ==> (#[trigger] body[i]) == fs[i]);
        }
        lemma_arrange_props(body);
        assert(!id_in(arrange(body), x.0)) by {
            if id_in(arrange(body), x.0) {
                assert(id_in(body, x.0));
                let i = choose|i: int| 0 <= i < body.len() && (#[trigger] body[i]).0 == x.0;
                assert(fs[i].0 == fs[fs.len() - 1].0);
            }
        }
        lemma_insert_by_id_props(arrange(body), x);
        assert forall|j: int|
            0 <= j < arrange(fs).len() implies pair_in(fs, #[trigger] arrange(fs)[j]) by {
            if arrange(fs)[j] == x {
                assert(fs[fs.len() - 1] == x);
            } else {
                assert(pair_in(arrange(body), arrange(fs)[j]));
                let q = choose|q: int|
                    0 <= q < arrange(body).len() && (#[trigger] arrange(body)[q]) == arrange(
                        fs,
                    )[j];
                assert(pair_in(body, arrange(body)[q]));
                let q2 = choose|q2: int|
                    0 <= q2 < body.len() && (#[trigger] body[q2]) == arrange(body)[q];
                assert(fs[q2] == arrange(fs)[j]);
            }
        }
        assert forall|fid: u64| #[trigger] id_in(arrange(fs), fid) == id_in(fs, fid) by {
            assert(id_in(arrange(fs), fid) == (id_in(arrange(body), fid) || fid == x.0));
            if id_in(body, fid) {
                let i = choose|i: int| 0 <= i < body.len() && (#[trigger] body[i]).0 == fid;
                assert(fs[i].0 == fid);
                assert(id_in(fs, fid));
            }
            if id_in(fs, fid) {
                let i = choose|i: int| 0 <= i < fs.len() && (#[trigger] fs[i]).0 == fid;
                if i < fs.len() - 1 {
                    assert(body[i].0 == fid);
                    assert(id_in(body, fid));
                } else {
                    assert(fid == x.0);
                }
            }
        }
        assert(sum_data(fs) == sum_data(body) + x.1@.len());
    }
}

/// A run already in ascending id order is left as it stands.
pub proof fn lemma_arrange_of_sorted(fs: Seq<(u64, Vec<u8>)>)
    requires
        ids_ascending(fs),
    ensures
        arrange(fs) == fs,
    decreases fs.len(),
{
    if fs.len() > 0 {
        let body = fs.drop_last();
        let x = fs.last();
        assert(ids_ascending(body)) by {
            assert(forall|i: int| 0 <= i < body.len() ==> (#[trigger] body[i]) == fs[i]);
        }
        lemma_arrange_of_sorted(body);
        lemma_insert_at_end(body, x);
        assert(body.push(x) =~= fs);
    }
}

/// A pair whose id tops the run goes to its end.
proof fn lemma_insert_at_end(s: Seq<(u64, Vec<u8>)>, x: (u64, Vec<u8>))
    requires
        forall|q: int| 0 <= q < s.len() ==> (#[trigger] s[q]).0 < x.0,
    ensures
        insert_by_id(s, x) == s.push(x),
    decreases s.len(),
{
    if s.len() == 0 {
        assert(insert_by_id(s, x) =~= s.push(x));
    } else {
        assert(s[0].0 < x.0);
        assert(forall|q: int|
            0 <= q < s.drop_first().len() ==> (#[trigger] s.drop_first()[q]) == s[q + 1]);
        lemma_insert_at_end(s.drop_first(), x);
        assert(insert_by_id(s, x) == seq![s.first()] + s.drop_first().push(x));
        assert(seq![s.first()] + s.drop_first().push(x) =~= s.push(x));
    }
}

/// The exec step of the id sort: where the position is known, insertion
/// lands the pair exactly there.
pub proof fn lemma_insert_by_id_at(s: Seq<(u64, Vec<u8>)>, x: (u64, Vec<u8>), p: int)
    requires
        0 <= p <= s.len(),
        forall|q: int| 0 <= q < p ==> !((#[trigger] s[q]).0 > x.0),
        p < s.len() ==> s[p].0 > x.0,
    ensures
        insert_by_id(s, x) == s.insert(p, x),
    decreases p,
{
    if p == 0 {
        if s.len() == 0 {
            assert(insert_by_id(s, x) =~= s.insert(0, x));
        } else if x.0 < s.first().0 {
            assert(seq![x] + s =~= s.insert(0, x));
        } else {
            assert(s[0].0 > x.0);
        }
    } else {
        assert(!(s[0].0 > x.0));
        assert(!(x.0 < s.first().0));
        assert(forall|q: int|
            0 <= q < s.drop_first().len() ==> (#[trigger] s.drop_first()[q]) == s[q + 1]);
        lemma_insert_by_id_at(s.drop_first(), x, p - 1);
        assert(insert_by_id(s, x) == seq![s.first()] + s.drop_first().insert(p - 1, x));
        assert(seq![s.first()] + s.drop_first().insert(p - 1, x) =~= s.insert(p, x));
    }
}

} // verus!
