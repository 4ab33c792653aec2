use vstd::prelude::*;

verus! {

/// The first position of `x` in `data`, or -1 if it is absent.
pub open spec fn spec_first_pos(data: Seq<u8>, x: u8) -> int
    decreases data.len(),
{
    if data.len() == 0 {
        -1
    } else if data.first() == x {
        0
    } else {
        let rest = spec_first_pos(data.drop_first(), x);
        if rest < 0 {
            -1
        } else {
            1 + rest
        }
    }
}

/// Finds the position of `x` by walking `data` from the start. The
/// position is reported truncated to a byte; absence is reported as 0,
/// which a caller cannot tell from a match at the start.
pub fn linear_search(data: Vec<u8>, x: u8) -> (out: u8)
    ensures
        spec_first_pos(data@, x) < 0 ==> out == 0,
        spec_first_pos(data@, x) >= 0 ==> out == spec_first_pos(data@, x) as u8,
{
    if data.len() == 0 {
        return 0;
    }
    let mut i: usize = 0;
    while i < data.len()
        invariant
            i <= data@.len(),
            forall|q: int| 0 <= q < i ==> data@[q] != x,
            spec_first_pos(data@, x) >= i || spec_first_pos(data@, x) < 0,
        decreases data@.len() - i,
    {
        if data[i] == x {
            proof {
                lemma_first_pos_found(data@, x, i as int);
            }
            return #[verifier::truncate] (i as u8);
        }
        i = i + 1;
        proof {
            lemma_first_pos_not_before(data@, x, i as int);
        }
    }
    proof {
        lemma_first_pos_not_before(data@, x, data@.len() as int);
        assert(spec_first_pos(data@, x) < 0 || spec_first_pos(data@, x) >= data@.len());
        lemma_first_pos_in_range(data@, x);
    }
    0
}

proof fn lemma_first_pos_in_range(data: Seq<u8>, x: u8)
    ensures
        spec_first_pos(data, x) < data.len(),
    decreases data.len(),
{
    if data.len() > 0 && data.first() != x {
        lemma_first_pos_in_range(data.drop_first(), x);
    }
}

proof fn lemma_first_pos_found(data: Seq<u8>, x: u8, i: int)
    requires
        0 <= i < data.len(),
        data[i] == x,
        forall|q: int| 0 <= q < i ==> data[q] != x,
    ensures
        spec_first_pos(data, x) == i,
    decreases i,
{
    if i > 0 {
        assert(data.first() != x);
        assert(forall|q: int|
            0 <= q < data.drop_first().len() ==> (#[trigger] data.drop_first()[q]) == data[q + 1]);
        lemma_first_pos_found(data.drop_first(), x, i - 1);
    }
}

proof fn lemma_first_pos_not_before(data: Seq<u8>, x: u8, i: int)
    requires
        0 <= i <= data.len(),
        forall|q: int| 0 <= q < i ==> data[q] != x,
    ensures
        spec_first_pos(data, x) < 0 || spec_first_pos(data, x) >= i,
    decreases i,
{
    if i > 0 && data.len() > 0 {
        assert(data.first() != x);
        assert(forall|q: int|
            0 <= q < data.drop_first().len() ==> (#[trigger] data.drop_first()[q]) == data[q + 1]);
        lemma_first_pos_not_before(data.drop_first(), x, i - 1);
    }
}

/// Whether the bytes ascend, duplicates allowed.
pub open spec fn bytes_sorted(data: Seq<u8>) -> bool {
    forall|i: int, j: int| 0 <= i < j < data.len() ==> data[i] <= data[j]
}

/// Finds `x` in ascending `data` by halving the range, returning the
/// matched byte itself, or 0 where `x` is absent — which a caller cannot
/// tell from finding a 0.
pub fn binary_search(data: Vec<u8>, x: u8) -> (out: u8)
    ensures
        bytes_sorted(data@) ==> ({
            if data@.contains(x) {
                out == x
            } else {
                out == 0
            }
        }),
    decreases data@.len(),
{
    if data.len() == 0 {
        proof {
            if data@.contains(x) {
                let i = choose|i: int| 0 <= i < data@.len() && data@[i] == x;
            }
        }
        return 0;
    }
    let mid = data.len() / 2;
    let current = data[mid];
    if x == current {
        return current;
    } else if x < current {
        let next = vstd::slice::slice_to_vec(
            vstd::slice::slice_subrange(data.as_slice(), 0, mid),
        );
        let out = binary_search(next, x);
        proof {
            if bytes_sorted(data@) {
                assert(bytes_sorted(data@.subrange(0, mid as int)));
                if data@.contains(x) {
                    let i = choose|i: int| 0 <= i < data@.len() && data@[i] == x;
                    assert(i < mid) by {
                        if i >= mid {
                            assert(data@[mid as int] <= data@[i] || i == mid);
                        }
                    }
                    assert(data@.subrange(0, mid as int)[i] == x);
                    assert(data@.subrange(0, mid as int).contains(x));
                } else {
                    if data@.subrange(0, mid as int).contains(x) {
                        let i = choose|i: int|
                            0 <= i < mid && data@.subrange(0, mid as int)[i] == x;
                        assert(data@[i] == x);
                    }
                }
            }
        }
        return out;
    } else {
        let next = vstd::slice::slice_to_vec(
            vstd::slice::slice_subrange(data.as_slice(), mid + 1, data.len()),
        );
        let out = binary_search(next, x);
        proof {
            let tail = data@.subrange(mid + 1, data@.len() as int);
            if bytes_sorted(data@) {
                assert(bytes_sorted(tail));
                if data@.contains(x) {
                    let i = choose|i: int| 0 <= i < data@.len() && data@[i] == x;
                    assert(i > mid) by {
                        if i <= mid {
                            assert(data@[i] <= data@[mid as int]);
                        }
                    }
                    assert(tail[i - mid - 1] == x);
                    assert(tail.contains(x));
                } else {
                    if tail.contains(x) {
                        let i = choose|i: int| 0 <= i < tail.len() && tail[i] == x;
                        assert(data@[mid + 1 + i] == x);
                    }
                }
            }
        }
        return out;
    }
}

} // verus!
