use vstd::prelude::*;

verus! {

use vstd::std_specs::cmp::{PartialEqSpec, PartialOrdSpec};
use core::cmp::Ordering;
use crate::sorter::{spec_le, sorted_le, ord_ok, lemma_ord_total};

/// Whether the type's equality agrees with its ordering: two values are
/// equal exactly when the comparison calls them even.
pub open spec fn eq_matches_ord<T: PartialOrd>() -> bool {
    &&& T::obeys_eq_spec()
    &&& forall|a: T, b: T|
        (#[trigger] a.eq_spec(&b)) == (a.partial_cmp_spec(&b) == Some(Ordering::Equal))
}

/// The last position whose value equals `v` under the type's own
/// equality, or -1 if none does.
pub open spec fn last_eq<T: PartialEq>(s: Seq<T>, v: T) -> int
    decreases s.len(),
{
    if s.len() == 0 {
        -1
    } else if s.last().eq_spec(&v) {
        s.len() - 1
    } else {
        last_eq(s.drop_last(), v)
    }
}

/// Search helpers: a namespace carrying the element type, holding a
/// linear and a binary search.
pub struct Searcher<T = u32>(pub std::marker::PhantomData<T>);

impl<T: Copy + Ord> Searcher<T> {
    /// Walks the whole vector and returns the last value equal to the
    /// one sought, or `None` if no value equals it.
    pub fn linear_search(data: &Vec<T>, value: T) -> (out: Option<T>)
        ensures
            T::obeys_eq_spec() ==> ({
                let i = last_eq(data@, value);
                if i >= 0 {
                    out == Some(data@[i])
                } else {
                    out is None
                }
            }),
    {
        let mut result: Option<T> = None;
        let mut j: usize = 0;
        proof {
            assert(data@.take(0) =~= Seq::<T>::empty());
        }
        while j < data.len()
            invariant
                j <= data@.len(),
                T::obeys_eq_spec() ==> ({
                    let i = last_eq(data@.take(j as int), value);
                    if i >= 0 {
                        result == Some(data@[i])
                    } else {
                        result is None
                    }
                }),
            decreases data@.len() - j,
        {
            proof {
                assert(data@.take(j + 1).drop_last() =~= data@.take(j as int));
                assert(data@.take(j + 1).last() == data@[j as int]);
                if T::obeys_eq_spec() {
                    lemma_last_eq_in_range(data@.take(j as int), value);
                }
            }
            if data[j] == value {
                result = Some(data[j]);
            }
            j = j + 1;
        }
        proof {
            assert(data@.take(data@.len() as int) =~= data@);
        }
        result
    }

    /// Finds a value equal to the one sought in an ascending slice by
    /// halving the range. On a slice that is not ascending, or a type
    /// whose order is not lawful, the answer carries no promise.
    pub fn binary_search(data: &[T], value: T) -> (out: Option<T>)
        ensures
            ord_ok::<T>() && eq_matches_ord::<T>() && sorted_le(data@) ==> ({
                match out {
                    Some(x) => data@.contains(x) && x.eq_spec(&value),
                    None => forall|i: int| 0 <= i < data@.len() ==> !(#[trigger] data@[i]).eq_spec(
                        &value,
                    ),
                }
            }),
        decreases data@.len(),
    {
        let ghost fine = ord_ok::<T>() && eq_matches_ord::<T>() && sorted_le(data@);
        if data.len() == 0 {
            return None;
        }
        let mid = data.len() / 2;
        let mid_val = *vstd::slice::slice_index_get(data, mid);
        if mid_val == value {
            proof {
                if fine {
                    assert(data@.contains(data@[mid as int]));
                }
            }
            return Some(mid_val);
        }
        if mid_val > value {
            let half = vstd::slice::slice_subrange(data, 0, mid);
            let out = Self::binary_search(half, value);
            proof {
                if fine {
                    assert(sorted_le(half@));
                    match out {
                        Some(x) => {
                            let w = choose|w: int| 0 <= w < half@.len() && half@[w] == x;
                            assert(data@[w] == x);
                            assert(data@.contains(x));
                        },
                        None => {
                            assert forall|i: int|
                                0 <= i < data@.len() implies !(#[trigger] data@[i]).eq_spec(
                                &value,
                            ) by {
                                if i >= mid {
                                    if data@[i].eq_spec(&value) {
                                        assert(spec_le(data@[i], value) && spec_le(
                                            value,
                                            data@[i],
                                        ));
                                        if i > mid {
                                            assert(spec_le(data@[mid as int], data@[i]));
                                        }
                                        assert(spec_le(data@[mid as int], value));
                                        assert(data@[mid as int].partial_cmp_spec(&value) == Some(
                                            Ordering::Greater,
                                        ));
                                    }
                                } else {
                                    assert(half@[i] == data@[i]);
                                }
                            }
                        },
                    }
                }
            }
            return out;
        }
        let half = vstd::slice::slice_subrange(data, mid + 1, data.len());
        let out = Self::binary_search(half, value);
        proof {
            if fine {
                assert(sorted_le(half@)) by {
                    assert forall|a: int, b: int| 0 <= a < b < half@.len() implies spec_le(
                        #[trigger] half@[a],
                        #[trigger] half@[b],
                    ) by {
                        assert(half@[a] == data@[mid + 1 + a] && half@[b] == data@[mid + 1 + b]);
                    }
                }
                assert(!(data@[mid as int].partial_cmp_spec(&value) == Some(Ordering::Greater)));
                assert(!data@[mid as int].eq_spec(&value));
                match out {
                    Some(x) => {
                        let w = choose|w: int| 0 <= w < half@.len() && half@[w] == x;
                        assert(data@[mid + 1 + w] == x);
                        assert(data@.contains(x));
                    },
                    None => {
                        assert forall|i: int|
                            0 <= i < data@.len() implies !(#[trigger] data@[i]).eq_spec(
                            &value,
                        ) by {
                            if i <= mid {
                                if data@[i].eq_spec(&value) {
                                    assert(spec_le(data@[i], value) && spec_le(value, data@[i]));
                                    if i < mid {
                                        assert(spec_le(data@[i], data@[mid as int]));
                                    }
                                    lemma_ord_total(data@[mid as int], value);
                                    assert(spec_le(value, data@[mid as int]));
                                    assert(spec_le(data@[mid as int], value));
                                    assert(data@[mid as int].eq_spec(&value)) by {
                                        let o = data@[mid as int].partial_cmp_spec(&value);
                                        assert(o is Some);
                                        if o == Some(Ordering::Less) {
                                            assert(value.partial_cmp_spec(&data@[mid as int])
                                                == Some(Ordering::Greater));
                                        }
                                    }
                                }
                            } else {
                                assert(half@[i - mid - 1] == data@[i]);
                            }
                        }
                    },
                }
            }
        }
        out
    }
}

proof fn lemma_last_eq_in_range<T: PartialEq>(s: Seq<T>, v: T)
    ensures
        last_eq(s, v) < s.len(),
    decreases s.len(),
{
    if s.len() > 0 && !s.last().eq_spec(&v) {
        lemma_last_eq_in_range(s.drop_last(), v);
    }
}

} // verus!
