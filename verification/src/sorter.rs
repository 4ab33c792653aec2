use vstd::prelude::*;

verus! {

use vstd::std_specs::cmp::PartialOrdSpec;
use vstd::seq_lib::lemma_multiset_commutative;
use core::cmp::Ordering;

/// The type's own at-most ordering, as its `partial_cmp` describes it.
pub open spec fn spec_le<T: PartialOrd>(a: T, b: T) -> bool {
    a.partial_cmp_spec(&b) matches Some(Ordering::Less | Ordering::Equal)
}

/// Ascending under the type's own ordering, duplicates allowed.
pub open spec fn sorted_le<T: PartialOrd>(s: Seq<T>) -> bool {
    forall|i: int, j: int| 0 <= i < j < s.len() ==> spec_le(#[trigger] s[i], #[trigger] s[j])
}

/// Whether the type's comparisons describe a total order: `partial_cmp`
/// follows its specification, always decides, flips cleanly, and its
/// at-most relation is transitive. The integer and string types of std
/// order this way; a type whose `Ord` breaks these rules still comes out
/// of the sorts as a permutation, just not provably in order.
pub open spec fn ord_ok<T: PartialOrd>() -> bool {
    &&& T::obeys_partial_cmp_spec()
    &&& forall|a: T, b: T| (#[trigger] a.partial_cmp_spec(&b)) is Some
    &&& forall|a: T, b: T|
        ((#[trigger] a.partial_cmp_spec(&b)) == Some(Ordering::Less)) == (b.partial_cmp_spec(&a)
            == Some(Ordering::Greater))
    &&& forall|a: T, b: T|
        ((#[trigger] a.partial_cmp_spec(&b)) == Some(Ordering::Equal)) == (b.partial_cmp_spec(&a)
            == Some(Ordering::Equal))
    &&& forall|a: T, b: T, c: T|
        #![trigger spec_le(a, b), spec_le(b, c)]
        spec_le(a, b) && spec_le(b, c) ==> spec_le(a, c)
}

/// A lawful order always relates two values one way or the other.
pub proof fn lemma_ord_total<T: PartialOrd>(a: T, b: T)
    requires
        ord_ok::<T>(),
    ensures
        spec_le(a, b) || spec_le(b, a),
{
    if a.partial_cmp_spec(&b) == Some(Ordering::Greater) {
        assert(b.partial_cmp_spec(&a) == Some(Ordering::Less));
    }
}

/// Sorting helpers: a namespace carrying the element type, holding a
/// selection sort, a quicksort and a merge sort. Each returns a
/// rearrangement of its input; under a lawful order it is ascending.
pub struct Sorter<T = u32>(pub std::marker::PhantomData<T>);

impl<T: Ord + Clone> Sorter<T> {
    /// Sorts by repeatedly moving the smallest remaining value over.
    pub fn selection_sort(data: Vec<T>) -> (out: Vec<T>)
        ensures
            out@.to_multiset() == data@.to_multiset(),
            out@.len() == data@.len(),
            ord_ok::<T>() ==> sorted_le(out@),
    {
        let mut rest = data;
        let mut out: Vec<T> = Vec::new();
        proof {
            out@.to_multiset_ensures();
            assert(out@.to_multiset().add(rest@.to_multiset()) =~= data@.to_multiset());
        }
        while rest.len() > 0
            invariant
                out@.to_multiset().add(rest@.to_multiset()) == data@.to_multiset(),
                out@.len() + rest@.len() == data@.len(),
                ord_ok::<T>() ==> sorted_le(out@),
                ord_ok::<T>() ==> forall|a: int, b: int|
                    0 <= a < out@.len() && 0 <= b < rest@.len() ==> spec_le(
                        #[trigger] out@[a],
                        #[trigger] rest@[b],
                    ),
            decreases rest@.len(),
        {
            let mut m: usize = 0;
            let mut j: usize = 1;
            while j < rest.len()
                invariant
                    0 <= m < j <= rest@.len(),
                    rest@.len() > 0,
                    ord_ok::<T>() ==> forall|q: int|
                        0 <= q < j ==> spec_le(rest@[m as int], #[trigger] rest@[q]),
                decreases rest@.len() - j,
            {
                proof {
                    if ord_ok::<T>() {
                        lemma_ord_total(rest@[j as int], rest@[m as int]);
                    }
                }
                if rest[j] < rest[m] {
                    m = j;
                }
                j = j + 1;
            }
            let ghost pre_rest = rest@;
            let ghost pre_out = out@;
            let v = rest.remove(m);
            out.push(v);
            proof {
                pre_rest.to_multiset_ensures();
                pre_out.to_multiset_ensures();
                assert(rest@.to_multiset() == pre_rest.to_multiset().remove(pre_rest[m as int]));
                assert(out@.to_multiset() == pre_out.to_multiset().insert(pre_rest[m as int]));
                assert(out@.to_multiset().add(rest@.to_multiset()) =~= data@.to_multiset());
                if ord_ok::<T>() {
                    assert forall|i: int, jj: int| 0 <= i < jj < out@.len() implies spec_le(
                        #[trigger] out@[i],
                        #[trigger] out@[jj],
                    ) by {
                        if jj == out@.len() - 1 {
                            assert(spec_le(pre_out[i], pre_rest[m as int]));
                        }
                    }
                    assert forall|a: int, b: int|
                        0 <= a < out@.len() && 0 <= b < rest@.len() implies spec_le(
                        #[trigger] out@[a],
                        #[trigger] rest@[b],
                    ) by {
                        let b0: int = if b < m { b } else { b + 1 };
                        assert(rest@[b] == pre_rest[b0]);
                        if a < out@.len() - 1 {
                            assert(spec_le(pre_out[a], pre_rest[b0]));
                        } else {
                            assert(spec_le(pre_rest[m as int], pre_rest[b0]));
                        }
                    }
                }
            }
        }
        proof {
            rest@.to_multiset_ensures();
            assert(rest@.to_multiset().len() == 0);
            assert(out@.to_multiset().add(rest@.to_multiset()) =~= out@.to_multiset());
            out@.to_multiset_ensures();
            data@.to_multiset_ensures();
        }
        out
    }

    /// Sorts by splitting around the last value as a pivot.
    pub fn quick_sort(data: Vec<T>) -> (out: Vec<T>)
        ensures
            out@.to_multiset() == data@.to_multiset(),
            out@.len() == data@.len(),
            ord_ok::<T>() ==> sorted_le(out@),
        decreases data@.len(),
    {
        let mut work = data;
        if work.len() < 2 {
            return work;
        }
        let pivot = match work.pop() {
            Some(p) => p,
            None => {
                proof {
                    assert(false);
                }
                return work;
            },
        };
        let ghost body = data@.drop_last();
        let mut left: Vec<T> = Vec::new();
        let mut right: Vec<T> = Vec::new();
        proof {
            left@.to_multiset_ensures();
            right@.to_multiset_ensures();
            assert(left@.to_multiset().add(right@.to_multiset()).add(work@.to_multiset())
                =~= body.to_multiset());
        }
        while work.len() > 0
            invariant
                left@.to_multiset().add(right@.to_multiset()).add(work@.to_multiset())
                    == body.to_multiset(),
                left@.len() + right@.len() + work@.len() == body.len(),
                ord_ok::<T>() ==> forall|a: int|
                    0 <= a < left@.len() ==> spec_le(#[trigger] left@[a], pivot),
                ord_ok::<T>() ==> forall|a: int|
                    0 <= a < right@.len() ==> spec_le(pivot, #[trigger] right@[a]),
            decreases work@.len(),
        {
            let ghost pre_work = work@;
            let item = match work.pop() {
                Some(x) => x,
                None => {
                    proof {
                        assert(false);
                    }
                    return work;
                },
            };
            let ghost gi = item;
            proof {
                pre_work.to_multiset_ensures();
                assert(pre_work.drop_last().to_multiset() == pre_work.to_multiset().remove(gi))
                    by {
                    assert(pre_work.drop_last().push(gi) =~= pre_work);
                    pre_work.drop_last().to_multiset_ensures();
                }
                if ord_ok::<T>() {
                    lemma_ord_total(gi, pivot);
                }
            }
            let ghost pre_left = left@;
            let ghost pre_right = right@;
            if item <= pivot {
                left.push(item);
                proof {
                    pre_left.to_multiset_ensures();
                    assert(left@.to_multiset().add(right@.to_multiset()).add(work@.to_multiset())
                        =~= body.to_multiset());
                }
            } else {
                right.push(item);
                proof {
                    pre_right.to_multiset_ensures();
                    assert(left@.to_multiset().add(right@.to_multiset()).add(work@.to_multiset())
                        =~= body.to_multiset());
                }
            }
        }
        proof {
            work@.to_multiset_ensures();
            assert(left@.to_multiset().add(right@.to_multiset()).add(work@.to_multiset())
                =~= left@.to_multiset().add(right@.to_multiset()));
        }
        let ls = Self::quick_sort(left);
        let rs = Self::quick_sort(right);
        let ghost gls = ls@;
        let ghost grs = rs@;
        let ghost gpivot = pivot;
        let mut out = ls;
        out.push(pivot);
        let mut tail = rs;
        out.append(&mut tail);
        proof {
            assert(out@ == gls.push(gpivot) + grs);
            lemma_multiset_commutative(gls.push(gpivot), grs);
            gls.to_multiset_ensures();
            body.to_multiset_ensures();
            data@.to_multiset_ensures();
            assert(body.push(gpivot) =~= data@);
            assert(out@.to_multiset() =~= data@.to_multiset());
            out@.to_multiset_ensures();
            if ord_ok::<T>() {
                assert forall|a: int| 0 <= a < gls.len() implies spec_le(
                    #[trigger] gls[a],
                    gpivot,
                ) by {
                    gls.to_multiset_ensures();
                    left@.to_multiset_ensures();
                    assert(gls.to_multiset().count(gls[a]) > 0);
                    let witness = choose|w: int| 0 <= w < left@.len() && left@[w] == gls[a];
                    assert(spec_le(left@[witness], gpivot));
                }
                assert forall|a: int| 0 <= a < grs.len() implies spec_le(
                    gpivot,
                    #[trigger] grs[a],
                ) by {
                    grs.to_multiset_ensures();
                    right@.to_multiset_ensures();
                    assert(grs.to_multiset().count(grs[a]) > 0);
                    let witness = choose|w: int| 0 <= w < right@.len() && right@[w] == grs[a];
                    assert(spec_le(gpivot, right@[witness]));
                }
                assert forall|i: int, j: int| 0 <= i < j < out@.len() implies spec_le(
                    #[trigger] out@[i],
                    #[trigger] out@[j],
                ) by {
                    let n1 = gls.len() as int;
                    if j <= n1 - 1 {
                        assert(spec_le(gls[i], gls[j]));
                    } else if i <= n1 - 1 && j == n1 {
                        assert(spec_le(gls[i], gpivot));
                    } else if i <= n1 - 1 {
                        assert(spec_le(gls[i], gpivot));
                        assert(spec_le(gpivot, grs[j - n1 - 1]));
                    } else if i == n1 {
                        assert(spec_le(gpivot, grs[j - n1 - 1]));
                    } else {
                        assert(spec_le(grs[i - n1 - 1], grs[j - n1 - 1]));
                    }
                }
            }
        }
        out
    }

    /// Sorts by halving, sorting each half, and merging them back.
    pub fn merge_sort(data: Vec<T>) -> (out: Vec<T>)
        ensures
            out@.to_multiset() == data@.to_multiset(),
            out@.len() == data@.len(),
            ord_ok::<T>() ==> sorted_le(out@),
        decreases data@.len(),
    {
        if data.len() < 2 {
            return data;
        }
        let mut work = data;
        let mid = work.len() / 2;
        let right = work.split_off(mid);
        let left = work;
        proof {
            assert(left@ + right@ =~= data@);
            lemma_multiset_commutative(left@, right@);
        }
        let ls = Self::merge_sort(left);
        let rs = Self::merge_sort(right);
        Self::merge(ls, rs)
    }

    /// Joins two runs by always taking the smaller front value; of equal
    /// fronts the left one goes first, which keeps the sort stable.
    fn merge(left: Vec<T>, right: Vec<T>) -> (out: Vec<T>)
        requires
            ord_ok::<T>() ==> sorted_le(left@) && sorted_le(right@),
        ensures
            out@.to_multiset() == left@.to_multiset().add(right@.to_multiset()),
            out@.len() == left@.len() + right@.len(),
            ord_ok::<T>() ==> sorted_le(out@),
    {
        let mut left = left;
        let mut right = right;
        let ghost gleft = left@;
        let ghost gright = right@;
        let mut out: Vec<T> = Vec::new();
        proof {
            out@.to_multiset_ensures();
            assert(out@.to_multiset().add(left@.to_multiset().add(right@.to_multiset()))
                =~= gleft.to_multiset().add(gright.to_multiset()));
        }
        while left.len() > 0 && right.len() > 0
            invariant
                out@.to_multiset().add(left@.to_multiset().add(right@.to_multiset()))
                    == gleft.to_multiset().add(gright.to_multiset()),
                out@.len() + left@.len() + right@.len() == gleft.len() + gright.len(),
                ord_ok::<T>() ==> sorted_le(left@) && sorted_le(right@) && sorted_le(out@),
                ord_ok::<T>() ==> forall|a: int, b: int|
                    0 <= a < out@.len() && 0 <= b < left@.len() ==> spec_le(
                        #[trigger] out@[a],
                        #[trigger] left@[b],
                    ),
                ord_ok::<T>() ==> forall|a: int, b: int|
                    0 <= a < out@.len() && 0 <= b < right@.len() ==> spec_le(
                        #[trigger] out@[a],
                        #[trigger] right@[b],
                    ),
            decreases left@.len() + right@.len(),
        {
            proof {
                if ord_ok::<T>() {
                    lemma_ord_total(left@[0], right@[0]);
                }
            }
            let take_left = left[0] <= right[0];
            let ghost pre_out = out@;
            if take_left {
                let ghost pre = left@;
                let v = left.remove(0);
                out.push(v);
                proof {
                    pre.to_multiset_ensures();
                    pre_out.to_multiset_ensures();
                    assert(left@ == pre.remove(0));
                    assert(out@.to_multiset().add(left@.to_multiset().add(right@.to_multiset()))
                        =~= gleft.to_multiset().add(gright.to_multiset()));
                    if ord_ok::<T>() {
                        Self::lemma_merge_step(pre_out, pre, right@, out@, left@);
                    }
                }
            } else {
                let ghost pre = right@;
                let v = right.remove(0);
                out.push(v);
                proof {
                    pre.to_multiset_ensures();
                    pre_out.to_multiset_ensures();
                    assert(right@ == pre.remove(0));
                    assert(out@.to_multiset().add(left@.to_multiset().add(right@.to_multiset()))
                        =~= gleft.to_multiset().add(gright.to_multiset()));
                    if ord_ok::<T>() {
                        Self::lemma_merge_step(pre_out, pre, left@, out@, right@);
                    }
                }
            }
        }
        let ghost mid_out = out@;
        let ghost mid_left = left@;
        let ghost mid_right = right@;
        let mut l = left;
        out.append(&mut l);
        let mut r = right;
        out.append(&mut r);
        proof {
            assert(out@ == mid_out + mid_left + mid_right);
            lemma_multiset_commutative(mid_out + mid_left, mid_right);
            lemma_multiset_commutative(mid_out, mid_left);
            assert(out@.to_multiset() =~= gleft.to_multiset().add(gright.to_multiset()));
            out@.to_multiset_ensures();
            gleft.to_multiset_ensures();
            gright.to_multiset_ensures();
            if ord_ok::<T>() {
                assert(mid_left.len() == 0 || mid_right.len() == 0);
                assert forall|i: int, j: int| 0 <= i < j < out@.len() implies spec_le(
                    #[trigger] out@[i],
                    #[trigger] out@[j],
                ) by {
                    let n0 = mid_out.len() as int;
                    if j < n0 {
                        assert(spec_le(mid_out[i], mid_out[j]));
                    } else if i < n0 {
                        if mid_left.len() == 0 {
                            assert(out@[j] == mid_right[j - n0]);
                            assert(spec_le(mid_out[i], mid_right[j - n0]));
                        } else {
                            assert(out@[j] == mid_left[j - n0]);
                            assert(spec_le(mid_out[i], mid_left[j - n0]));
                        }
                    } else {
                        if mid_left.len() == 0 {
                            assert(spec_le(mid_right[i - n0], mid_right[j - n0]));
                        } else {
                            assert(spec_le(mid_left[i - n0], mid_left[j - n0]));
                        }
                    }
                }
            }
        }
        out
    }

    /// One merge step keeps the runs sorted and the taken value below
    /// everything still waiting.
    proof fn lemma_merge_step(
        pre_out: Seq<T>,
        taken_from: Seq<T>,
        other: Seq<T>,
        new_out: Seq<T>,
        rest: Seq<T>,
    )
        requires
            ord_ok::<T>(),
            taken_from.len() > 0,
            sorted_le(taken_from),
            sorted_le(other),
            sorted_le(pre_out),
            new_out == pre_out.push(taken_from[0]),
            rest == taken_from.remove(0),
            forall|a: int, b: int|
                0 <= a < pre_out.len() && 0 <= b < taken_from.len() ==> spec_le(
                    #[trigger] pre_out[a],
                    #[trigger] taken_from[b],
                ),
            forall|a: int, b: int|
                0 <= a < pre_out.len() && 0 <= b < other.len() ==> spec_le(
                    #[trigger] pre_out[a],
                    #[trigger] other[b],
                ),
            other.len() > 0 ==> spec_le(taken_from[0], other[0]),
        ensures
            sorted_le(rest),
            sorted_le(new_out),
            forall|a: int, b: int|
                0 <= a < new_out.len() && 0 <= b < rest.len() ==> spec_le(
                    #[trigger] new_out[a],
                    #[trigger] rest[b],
                ),
            forall|a: int, b: int|
                0 <= a < new_out.len() && 0 <= b < other.len() ==> spec_le(
                    #[trigger] new_out[a],
                    #[trigger] other[b],
                ),
    {
        assert(forall|b: int| 0 <= b < rest.len() ==> (#[trigger] rest[b]) == taken_from[b + 1]);
        assert forall|i: int, j: int| 0 <= i < j < new_out.len() implies spec_le(
            #[trigger] new_out[i],
            #[trigger] new_out[j],
        ) by {
            if j == new_out.len() - 1 {
                assert(spec_le(pre_out[i], taken_from[0]));
            } else {
                assert(spec_le(pre_out[i], pre_out[j]));
            }
        }
        assert forall|a: int, b: int|
            0 <= a < new_out.len() && 0 <= b < rest.len() implies spec_le(
            #[trigger] new_out[a],
            #[trigger] rest[b],
        ) by {
            assert(rest[b] == taken_from[b + 1]);
            if a < new_out.len() - 1 {
                assert(spec_le(pre_out[a], taken_from[b + 1]));
            } else {
                assert(spec_le(taken_from[0], taken_from[b + 1]));
            }
        }
        assert forall|a: int, b: int|
            0 <= a < new_out.len() && 0 <= b < other.len() implies spec_le(
            #[trigger] new_out[a],
            #[trigger] other[b],
        ) by {
            if a < new_out.len() - 1 {
                assert(spec_le(pre_out[a], other[b]));
            } else {
                assert(spec_le(taken_from[0], other[0]));
                if b > 0 {
                    assert(spec_le(other[0], other[b]));
                }
            }
        }
    }
}

} // verus!
