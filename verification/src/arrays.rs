//! In-place index permutations used by the wavelet transforms, and padding to a
//! power-of-two length.
use crate::cycles::permute;
use crate::sizes::{lemma_next_power_of_two, next_power_of_two};
use vstd::prelude::*;

verus! {

/// Number of even indices below `n`: the length of the front part after the
/// even/odd separation.
pub open spec fn front_len(n: int) -> int {
    (n + 1) / 2
}

/// Where the element at index `i` of a sequence of length `n` stands once the
/// even indices have been gathered in front of the odd ones.
pub open spec fn separated_index(n: int, i: int) -> int {
    if i % 2 == 0 {
        i / 2
    } else {
        front_len(n) + i / 2
    }
}

/// Where the element at index `j` of a separated sequence of length `n` stands
/// once the back part has been woven between the elements of the front part.
pub open spec fn woven_index(n: int, j: int) -> int {
    if j < front_len(n) {
        2 * j
    } else {
        2 * (j - front_len(n)) + 1
    }
}

/// The sequence `s` with its even-indexed elements first, then its odd-indexed
/// elements, each group in the order it had.
pub open spec fn evens_first<E>(s: Seq<E>) -> Seq<E> {
    Seq::new(s.len(), |j: int| s[woven_index(s.len() as int, j)])
}

/// The sequence `s`, read as a front part followed by a back part, with the
/// elements of the back part placed alternately after those of the front part.
pub open spec fn interleaved<E>(s: Seq<E>) -> Seq<E> {
    Seq::new(s.len(), |i: int| s[separated_index(s.len() as int, i)])
}

/// The index map that one of the two permutations applies: separation when
/// `gather` holds, weaving otherwise.
pub open spec fn moved_index(n: int, gather: bool, i: int) -> int {
    if gather {
        separated_index(n, i)
    } else {
        woven_index(n, i)
    }
}

/// Separation and weaving are index maps on `[0, n)` and undo each other.
pub proof fn lemma_moved_index_inverse(n: int, gather: bool, i: int)
    requires
        0 <= i < n,
    ensures
        0 <= moved_index(n, gather, i) < n,
        moved_index(n, !gather, moved_index(n, gather, i)) == i,
{
}

/// Permute the elements of the slice such that those at even indices are moved
/// to the front and those at odd indices to the back, each group keeping its
/// order: `[0, 1, 2, 3, 4, 5]` becomes `[0, 2, 4, 1, 3, 5]`.
///
/// The permutation is performed in place, cycle by cycle, through one scratch
/// value.
pub fn partition_evens<E: Default>(d: &mut [E])
    ensures
        final(d)@ == evens_first(old(d)@),
{
    permute(d, true);
    proof {
        let n = old(d)@.len() as int;
        assert forall|j: int| 0 <= j < n implies d@[j] == evens_first(old(d)@)[j] by {
            lemma_moved_index_inverse(n, false, j);
        }
        assert(d@ =~= evens_first(old(d)@));
    }
}

/// Weave the back part of the slice into its front part, so that the elements
/// of the front part come to stand at the even indices and those of the back
/// part at the odd indices, each group keeping its order: `[0, 1, 2, 3, 4, 5]`
/// becomes `[0, 3, 1, 4, 2, 5]`. The front part is the longer one where the
/// length is odd.
///
/// This undoes `partition_evens`, and is performed in place in the same way.
pub fn interleave<E: Default>(d: &mut [E])
    ensures
        final(d)@ == interleaved(old(d)@),
{
    permute(d, false);
    proof {
        let n = old(d)@.len() as int;
        assert forall|i: int| 0 <= i < n implies d@[i] == interleaved(old(d)@)[i] by {
            lemma_moved_index_inverse(n, true, i);
        }
        assert(d@ =~= interleaved(old(d)@));
    }
}

/// Separating a sequence that holds its own indices puts the even numbers
/// first, in ascending order, and the odd numbers after them, in ascending
/// order.
pub proof fn lemma_evens_first_of_indices(s: Seq<int>)
    requires
        forall|i: int| 0 <= i < s.len() ==> s[i] == i,
    ensures
        evens_first(s).len() == s.len(),
        forall|j: int|
            0 <= j < front_len(s.len() as int) ==> #[trigger] evens_first(s)[j] == 2 * j,
        forall|j: int|
            front_len(s.len() as int) <= j < s.len() ==> #[trigger] evens_first(s)[j] == 2 * (j
                - front_len(s.len() as int)) + 1,
{
}

/// Weaving undoes the separation of even and odd indices, for every length.
pub proof fn lemma_interleaved_evens_first<E>(s: Seq<E>)
    ensures
        interleaved(evens_first(s)) == s,
{
    let n = s.len() as int;
    assert forall|i: int| 0 <= i < n implies interleaved(evens_first(s))[i] == s[i] by {
        lemma_moved_index_inverse(n, true, i);
    }
    assert(interleaved(evens_first(s)) =~= s);
}

/// Separating even and odd indices undoes the weaving, for every length.
pub proof fn lemma_evens_first_interleaved<E>(s: Seq<E>)
    ensures
        evens_first(interleaved(s)) == s,
{
    let n = s.len() as int;
    assert forall|j: int| 0 <= j < n implies evens_first(interleaved(s))[j] == s[j] by {
        lemma_moved_index_inverse(n, false, j);
    }
    assert(evens_first(interleaved(s)) =~= s);
}

/// The sequence `s` followed by as many copies of `fill` as bring its length to
/// the next power of two.
pub open spec fn padded<T>(s: Seq<T>, fill: T) -> Seq<T> {
    s + Seq::new((next_power_of_two(s.len()) - s.len()) as nat, |i: int| fill)
}

/// The least power of two that is not below `m`, and 0 for 0.
pub fn padded_len(m: usize) -> (r: usize)
    requires
        next_power_of_two(m as nat) <= usize::MAX,
    ensures
        r == next_power_of_two(m as nat),
{
    if m == 0 {
        return 0;
    }
    let mut rest: usize = m;
    let mut size: usize = 1;
    while rest > 1
        invariant
            rest >= 1,
            size >= 1,
            size * next_power_of_two(rest as nat) == next_power_of_two(m as nat),
            next_power_of_two(m as nat) <= usize::MAX,
        decreases rest,
    {
        let ghost half = next_power_of_two(((rest + 1) / 2) as nat);
        proof {
            lemma_next_power_of_two(((rest + 1) / 2) as nat);
            assert(size * (2 * half) == (2 * size) * half) by (nonlinear_arith);
            assert(2 * size <= (2 * size) * half) by (nonlinear_arith)
                requires
                    half >= 1,
                    size >= 1,
            ;
        }
        rest = rest / 2 + rest % 2;
        size = 2 * size;
    }
    proof {
        assert(size * 1 == size);
    }
    size
}

/// Copy the data into a vector whose length is the next power of two, the added
/// places holding `fill`. Data whose length is a power of two already is copied
/// as it is, and empty data gives an empty vector.
pub fn pad<T: Copy>(d: &[T], fill: T) -> (r: Vec<T>)
    requires
        next_power_of_two(d@.len()) <= usize::MAX,
    ensures
        r@ == padded(d@, fill),
{
    let size: usize = padded_len(d.len());
    proof {
        if d@.len() >= 1 {
            lemma_next_power_of_two(d@.len());
        }
    }
    let mut out: Vec<T> = Vec::with_capacity(size);
    let mut i: usize = 0;
    while i < d.len()
        invariant
            i <= d@.len(),
            out@ == d@.subrange(0, i as int),
        decreases d@.len() - i,
    {
        out.push(d[i]);
        proof {
            assert(out@ =~= d@.subrange(0, i + 1));
        }
        i += 1;
    }
    while i < size
        invariant
            d@.len() <= i <= size,
            out@.len() == i,
            out@.subrange(0, d@.len() as int) == d@,
            forall|k: int| d@.len() <= k < i ==> out@[k] == fill,
        decreases size - i,
    {
        let ghost before = out@;
        out.push(fill);
        proof {
            assert(out@.subrange(0, d@.len() as int) =~= before.subrange(0, d@.len() as int));
        }
        i += 1;
    }
    proof {
        assert(out@ =~= padded(d@, fill)) by {
            assert forall|k: int| 0 <= k < out@.len() implies out@[k] == padded(d@, fill)[k] by {
                if k < d@.len() {
                    assert(out@.subrange(0, d@.len() as int)[k] == out@[k]);
                }
            }
        }
    }
    out
}

} // verus!
