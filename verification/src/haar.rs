//! The Haar wavelet transform and its inverse, each in a copying and an
//! in-place form, over any element type.
//!
//! The arithmetic on two elements is handed in by the caller as an operation
//! on pairs: a split for the transform, a merge for its inverse. What each
//! function returns is stated for every function on pairs that the operation
//! computes.
use crate::arrays::{evens_first, pad, padded, partition_evens};
use crate::model::{back_half, forward, front_half, inverse, level, merged, pyramid};
use crate::sizes::{
    is_power_of_two, is_signal_len, lemma_next_power_of_two, lemma_power_of_two_gap, levels,
    next_power_of_two, power_of_two, InvalidLength,
};
use vstd::prelude::*;

verus! {

/// The operation accepts every pair of elements.
pub open spec fn accepts_all<T, F: Fn(T, T) -> (T, T)>(f: F) -> bool {
    forall|a: T, b: T| #[trigger] f.requires((a, b))
}

/// Every result of the operation is the value of the function `op` on the
/// same pair.
pub open spec fn computes<T, F: Fn(T, T) -> (T, T)>(f: F, op: spec_fn(T, T) -> (T, T)) -> bool {
    forall|a: T, b: T, r: (T, T)| #[trigger] f.ensures((a, b), r) ==> r == op(a, b)
}

/// The levels that a vector of vectors holds, each as a sequence.
pub open spec fn levels_of<T>(v: Seq<Vec<T>>) -> Seq<Seq<T>> {
    Seq::new(v.len(), |j: int| v[j]@)
}

/// The split has returned `(x, y)` for the `k`-th neighbouring pair of `s`.
spec fn split_pair<T, F: Fn(T, T) -> (T, T)>(f: F, s: Seq<T>, k: int, x: T, y: T) -> bool {
    f.ensures((s[2 * k], s[2 * k + 1]), (x, y))
}

/// The merge has returned `(x, y)` for the `k`-th mean with its detail term.
spec fn merged_pair<T, G: Fn(T, T) -> (T, T)>(
    g: G,
    means: Seq<T>,
    details: Seq<T>,
    k: int,
    x: T,
    y: T,
) -> bool {
    g.ensures((means[k], details[k]), (x, y))
}

/// `l` is what one pass of the split has made of `s`: means in the front
/// half, detail terms in the back half.
spec fn is_level<T, F: Fn(T, T) -> (T, T)>(f: F, s: Seq<T>, l: Seq<T>) -> bool {
    &&& l.len() == s.len()
    &&& forall|k: int|
        0 <= k < s.len() / 2 ==> #[trigger] split_pair(f, s, k, l[k], l[s.len() / 2 + k])
}

/// `p` is what one pass of the split has made of `s` where each result was
/// left in the place of its pair.
spec fn is_swept<T, F: Fn(T, T) -> (T, T)>(f: F, s: Seq<T>, p: Seq<T>) -> bool {
    &&& p.len() == s.len()
    &&& forall|k: int| 0 <= k < s.len() / 2 ==> #[trigger] split_pair(f, s, k, p[2 * k], p[2 * k + 1])
}

/// `out` is what the merge has made of the means and their detail terms.
spec fn is_merged<T, G: Fn(T, T) -> (T, T)>(
    g: G,
    means: Seq<T>,
    details: Seq<T>,
    out: Seq<T>,
) -> bool {
    &&& details.len() == means.len()
    &&& out.len() == 2 * means.len()
    &&& forall|k: int|
        0 <= k < means.len() ==> #[trigger] merged_pair(
            g,
            means,
            details,
            k,
            out[2 * k],
            out[2 * k + 1],
        )
}

/// What one pass of the split has made is the level of the model, under
/// every function that the split computes.
proof fn lemma_is_level<T, F: Fn(T, T) -> (T, T)>(
    f: F,
    op: spec_fn(T, T) -> (T, T),
    s: Seq<T>,
    l: Seq<T>,
)
    requires
        s.len() % 2 == 0,
        is_level(f, s, l),
        computes(f, op),
    ensures
        l == level(op, s),
{
    let half = (s.len() / 2) as int;
    assert forall|i: int| 0 <= i < s.len() implies l[i] == level(op, s)[i] by {
        let k = if i < half {
            i
        } else {
            i - half
        };
        assert(split_pair(f, s, k, l[k], l[half + k]));
    }
    assert(l =~= level(op, s));
}

/// A pass that left its results in place gives, once even and odd indices are
/// separated, what a pass into the two halves gives.
proof fn lemma_is_swept<T, F: Fn(T, T) -> (T, T)>(f: F, s: Seq<T>, p: Seq<T>)
    requires
        s.len() % 2 == 0,
        is_swept(f, s, p),
    ensures
        is_level(f, s, evens_first(p)),
{
    let l = evens_first(p);
    assert forall|k: int| 0 <= k < s.len() / 2 implies #[trigger] split_pair(
        f,
        s,
        k,
        l[k],
        l[s.len() / 2 + k],
    ) by {
        assert(split_pair(f, s, k, p[2 * k], p[2 * k + 1]));
    }
}

/// What the merge has made is the merge of the model, under every function
/// that the merge computes.
proof fn lemma_is_merged<T, G: Fn(T, T) -> (T, T)>(
    g: G,
    op: spec_fn(T, T) -> (T, T),
    means: Seq<T>,
    details: Seq<T>,
    out: Seq<T>,
)
    requires
        is_merged(g, means, details, out),
        computes(g, op),
    ensures
        out == merged(op, means, details),
{
    assert forall|n: int| 0 <= n < out.len() implies out[n] == merged(op, means, details)[n] by {
        let k = n / 2;
        assert(merged_pair(g, means, details, k, out[2 * k], out[2 * k + 1]));
    }
    assert(out =~= merged(op, means, details));
}

/// Merging two blocks, each on its own, merges the two taken together.
proof fn lemma_is_merged_blocks<T, G: Fn(T, T) -> (T, T)>(
    g: G,
    m1: Seq<T>,
    d1: Seq<T>,
    o1: Seq<T>,
    m2: Seq<T>,
    d2: Seq<T>,
    o2: Seq<T>,
)
    requires
        is_merged(g, m1, d1, o1),
        is_merged(g, m2, d2, o2),
    ensures
        is_merged(g, m1 + m2, d1 + d2, o1 + o2),
{
    let m = m1 + m2;
    let d = d1 + d2;
    let o = o1 + o2;
    assert forall|k: int| 0 <= k < m.len() implies #[trigger] merged_pair(
        g,
        m,
        d,
        k,
        o[2 * k],
        o[2 * k + 1],
    ) by {
        if k < m1.len() {
            assert(merged_pair(g, m1, d1, k, o1[2 * k], o1[2 * k + 1]));
        } else {
            let j = k - m1.len();
            assert(merged_pair(g, m2, d2, j, o2[2 * j], o2[2 * j + 1]));
        }
    }
}

/// Perform the Haar wavelet transform of data whose length is a power of two,
/// into a new vector; the data is left as it is.
///
/// Each level takes the pairs of the means of the level before to a mean and a
/// detail term. The means go on to the next level; the detail terms are
/// written straight to their final place, the band behind the means.
///
/// Empty data gives an empty transform. A length that is neither 0 nor a
/// power of two is refused.
pub fn dwt<T: Copy, F: Fn(T, T) -> (T, T)>(data: &[T], split: &F) -> (r: Result<
    Vec<T>,
    InvalidLength,
>)
    requires
        accepts_all(*split),
    ensures
        match r {
            Ok(v) => {
                &&& is_signal_len(data@.len())
                &&& v@.len() == data@.len()
                &&& forall|op: spec_fn(T, T) -> (T, T)| #[trigger]
                    computes(*split, op) ==> v@ == forward(op, data@)
            },
            Err(e) => {
                &&& !is_signal_len(data@.len())
                &&& e.len == data@.len()
            },
        },
{
    let n: usize = data.len();
    if n == 0 {
        let nothing: Vec<T> = Vec::new();
        proof {
            assert forall|op: spec_fn(T, T) -> (T, T)| #[trigger]
                computes(*split, op) implies nothing@ == forward(op, data@) by {
                assert(nothing@ =~= forward(op, data@));
            }
        }
        return Ok(nothing);
    }
    if !power_of_two(n) {
        return Err(InvalidLength { len: n });
    }
    let mut diffs: Vec<T> = vstd::slice::slice_to_vec(data);
    let mut src: Vec<T> = vstd::slice::slice_to_vec(data);
    let mut width: usize = n;
    proof {
        assert(src@.subrange(0, n as int) =~= data@);
        assert forall|op: spec_fn(T, T) -> (T, T)| #[trigger]
            computes(*split, op) implies forward(op, data@) == forward(
            op,
            src@.subrange(0, width as int),
        ) + diffs@.subrange(width as int, n as int) by {
            assert(forward(op, data@) + diffs@.subrange(n as int, n as int) =~= forward(op, data@));
        }
    }
    while width > 1
        invariant
            accepts_all(*split),
            is_power_of_two(width as nat),
            width <= n,
            n == data@.len(),
            src@.len() == n,
            diffs@.len() == n,
            forall|op: spec_fn(T, T) -> (T, T)| #[trigger]
                computes(*split, op) ==> forward(op, data@) == forward(
                    op,
                    src@.subrange(0, width as int),
                ) + diffs@.subrange(width as int, n as int),
        decreases width,
    {
        let split_at: usize = width / 2;
        let ghost prefix = src@.subrange(0, width as int);
        let ghost tail = diffs@.subrange(width as int, n as int);
        let mut k: usize = 0;
        while k < split_at
            invariant
                accepts_all(*split),
                width == 2 * split_at,
                width <= n,
                k <= split_at,
                src@.len() == n,
                diffs@.len() == n,
                prefix.len() == width,
                forall|i: int| 2 * k <= i < width ==> src@[i] == prefix[i],
                forall|i: int|
                    0 <= i < k ==> #[trigger] split_pair(
                        *split,
                        prefix,
                        i,
                        src@[i],
                        diffs@[split_at + i],
                    ),
                diffs@.subrange(width as int, n as int) == tail,
            decreases split_at - k,
        {
            let ghost kept_src = src@;
            let ghost kept_diffs = diffs@;
            let (a, d) = split(src[2 * k], src[2 * k + 1]);
            src[k] = a;
            diffs[k + split_at] = d;
            proof {
                assert(diffs@.subrange(width as int, n as int) =~= kept_diffs.subrange(
                    width as int,
                    n as int,
                ));
                assert forall|i: int| 0 <= i < k + 1 implies #[trigger] split_pair(
                    *split,
                    prefix,
                    i,
                    src@[i],
                    diffs@[split_at + i],
                ) by {
                    if i < k {
                        assert(split_pair(*split, prefix, i, kept_src[i], kept_diffs[split_at + i]));
                    }
                }
            }
            k += 1;
        }
        proof {
            let lvl = src@.subrange(0, split_at as int) + diffs@.subrange(
                split_at as int,
                width as int,
            );
            assert(is_power_of_two(split_at as nat));
            assert forall|i: int| 0 <= i < split_at implies #[trigger] split_pair(
                *split,
                prefix,
                i,
                lvl[i],
                lvl[prefix.len() / 2 + i],
            ) by {
                assert(split_pair(*split, prefix, i, src@[i], diffs@[split_at + i]));
            }
            assert(is_level(*split, prefix, lvl));
            assert(src@.subrange(0, split_at as int) =~= front_half(lvl));
            assert(diffs@.subrange(split_at as int, n as int) =~= back_half(lvl) + tail);
            assert forall|op: spec_fn(T, T) -> (T, T)| #[trigger]
                computes(*split, op) implies forward(op, data@) == forward(
                op,
                src@.subrange(0, split_at as int),
            ) + diffs@.subrange(split_at as int, n as int) by {
                lemma_is_level(*split, op, prefix, lvl);
                assert(forward(op, prefix) == forward(op, front_half(lvl)) + back_half(lvl));
                assert((forward(op, front_half(lvl)) + back_half(lvl)) + tail =~= forward(
                    op,
                    front_half(lvl),
                ) + (back_half(lvl) + tail));
            }
        }
        width = split_at;
    }
    let ghost rest = diffs@;
    diffs[0] = src[0];
    proof {
        assert forall|op: spec_fn(T, T) -> (T, T)| #[trigger]
            computes(*split, op) implies diffs@ == forward(op, data@) by {
            assert(forward(op, src@.subrange(0, 1)) =~= seq![src@[0]]);
            assert(diffs@ =~= seq![src@[0]] + rest.subrange(1, n as int));
        }
    }
    Ok(diffs)
}

/// Perform the Haar wavelet transform in place: on success the slice holds the
/// transform, and the data is lost.
///
/// Each level does two steps on the leading block that holds the means of the
/// level before: a pass of sums and differences, which leaves the mean of each
/// pair at the even index and its detail term at the odd one, and a
/// permutation, which places the means in the front half of the block and the
/// detail terms in its back half. No second buffer is used.
///
/// A length that is neither 0 nor a power of two is refused before anything
/// is written.
pub fn dwt_in_place<T: Copy + Default, F: Fn(T, T) -> (T, T)>(data: &mut [T], split: &F) -> (r:
    Result<(), InvalidLength>)
    requires
        accepts_all(*split),
    ensures
        match r {
            Ok(_) => {
                &&& is_signal_len(old(data)@.len())
                &&& final(data)@.len() == old(data)@.len()
                &&& forall|op: spec_fn(T, T) -> (T, T)| #[trigger]
                    computes(*split, op) ==> final(data)@ == forward(op, old(data)@)
            },
            Err(e) => {
                &&& !is_signal_len(old(data)@.len())
                &&& e.len == old(data)@.len()
                &&& final(data)@ == old(data)@
            },
        },
{
    let n: usize = data.len();
    if n == 0 {
        proof {
            assert forall|op: spec_fn(T, T) -> (T, T)| #[trigger]
                computes(*split, op) implies data@ == forward(op, old(data)@) by {
                assert(data@ =~= forward(op, old(data)@));
            }
        }
        return Ok(());
    }
    if !power_of_two(n) {
        return Err(InvalidLength { len: n });
    }
    let mut len: usize = n;
    proof {
        assert(data@.subrange(0, n as int) =~= data@);
        assert forall|op: spec_fn(T, T) -> (T, T)| #[trigger]
            computes(*split, op) implies forward(op, old(data)@) == forward(
            op,
            data@.subrange(0, len as int),
        ) + data@.subrange(len as int, n as int) by {
            assert(forward(op, data@) + data@.subrange(n as int, n as int) =~= forward(op, data@));
        }
    }
    while len > 1
        invariant
            accepts_all(*split),
            is_power_of_two(len as nat),
            len <= n,
            data@.len() == n,
            old(data)@.len() == n,
            forall|op: spec_fn(T, T) -> (T, T)| #[trigger]
                computes(*split, op) ==> forward(op, old(data)@) == forward(
                    op,
                    data@.subrange(0, len as int),
                ) + data@.subrange(len as int, n as int),
        decreases len,
    {
        let ghost prefix = data@.subrange(0, len as int);
        let ghost tail = data@.subrange(len as int, n as int);
        let mut pos: usize = 0;
        while pos < len
            invariant
                accepts_all(*split),
                len % 2 == 0,
                pos % 2 == 0,
                pos <= len,
                len <= n,
                data@.len() == n,
                prefix.len() == len,
                forall|i: int| pos <= i < len ==> data@[i] == prefix[i],
                forall|i: int|
                    0 <= 2 * i < pos ==> #[trigger] split_pair(
                        *split,
                        prefix,
                        i,
                        data@[2 * i],
                        data@[2 * i + 1],
                    ),
                data@.subrange(len as int, n as int) == tail,
            decreases len - pos,
        {
            let ghost kept = data@;
            let (sum, diff) = split(data[pos], data[pos + 1]);
            data[pos] = sum;
            data[pos + 1] = diff;
            proof {
                assert(data@.subrange(len as int, n as int) =~= kept.subrange(
                    len as int,
                    n as int,
                ));
                assert forall|i: int| 0 <= 2 * i < pos + 2 implies #[trigger] split_pair(
                    *split,
                    prefix,
                    i,
                    data@[2 * i],
                    data@[2 * i + 1],
                ) by {
                    if 2 * i < pos {
                        assert(split_pair(*split, prefix, i, kept[2 * i], kept[2 * i + 1]));
                    }
                }
            }
            pos += 2;
        }
        let ghost passed = data@.subrange(0, len as int);
        proof {
            assert forall|i: int| 0 <= i < prefix.len() / 2 implies #[trigger] split_pair(
                *split,
                prefix,
                i,
                passed[2 * i],
                passed[2 * i + 1],
            ) by {
                assert(split_pair(*split, prefix, i, data@[2 * i], data@[2 * i + 1]));
            }
            assert(is_swept(*split, prefix, passed));
        }
        let (block, _) = data.split_at_mut(len);
        partition_evens(block);
        proof {
            let lvl = evens_first(passed);
            let half = (len / 2) as int;
            lemma_is_swept(*split, prefix, passed);
            assert(is_power_of_two((len / 2) as nat));
            assert(data@ =~= lvl + tail);
            assert(data@.subrange(0, half) =~= front_half(lvl));
            assert(data@.subrange(half, n as int) =~= back_half(lvl) + tail);
            assert forall|op: spec_fn(T, T) -> (T, T)| #[trigger]
                computes(*split, op) implies forward(op, old(data)@) == forward(
                op,
                data@.subrange(0, half),
            ) + data@.subrange(half, n as int) by {
                lemma_is_level(*split, op, prefix, lvl);
                assert(forward(op, prefix) == forward(op, front_half(lvl)) + back_half(lvl));
                assert((forward(op, front_half(lvl)) + back_half(lvl)) + tail =~= forward(
                    op,
                    front_half(lvl),
                ) + (back_half(lvl) + tail));
            }
        }
        len = len / 2;
    }
    proof {
        assert forall|op: spec_fn(T, T) -> (T, T)| #[trigger]
            computes(*split, op) implies data@ == forward(op, old(data)@) by {
            assert(forward(op, data@.subrange(0, 1)) =~= data@.subrange(0, 1));
            assert(data@ =~= data@.subrange(0, 1) + data@.subrange(1, n as int));
        }
    }
    Ok(())
}

/// Perform the inverse Haar transform of a transform whose length is a power
/// of two, into a new vector; the transform is left as it is.
///
/// The signal is rebuilt level by level, from the coarsest mean on: the means
/// recovered so far are merged with the detail terms of the next band, the
/// mean at `k` and its detail term giving the elements at `2k` and `2k + 1`.
///
/// An empty transform gives an empty signal. A length that is neither 0 nor a
/// power of two is refused.
pub fn inverse_dwt<T: Copy, G: Fn(T, T) -> (T, T)>(wavelet: &[T], merge: &G) -> (r: Result<
    Vec<T>,
    InvalidLength,
>)
    requires
        accepts_all(*merge),
    ensures
        match r {
            Ok(v) => {
                &&& is_signal_len(wavelet@.len())
                &&& v@.len() == wavelet@.len()
                &&& forall|op: spec_fn(T, T) -> (T, T)| #[trigger]
                    computes(*merge, op) ==> v@ == inverse(op, wavelet@)
            },
            Err(e) => {
                &&& !is_signal_len(wavelet@.len())
                &&& e.len == wavelet@.len()
            },
        },
{
    let n: usize = wavelet.len();
    if n == 0 {
        let nothing: Vec<T> = Vec::new();
        proof {
            assert forall|op: spec_fn(T, T) -> (T, T)| #[trigger]
                computes(*merge, op) implies nothing@ == inverse(op, wavelet@) by {
                assert(nothing@ =~= inverse(op, wavelet@));
            }
        }
        return Ok(nothing);
    }
    if !power_of_two(n) {
        return Err(InvalidLength { len: n });
    }
    let mut transformed: Vec<T> = Vec::new();
    transformed.push(wavelet[0]);
    let mut last_level: usize = 1;
    proof {
        assert forall|op: spec_fn(T, T) -> (T, T)| #[trigger]
            computes(*merge, op) implies transformed@ == inverse(
            op,
            wavelet@.subrange(0, last_level as int),
        ) by {
            assert(transformed@ =~= inverse(op, wavelet@.subrange(0, 1)));
        }
    }
    while last_level < n
        invariant
            accepts_all(*merge),
            is_power_of_two(n as nat),
            is_power_of_two(last_level as nat),
            last_level <= n,
            n == wavelet@.len(),
            transformed@.len() == last_level,
            forall|op: spec_fn(T, T) -> (T, T)| #[trigger]
                computes(*merge, op) ==> transformed@ == inverse(
                    op,
                    wavelet@.subrange(0, last_level as int),
                ),
        decreases n - last_level,
    {
        proof {
            lemma_power_of_two_gap(last_level as nat, n as nat);
        }
        let max_n: usize = 2 * last_level;
        let ghost band = wavelet@.subrange(last_level as int, max_n as int);
        let mut step: Vec<T> = Vec::with_capacity(max_n);
        let mut k: usize = 0;
        while k < last_level
            invariant
                accepts_all(*merge),
                k <= last_level,
                max_n == 2 * last_level,
                max_n <= n,
                n == wavelet@.len(),
                transformed@.len() == last_level,
                band == wavelet@.subrange(last_level as int, max_n as int),
                step@.len() == 2 * k,
                forall|i: int|
                    0 <= i < k ==> #[trigger] merged_pair(
                        *merge,
                        transformed@,
                        band,
                        i,
                        step@[2 * i],
                        step@[2 * i + 1],
                    ),
            decreases last_level - k,
        {
            let ghost kept = step@;
            let (even, odd) = merge(transformed[k], wavelet[last_level + k]);
            step.push(even);
            step.push(odd);
            proof {
                assert forall|i: int| 0 <= i < k + 1 implies #[trigger] merged_pair(
                    *merge,
                    transformed@,
                    band,
                    i,
                    step@[2 * i],
                    step@[2 * i + 1],
                ) by {
                    if i < k {
                        assert(merged_pair(
                            *merge,
                            transformed@,
                            band,
                            i,
                            kept[2 * i],
                            kept[2 * i + 1],
                        ));
                    }
                }
            }
            k += 1;
        }
        proof {
            let lead = wavelet@.subrange(0, max_n as int);
            assert(front_half(lead) =~= wavelet@.subrange(0, last_level as int));
            assert(back_half(lead) =~= band);
            assert(is_merged(*merge, transformed@, band, step@));
            assert forall|op: spec_fn(T, T) -> (T, T)| #[trigger]
                computes(*merge, op) implies step@ == inverse(op, lead) by {
                lemma_is_merged(*merge, op, transformed@, band, step@);
            }
        }
        transformed = step;
        last_level = max_n;
    }
    proof {
        assert(wavelet@.subrange(0, n as int) =~= wavelet@);
    }
    Ok(transformed)
}

/// The merge of a block of two: one mean and its detail term.
proof fn lemma_merged_two<T, G: Fn(T, T) -> (T, T)>(g: G, was: Seq<T>, now: Seq<T>)
    requires
        was.len() == 2,
        now.len() == 2,
        g.ensures((was[0], was[1]), (now[0], now[1])),
    ensures
        is_merged(g, front_half(was), back_half(was), now),
{
    assert forall|k: int| 0 <= k < 1 implies #[trigger] merged_pair(
        g,
        front_half(was),
        back_half(was),
        k,
        now[2 * k],
        now[2 * k + 1],
    ) by {}
}

/// The merge of a block of four: two means, then their detail terms.
proof fn lemma_merged_four<T, G: Fn(T, T) -> (T, T)>(g: G, was: Seq<T>, now: Seq<T>)
    requires
        was.len() == 4,
        now.len() == 4,
        g.ensures((was[0], was[2]), (now[0], now[1])),
        g.ensures((was[1], was[3]), (now[2], now[3])),
    ensures
        is_merged(g, front_half(was), back_half(was), now),
{
    assert forall|k: int| 0 <= k < 2 implies #[trigger] merged_pair(
        g,
        front_half(was),
        back_half(was),
        k,
        now[2 * k],
        now[2 * k + 1],
    ) by {}
}

/// Once the two middle quarters of a block have changed places, its left half
/// holds the first half of the means with their detail terms, and its right
/// half the second half of the means with theirs.
proof fn lemma_quarters_turned<T>(was: Seq<T>, turned: Seq<T>, q: int)
    requires
        q >= 1,
        was.len() == 4 * q,
        turned == was.subrange(0, q) + was.subrange(2 * q, 3 * q) + was.subrange(q, 2 * q)
            + was.subrange(3 * q, 4 * q),
    ensures
        turned.len() == 4 * q,
        front_half(front_half(turned)) + front_half(back_half(turned)) == front_half(was),
        back_half(front_half(turned)) + back_half(back_half(turned)) == back_half(was),
{
    assert(front_half(front_half(turned)) + front_half(back_half(turned)) =~= front_half(was));
    assert(back_half(front_half(turned)) + back_half(back_half(turned)) =~= back_half(was));
}

/// `<[T]>::rotate_right` of the standard library: the last `k` elements of the
/// slice move to its front and the elements before them move to its end, each
/// group in its order. The call panics where `k` is greater than the length,
/// which the precondition rules out.
pub assume_specification<Item>[ <[Item]>::rotate_right ](slice: &mut [Item], k: usize)
    requires
        k <= old(slice)@.len(),
    ensures
        final(slice)@ == old(slice)@.subrange(old(slice)@.len() - k, old(slice)@.len() as int)
            + old(slice)@.subrange(0, old(slice)@.len() - k),
;

/// Merges the means in the front half of the block with the detail terms in
/// its back half, in place: the block is split into quarters, the two middle
/// quarters change places so that each run of means stands before its own
/// detail terms, and the two halves are merged on their own.
#[verifier::spinoff_prover]
fn recurse_haar<T: Copy, G: Fn(T, T) -> (T, T)>(f: &mut [T], merge: &G)
    requires
        accepts_all(*merge),
        is_power_of_two(old(f)@.len()),
        old(f)@.len() >= 2,
    ensures
        is_merged(*merge, front_half(old(f)@), back_half(old(f)@), final(f)@),
    decreases old(f)@.len(),
{
    let len: usize = f.len();
    let ghost was = f@;
    if len == 2 {
        let (x, y) = merge(f[0], f[1]);
        f[0] = x;
        f[1] = y;
        proof {
            lemma_merged_two(*merge, was, f@);
        }
    } else if len == 4 {
        let (x1, y1) = merge(f[0], f[2]);
        let (x2, y2) = merge(f[1], f[3]);
        f[0] = x1;
        f[1] = y1;
        f[2] = x2;
        f[3] = y2;
        proof {
            lemma_merged_four(*merge, was, f@);
        }
    } else {
        let mid: usize = len / 2;
        let q1: usize = mid / 2;
        let q3: usize = mid + q1;
        proof {
            assert(is_power_of_two(mid as nat));
            assert(is_power_of_two(q1 as nat));
        }
        let (front, _) = f.split_at_mut(q3);
        let (_, middle) = front.split_at_mut(q1);
        middle.rotate_right(mid - q1);
        let ghost turned = f@;
        proof {
            assert(turned =~= was.subrange(0, q1 as int) + was.subrange(mid as int, q3 as int)
                + was.subrange(q1 as int, mid as int) + was.subrange(q3 as int, len as int));
            lemma_quarters_turned(was, turned, q1 as int);
        }
        let (left, right) = f.split_at_mut(mid);
        let ghost before_left = left@;
        let ghost before_right = right@;
        recurse_haar(left, merge);
        recurse_haar(right, merge);
        proof {
            lemma_is_merged_blocks(
                *merge,
                front_half(before_left),
                back_half(before_left),
                f@.subrange(0, mid as int),
                front_half(before_right),
                back_half(before_right),
                f@.subrange(mid as int, len as int),
            );
            assert(f@ =~= f@.subrange(0, mid as int) + f@.subrange(mid as int, len as int));
        }
    }
}

/// Perform the inverse Haar transform in place: on success the slice holds the
/// signal that the transform stood for, and the transform is lost.
///
/// The levels are undone from the coarsest to the finest. At each level the
/// leading block, twice as long as the one before, holds the means recovered
/// so far followed by their detail terms, and is merged in place without a
/// second buffer.
///
/// A length that is neither 0 nor a power of two is refused before anything
/// is written.
pub fn inverse_dwt_in_place<T: Copy, G: Fn(T, T) -> (T, T)>(data: &mut [T], merge: &G) -> (r:
    Result<(), InvalidLength>)
    requires
        accepts_all(*merge),
    ensures
        match r {
            Ok(_) => {
                &&& is_signal_len(old(data)@.len())
                &&& final(data)@.len() == old(data)@.len()
                &&& forall|op: spec_fn(T, T) -> (T, T)| #[trigger]
                    computes(*merge, op) ==> final(data)@ == inverse(op, old(data)@)
            },
            Err(e) => {
                &&& !is_signal_len(old(data)@.len())
                &&& e.len == old(data)@.len()
                &&& final(data)@ == old(data)@
            },
        },
{
    let n: usize = data.len();
    if n == 0 {
        proof {
            assert forall|op: spec_fn(T, T) -> (T, T)| #[trigger]
                computes(*merge, op) implies data@ == inverse(op, old(data)@) by {
                assert(data@ =~= inverse(op, old(data)@));
            }
        }
        return Ok(());
    }
    if !power_of_two(n) {
        return Err(InvalidLength { len: n });
    }
    let mut size: usize = 1;
    proof {
        assert forall|op: spec_fn(T, T) -> (T, T)| #[trigger]
            computes(*merge, op) implies data@.subrange(0, size as int) == inverse(
            op,
            old(data)@.subrange(0, size as int),
        ) by {
            assert(data@.subrange(0, 1) =~= inverse(op, old(data)@.subrange(0, 1)));
        }
    }
    while size < n
        invariant
            accepts_all(*merge),
            is_power_of_two(n as nat),
            is_power_of_two(size as nat),
            size <= n,
            data@.len() == n,
            old(data)@.len() == n,
            forall|op: spec_fn(T, T) -> (T, T)| #[trigger]
                computes(*merge, op) ==> data@.subrange(0, size as int) == inverse(
                    op,
                    old(data)@.subrange(0, size as int),
                ),
            data@.subrange(size as int, n as int) == old(data)@.subrange(size as int, n as int),
        decreases n - size,
    {
        let ghost before = data@;
        let ghost small = size as int;
        proof {
            lemma_power_of_two_gap(size as nat, n as nat);
        }
        size = 2 * size;
        let (block, _) = data.split_at_mut(size);
        recurse_haar(block, merge);
        proof {
            let wide = size as int;
            let target = old(data)@.subrange(0, wide);
            let lead = before.subrange(0, wide);
            assert(front_half(lead) =~= before.subrange(0, small));
            assert(front_half(target) =~= old(data)@.subrange(0, small));
            assert(back_half(lead) =~= before.subrange(small, n as int).subrange(0, small));
            assert(back_half(target) =~= old(data)@.subrange(small, n as int).subrange(0, small));
            assert(data@.subrange(0, wide) =~= block@);
            assert forall|op: spec_fn(T, T) -> (T, T)| #[trigger]
                computes(*merge, op) implies data@.subrange(0, wide) == inverse(op, target) by {
                lemma_is_merged(
                    *merge,
                    op,
                    front_half(lead),
                    back_half(lead),
                    data@.subrange(0, wide),
                );
            }
            assert(data@.subrange(wide, n as int) =~= before.subrange(small, n as int).subrange(
                small,
                n - small,
            ));
            assert(old(data)@.subrange(wide, n as int) =~= old(data)@.subrange(
                small,
                n as int,
            ).subrange(small, n - small));
        }
    }
    proof {
        assert(data@ =~= data@.subrange(0, n as int));
        assert(old(data)@ =~= old(data)@.subrange(0, n as int));
    }
    Ok(())
}

/// One pass of sums and differences over data of even length, into a new
/// vector: means in the front half, detail terms in the back half.
fn level_decomp<T: Copy, F: Fn(T, T) -> (T, T)>(data: &[T], split: &F) -> (r: Vec<T>)
    requires
        accepts_all(*split),
        data@.len() % 2 == 0,
    ensures
        is_level(*split, data@, r@),
{
    let n: usize = data.len();
    let half: usize = n / 2;
    let mut decomp: Vec<T> = vstd::slice::slice_to_vec(data);
    let mut k: usize = 0;
    while k < half
        invariant
            accepts_all(*split),
            n == data@.len(),
            n == 2 * half,
            k <= half,
            decomp@.len() == n,
            forall|i: int|
                0 <= i < k ==> #[trigger] split_pair(
                    *split,
                    data@,
                    i,
                    decomp@[i],
                    decomp@[half + i],
                ),
        decreases half - k,
    {
        let ghost kept = decomp@;
        let (a, d) = split(data[2 * k], data[2 * k + 1]);
        decomp[k] = a;
        decomp[half + k] = d;
        proof {
            assert forall|i: int| 0 <= i < k + 1 implies #[trigger] split_pair(
                *split,
                data@,
                i,
                decomp@[i],
                decomp@[half + i],
            ) by {
                if i < k {
                    assert(split_pair(*split, data@, i, kept[i], kept[half + i]));
                }
            }
        }
        k += 1;
    }
    decomp
}

/// Compute the multi-resolution decomposition of data whose length is a power
/// of two.
///
/// The result holds one entry for each level, the finest first. The first is
/// the pointwise decomposition of the data into sums and differences; each
/// further one decomposes the means of the one before, so that level `j` has
/// `n / 2^j` elements and the last has two. No level is discarded.
///
/// Empty data gives no level. A length that is neither 0 nor a power of two
/// is refused.
pub fn decompose_multiresolution<T: Copy, F: Fn(T, T) -> (T, T)>(data: &[T], split: &F) -> (r:
    Result<Vec<Vec<T>>, InvalidLength>)
    requires
        accepts_all(*split),
    ensures
        match r {
            Ok(v) => {
                &&& is_signal_len(data@.len())
                &&& v@.len() == levels(data@.len())
                &&& forall|op: spec_fn(T, T) -> (T, T)| #[trigger]
                    computes(*split, op) ==> levels_of(v@) == pyramid(op, data@)
            },
            Err(e) => {
                &&& !is_signal_len(data@.len())
                &&& e.len == data@.len()
            },
        },
{
    let n: usize = data.len();
    let mut full_decomp: Vec<Vec<T>> = Vec::new();
    if n == 0 {
        proof {
            assert forall|op: spec_fn(T, T) -> (T, T)| #[trigger]
                computes(*split, op) implies levels_of(full_decomp@) == pyramid(op, data@) by {
                assert(levels_of(full_decomp@) =~= pyramid(op, data@));
            }
        }
        return Ok(full_decomp);
    }
    if !power_of_two(n) {
        return Err(InvalidLength { len: n });
    }
    if n == 1 {
        proof {
            assert forall|op: spec_fn(T, T) -> (T, T)| #[trigger]
                computes(*split, op) implies levels_of(full_decomp@) == pyramid(op, data@) by {
                assert(levels_of(full_decomp@) =~= pyramid(op, data@));
            }
        }
        return Ok(full_decomp);
    }
    let first: Vec<T> = level_decomp(data, split);
    full_decomp.push(first);
    let mut width: usize = n;
    proof {
        assert forall|op: spec_fn(T, T) -> (T, T)| #[trigger]
            computes(*split, op) implies pyramid(op, data@) == levels_of(full_decomp@) + pyramid(
            op,
            front_half(full_decomp@[full_decomp@.len() - 1]@),
        ) by {
            lemma_is_level(*split, op, data@, first@);
            assert(levels_of(full_decomp@) =~= seq![level(op, data@)]);
        }
    }
    while width > 2
        invariant
            accepts_all(*split),
            is_power_of_two(width as nat),
            width >= 2,
            full_decomp@.len() >= 1,
            full_decomp@[full_decomp@.len() - 1]@.len() == width,
            full_decomp@.len() + levels(width as nat) == 1 + levels(n as nat),
            n == data@.len(),
            forall|op: spec_fn(T, T) -> (T, T)| #[trigger]
                computes(*split, op) ==> pyramid(op, data@) == levels_of(full_decomp@) + pyramid(
                    op,
                    front_half(full_decomp@[full_decomp@.len() - 1]@),
                ),
        decreases width,
    {
        let ghost so_far = levels_of(full_decomp@);
        let last_decomp: &Vec<T> = &full_decomp[full_decomp.len() - 1];
        let ghost means = front_half(last_decomp@);
        proof {
            assert(is_power_of_two((width / 2) as nat));
        }
        let next_decomp: Vec<T> = level_decomp(
            vstd::slice::slice_subrange(last_decomp.as_slice(), 0, width / 2),
            split,
        );
        let ghost next = next_decomp@;
        full_decomp.push(next_decomp);
        width = width / 2;
        proof {
            assert(levels_of(full_decomp@) =~= so_far + seq![next]);
            assert forall|op: spec_fn(T, T) -> (T, T)| #[trigger]
                computes(*split, op) implies pyramid(op, data@) == levels_of(full_decomp@)
                + pyramid(op, front_half(next)) by {
                let below = pyramid(op, front_half(next));
                lemma_is_level(*split, op, means, next);
                assert(pyramid(op, means) == seq![next] + below);
                assert(so_far + (seq![next] + below) =~= (so_far + seq![next]) + below);
            }
        }
    }
    proof {
        let tail = front_half(full_decomp@[full_decomp@.len() - 1]@);
        assert forall|op: spec_fn(T, T) -> (T, T)| #[trigger]
            computes(*split, op) implies levels_of(full_decomp@) == pyramid(op, data@) by {
            assert(pyramid(op, tail) =~= Seq::<Seq<T>>::empty());
            assert(levels_of(full_decomp@) + Seq::<Seq<T>>::empty() =~= levels_of(full_decomp@));
        }
        reveal_with_fuel(levels, 3);
    }
    Ok(full_decomp)
}

/// The Haar wavelet transform of a signal: the coarsest mean at index 0, then
/// the detail terms of each level in a band of their own, the finest level in
/// the back half. Its length is a power of two, or 0 once it has been
/// inverted in place.
#[derive(Debug)]
pub struct HaarWavelet<T> {
    transform: Vec<T>,
}

impl<T> HaarWavelet<T> {
    /// The coefficients of the transform.
    pub closed spec fn view(&self) -> Seq<T> {
        self.transform@
    }

    /// The length is one that the transforms accept.
    #[verifier::type_invariant]
    spec fn well_formed(&self) -> bool {
        is_signal_len(self.transform@.len())
    }
}

impl<T: Copy> HaarWavelet<T> {
    /// Perform the transform on a copy of the data, which is left as it is.
    /// Data whose length is not a power of two is extended to the next one
    /// with copies of `fill` first.
    pub fn transform<F: Fn(T, T) -> (T, T)>(data: &[T], fill: T, split: &F) -> (w: Self)
        requires
            accepts_all(*split),
            next_power_of_two(data@.len()) <= usize::MAX,
        ensures
            w@.len() == next_power_of_two(data@.len()),
            forall|op: spec_fn(T, T) -> (T, T)| #[trigger]
                computes(*split, op) ==> w@ == forward(op, padded(data@, fill)),
    {
        let floats: Vec<T> = pad(data, fill);
        proof {
            if data@.len() >= 1 {
                lemma_next_power_of_two(data@.len());
            }
        }
        match dwt(floats.as_slice(), split) {
            Ok(transform) => HaarWavelet { transform },
            Err(_) => HaarWavelet { transform: Vec::new() },
        }
    }

    /// Perform the transform on the data in place; the transform keeps the
    /// memory that the data came in. A length that is neither 0 nor a power
    /// of two is refused.
    pub fn transform_in_place<F: Fn(T, T) -> (T, T)>(data: Vec<T>, split: &F) -> (r: Result<
        Self,
        InvalidLength,
    >) where T: Default
        requires
            accepts_all(*split),
        ensures
            match r {
                Ok(w) => {
                    &&& is_signal_len(data@.len())
                    &&& w@.len() == data@.len()
                    &&& forall|op: spec_fn(T, T) -> (T, T)| #[trigger]
                        computes(*split, op) ==> w@ == forward(op, data@)
                },
                Err(e) => {
                    &&& !is_signal_len(data@.len())
                    &&& e.len == data@.len()
                },
            },
    {
        let mut data = data;
        match dwt_in_place(data.as_mut_slice(), split) {
            Ok(_) => Ok(HaarWavelet { transform: data }),
            Err(e) => Err(e),
        }
    }

    /// Invert the transform on a copy, which leaves this transform as it is.
    pub fn invert<G: Fn(T, T) -> (T, T)>(&self, merge: &G) -> (r: Vec<T>)
        requires
            accepts_all(*merge),
        ensures
            r@.len() == self@.len(),
            forall|op: spec_fn(T, T) -> (T, T)| #[trigger]
                computes(*merge, op) ==> r@ == inverse(op, self@),
    {
        proof {
            use_type_invariant(self);
        }
        match inverse_dwt(self.transform.as_slice(), merge) {
            Ok(signal) => signal,
            Err(_) => Vec::new(),
        }
    }

    /// Invert the transform in place. The memory of the transform is moved
    /// into the result, and this transform is left empty.
    pub fn invert_in_place<G: Fn(T, T) -> (T, T)>(&mut self, merge: &G) -> (r: Vec<T>)
        requires
            accepts_all(*merge),
        ensures
            r@.len() == old(self)@.len(),
            forall|op: spec_fn(T, T) -> (T, T)| #[trigger]
                computes(*merge, op) ==> r@ == inverse(op, old(self)@),
            final(self)@ == Seq::<T>::empty(),
    {
        proof {
            use_type_invariant(&*self);
        }
        let mut signal: Vec<T> = Vec::new();
        core::mem::swap(&mut self.transform, &mut signal);
        let _ = inverse_dwt_in_place(signal.as_mut_slice(), merge);
        signal
    }

    /// The coefficients of the transform.
    pub fn coefficients(&self) -> (r: &[T])
        ensures
            r@ == self@,
            is_signal_len(r@.len()),
    {
        proof {
            use_type_invariant(self);
        }
        self.transform.as_slice()
    }
}

} // verus!
