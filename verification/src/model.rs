//! What the Haar transforms compute, as functions on sequences, and what holds
//! of them.
//!
//! The arithmetic enters as one function on pairs for each direction: a *split*
//! takes two neighbours to their mean and their detail term, a *merge* takes a
//! mean and its detail term to two neighbours. For the orthonormal Haar basis
//! over the reals these are `((a + b) / √2, (a - b) / √2)` and
//! `((a + w) / √2, (a - w) / √2)`. Nothing here depends on which functions
//! they are.
use crate::arrays::evens_first;
use crate::sizes::{is_power_of_two, is_signal_len, levels};
use vstd::prelude::*;

verus! {

/// The first half of a sequence: in a transform, and in one level of it, the
/// means.
pub open spec fn front_half<T>(s: Seq<T>) -> Seq<T> {
    s.subrange(0, (s.len() / 2) as int)
}

/// The second half of a sequence: in a transform, and in one level of it, the
/// detail terms.
pub open spec fn back_half<T>(s: Seq<T>) -> Seq<T> {
    s.subrange((s.len() / 2) as int, s.len() as int)
}

/// One pass of splitting over a sequence of even length: the front half holds
/// the means of the neighbouring pairs, the back half their detail terms.
pub open spec fn level<T>(f: spec_fn(T, T) -> (T, T), s: Seq<T>) -> Seq<T> {
    let half = (s.len() / 2) as int;
    Seq::new(
        s.len(),
        |i: int|
            if i < half {
                f(s[2 * i], s[2 * i + 1]).0
            } else {
                f(s[2 * (i - half)], s[2 * (i - half) + 1]).1
            },
    )
}

/// The transform of a signal of power-of-two length: the transform of the
/// means of its first level, followed by the detail terms of that level. The
/// coarsest mean stands at index 0, and the detail terms of each level fill
/// the band `[2^(j-1), 2^j)`, the finest level in the back half.
pub open spec fn forward<T>(f: spec_fn(T, T) -> (T, T), s: Seq<T>) -> Seq<T>
    decreases s.len(),
{
    if s.len() < 2 {
        s
    } else {
        forward(f, front_half(level(f, s))) + back_half(level(f, s))
    }
}

/// Every level of the decomposition of a signal of power-of-two length, the
/// finest first: the first level of the signal, then the levels of its means.
pub open spec fn pyramid<T>(f: spec_fn(T, T) -> (T, T), s: Seq<T>) -> Seq<Seq<T>>
    decreases s.len(),
{
    if s.len() < 2 {
        Seq::empty()
    } else {
        seq![level(f, s)] + pyramid(f, front_half(level(f, s)))
    }
}

/// Means and detail terms woven back into neighbours: the places `2k` and
/// `2k + 1` hold the merge of `means[k]` and `details[k]`.
pub open spec fn merged<T>(g: spec_fn(T, T) -> (T, T), means: Seq<T>, details: Seq<T>) -> Seq<T> {
    Seq::new(
        2 * means.len(),
        |n: int|
            if n % 2 == 0 {
                g(means[n / 2], details[n / 2]).0
            } else {
                g(means[n / 2], details[n / 2]).1
            },
    )
}

/// The signal that a transform of power-of-two length stands for: the inverse
/// of its front half, merged with its back half.
pub open spec fn inverse<T>(g: spec_fn(T, T) -> (T, T), w: Seq<T>) -> Seq<T>
    decreases w.len(),
{
    if w.len() < 2 {
        w
    } else {
        merged(g, inverse(g, front_half(w)), back_half(w))
    }
}

/// One pass of splitting that leaves each result where its pair stood: the
/// mean of the pair at `2k` and `2k + 1` at `2k`, its detail term at `2k + 1`.
pub open spec fn swept<T>(f: spec_fn(T, T) -> (T, T), s: Seq<T>) -> Seq<T> {
    Seq::new(
        s.len(),
        |i: int|
            if i % 2 == 0 {
                f(s[i], s[i + 1]).0
            } else {
                f(s[i - 1], s[i]).1
            },
    )
}

/// What the in-place cascade computes: at each level a pass that leaves its
/// results in place, the separation of even and odd indices, and the same
/// again on the front half.
pub open spec fn forward_in_place<T>(f: spec_fn(T, T) -> (T, T), s: Seq<T>) -> Seq<T>
    decreases s.len(),
{
    if s.len() < 2 {
        s
    } else {
        forward_in_place(f, front_half(evens_first(swept(f, s)))) + back_half(
            evens_first(swept(f, s)),
        )
    }
}

/// The merge `g` takes the mean and the detail term of every pair back to the
/// pair that the split `f` made them from.
pub open spec fn undoes<T>(g: spec_fn(T, T) -> (T, T), f: spec_fn(T, T) -> (T, T)) -> bool {
    forall|a: T, b: T|
        g((#[trigger] f(a, b)).0, f(a, b).1) == (a, b)
}

/// The transform of a signal is as long as the signal.
pub proof fn lemma_forward_len<T>(f: spec_fn(T, T) -> (T, T), s: Seq<T>)
    requires
        is_signal_len(s.len()),
    ensures
        forward(f, s).len() == s.len(),
    decreases s.len(),
{
    if s.len() >= 2 {
        lemma_forward_len(f, front_half(level(f, s)));
    }
}

/// The inverse of a transform is as long as the transform.
pub proof fn lemma_inverse_len<T>(g: spec_fn(T, T) -> (T, T), w: Seq<T>)
    requires
        is_signal_len(w.len()),
    ensures
        inverse(g, w).len() == w.len(),
    decreases w.len(),
{
    if w.len() >= 2 {
        lemma_inverse_len(g, front_half(w));
    }
}

/// A pass that leaves its results in place, followed by the separation of even
/// and odd indices, is one level of the transform: this is why the in-place
/// cascade fills the same bands as the copying one.
pub proof fn lemma_level_by_partition<T>(f: spec_fn(T, T) -> (T, T), s: Seq<T>)
    requires
        s.len() % 2 == 0,
    ensures
        evens_first(swept(f, s)) == level(f, s),
{
    assert(evens_first(swept(f, s)) =~= level(f, s));
}

/// The in-place cascade and the copying cascade compute the same transform,
/// element for element.
pub proof fn lemma_in_place_agrees<T>(f: spec_fn(T, T) -> (T, T), s: Seq<T>)
    requires
        is_signal_len(s.len()),
    ensures
        forward_in_place(f, s) == forward(f, s),
    decreases s.len(),
{
    if s.len() >= 2 {
        lemma_level_by_partition(f, s);
        lemma_in_place_agrees(f, front_half(level(f, s)));
    }
}

/// A signal of `2^l` elements has `l` levels. The first is the one pass over
/// the signal itself and is as long as the signal; each further one is the
/// pass over the means of the level before, half as long; the last has two
/// elements.
pub proof fn lemma_pyramid_levels<T>(f: spec_fn(T, T) -> (T, T), s: Seq<T>)
    requires
        is_power_of_two(s.len()),
    ensures
        pyramid(f, s).len() == levels(s.len()),
        s.len() >= 2 ==> pyramid(f, s)[0] == level(f, s),
        forall|j: int|
            1 <= j < pyramid(f, s).len() ==> #[trigger] pyramid(f, s)[j] == level(
                f,
                front_half(pyramid(f, s)[j - 1]),
            ),
        forall|j: int|
            1 <= j < pyramid(f, s).len() ==> 2 * (#[trigger] pyramid(f, s)[j]).len() == pyramid(
                f,
                s,
            )[j - 1].len(),
        s.len() >= 2 ==> pyramid(f, s)[pyramid(f, s).len() - 1].len() == 2,
    decreases s.len(),
{
    if s.len() >= 2 {
        let means = front_half(level(f, s));
        let rest = pyramid(f, means);
        lemma_pyramid_levels(f, means);
        assert forall|j: int| 1 <= j < pyramid(f, s).len() implies #[trigger] pyramid(f, s)[j]
            == level(f, front_half(pyramid(f, s)[j - 1])) && 2 * pyramid(f, s)[j].len() == pyramid(
            f,
            s,
        )[j - 1].len() by {
            assert(pyramid(f, s)[j] == rest[j - 1]);
            if j >= 2 {
                assert(pyramid(f, s)[j - 1] == rest[j - 2]);
            }
        }
        if s.len() >= 4 {
            assert(pyramid(f, s)[pyramid(f, s).len() - 1] == rest[rest.len() - 1]);
        }
    }
}

/// Merging the means and detail terms of one pass of splitting gives the
/// sequence back, where the merge undoes the split.
proof fn lemma_merged_of_level<T>(
    f: spec_fn(T, T) -> (T, T),
    g: spec_fn(T, T) -> (T, T),
    s: Seq<T>,
)
    requires
        s.len() % 2 == 0,
        undoes(g, f),
    ensures
        merged(g, front_half(level(f, s)), back_half(level(f, s))) == s,
{
    let lvl = level(f, s);
    let back = merged(g, front_half(lvl), back_half(lvl));
    assert(back.len() == s.len());
    assert forall|n: int| 0 <= n < s.len() implies back[n] == s[n] by {
        let k = n / 2;
        let pair = f(s[2 * k], s[2 * k + 1]);
        assert(front_half(lvl)[k] == pair.0);
        assert(back_half(lvl)[k] == pair.1);
        assert(g(pair.0, pair.1) == (s[2 * k], s[2 * k + 1]));
    }
    assert(back =~= s);
}

/// Round trip: where the merge undoes the split exactly, the inverse of the
/// transform of a signal is the signal itself. With arithmetic that rounds,
/// the two differ by what the rounding of the single operations adds up to,
/// and by nothing else.
pub proof fn lemma_inverse_of_forward<T>(
    f: spec_fn(T, T) -> (T, T),
    g: spec_fn(T, T) -> (T, T),
    s: Seq<T>,
)
    requires
        is_signal_len(s.len()),
        undoes(g, f),
    ensures
        inverse(g, forward(f, s)) == s,
    decreases s.len(),
{
    if s.len() >= 2 {
        let lvl = level(f, s);
        let t = forward(f, s);
        lemma_forward_len(f, front_half(lvl));
        lemma_inverse_of_forward(f, g, front_half(lvl));
        lemma_merged_of_level(f, g, s);
        assert(front_half(t) =~= forward(f, front_half(lvl)));
        assert(back_half(t) =~= back_half(lvl));
    }
}

/// One pass of splitting over merged means and detail terms gives them back,
/// where the split undoes the merge.
proof fn lemma_level_of_merged<T>(
    f: spec_fn(T, T) -> (T, T),
    g: spec_fn(T, T) -> (T, T),
    means: Seq<T>,
    details: Seq<T>,
)
    requires
        means.len() == details.len(),
        undoes(f, g),
    ensures
        level(f, merged(g, means, details)) == means + details,
{
    let s = merged(g, means, details);
    let lvl = level(f, s);
    let half = means.len() as int;
    assert(s.len() == 2 * half);
    assert forall|i: int| 0 <= i < 2 * half implies lvl[i] == (means + details)[i] by {
        let k = if i < half {
            i
        } else {
            i - half
        };
        let pair = g(means[k], details[k]);
        assert(s[2 * k] == pair.0);
        assert(s[2 * k + 1] == pair.1);
        assert(f(pair.0, pair.1) == (means[k], details[k]));
    }
    assert(lvl =~= means + details);
}

/// Round trip, the other way: where the split undoes the merge exactly, the
/// transform of the inverse of a transform is that transform.
pub proof fn lemma_forward_of_inverse<T>(
    f: spec_fn(T, T) -> (T, T),
    g: spec_fn(T, T) -> (T, T),
    w: Seq<T>,
)
    requires
        is_signal_len(w.len()),
        undoes(f, g),
    ensures
        forward(f, inverse(g, w)) == w,
    decreases w.len(),
{
    if w.len() >= 2 {
        let means = inverse(g, front_half(w));
        lemma_inverse_len(g, front_half(w));
        lemma_forward_of_inverse(f, g, front_half(w));
        lemma_level_of_merged(f, g, means, back_half(w));
        let lvl = means + back_half(w);
        assert(front_half(lvl) =~= means);
        assert(back_half(lvl) =~= back_half(w));
        assert(front_half(w) + back_half(w) =~= w);
    }
}

/// The sum of the weights of the elements of `s`.
pub open spec fn total<T>(weight: spec_fn(T) -> int, s: Seq<T>) -> int
    decreases s.len(),
{
    if s.len() == 0 {
        0
    } else {
        total(weight, s.drop_last()) + weight(s.last())
    }
}

/// The split takes every pair to a mean and a detail term that weigh as much,
/// taken together, as the pair does.
pub open spec fn conserves<T>(f: spec_fn(T, T) -> (T, T), weight: spec_fn(T) -> int) -> bool {
    forall|a: T, b: T|
        weight((#[trigger] f(a, b)).0) + weight(f(a, b).1) == weight(a) + weight(b)
}

/// The weight of a sequence is the weight of its parts.
pub proof fn lemma_total_of_parts<T>(weight: spec_fn(T) -> int, a: Seq<T>, b: Seq<T>)
    ensures
        total(weight, a + b) == total(weight, a) + total(weight, b),
    decreases b.len(),
{
    if b.len() == 0 {
        assert(a + b =~= a);
    } else {
        assert((a + b).drop_last() =~= a + b.drop_last());
        lemma_total_of_parts(weight, a, b.drop_last());
    }
}

/// A single element weighs what it weighs.
proof fn lemma_total_of_one<T>(weight: spec_fn(T) -> int, x: T)
    ensures
        total(weight, seq![x]) == weight(x),
{
    assert(seq![x].drop_last() =~= Seq::<T>::empty());
    assert(total(weight, seq![x].drop_last()) == 0);
}

/// One pass of a split that conserves the weight of each pair conserves the
/// weight of the sequence.
pub proof fn lemma_level_conserves<T>(
    f: spec_fn(T, T) -> (T, T),
    weight: spec_fn(T) -> int,
    s: Seq<T>,
)
    requires
        s.len() % 2 == 0,
        conserves(f, weight),
    ensures
        total(weight, level(f, s)) == total(weight, s),
    decreases s.len(),
{
    let n = s.len() as int;
    if n == 0 {
        assert(level(f, s) =~= s);
    } else {
        let rest = s.subrange(0, n - 2);
        let pair = f(s[n - 2], s[n - 1]);
        let lvl = level(f, s);
        let below = level(f, rest);
        lemma_level_conserves(f, weight, rest);
        assert(front_half(lvl) =~= front_half(below) + seq![pair.0]);
        assert(back_half(lvl) =~= back_half(below) + seq![pair.1]);
        assert(lvl =~= front_half(lvl) + back_half(lvl));
        assert(below =~= front_half(below) + back_half(below));
        lemma_total_of_parts(weight, front_half(lvl), back_half(lvl));
        lemma_total_of_parts(weight, front_half(below), back_half(below));
        lemma_total_of_parts(weight, front_half(below), seq![pair.0]);
        lemma_total_of_parts(weight, back_half(below), seq![pair.1]);
        lemma_total_of_one(weight, pair.0);
        lemma_total_of_one(weight, pair.1);
        lemma_total_of_one(weight, s[n - 2]);
        lemma_total_of_one(weight, s[n - 1]);
        assert(s =~= (rest + seq![s[n - 2]]) + seq![s[n - 1]]);
        lemma_total_of_parts(weight, rest + seq![s[n - 2]], seq![s[n - 1]]);
        lemma_total_of_parts(weight, rest, seq![s[n - 2]]);
    }
}

/// Conservation: where the split conserves the weight of each pair, the
/// transform of a signal weighs as much as the signal. Over the reals, with
/// the square as weight, this is the conservation of energy.
pub proof fn lemma_forward_conserves<T>(
    f: spec_fn(T, T) -> (T, T),
    weight: spec_fn(T) -> int,
    s: Seq<T>,
)
    requires
        is_signal_len(s.len()),
        conserves(f, weight),
    ensures
        total(weight, forward(f, s)) == total(weight, s),
    decreases s.len(),
{
    if s.len() >= 2 {
        let lvl = level(f, s);
        lemma_forward_conserves(f, weight, front_half(lvl));
        lemma_level_conserves(f, weight, s);
        lemma_total_of_parts(weight, forward(f, front_half(lvl)), back_half(lvl));
        lemma_total_of_parts(weight, front_half(lvl), back_half(lvl));
        assert(lvl =~= front_half(lvl) + back_half(lvl));
    }
}

} // verus!
