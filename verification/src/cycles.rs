//! In-place application of an index permutation, one cycle at a time.
//!
//! A cycle is rotated from its least index: the element that stands there is
//! lifted out, every other element of the cycle is handed one step on through a
//! single scratch value, and the last one lands where the first stood. Whether
//! an index is the least of its cycle is found by walking the cycle from it
//! until an index that is not above it turns up. Only the odd indices of the
//! front part can be the least index of a cycle of more than one.
use crate::arrays::{front_len, lemma_moved_index_inverse, moved_index};
use vstd::prelude::*;
use vstd::set_lib::*;

verus! {

/// The index to which the element at `i` moves.
fn moved(n: usize, gather: bool, i: usize) -> (r: usize)
    requires
        i < n,
    ensures
        r == moved_index(n as int, gather, i as int),
        r < n,
{
    let front: usize = n / 2 + n % 2;
    if gather {
        if i % 2 == 0 {
            i / 2
        } else {
            front + i / 2
        }
    } else {
        if i < front {
            2 * i
        } else {
            2 * (i - front) + 1
        }
    }
}

/// The index reached from `i` by applying the index map `k` times.
spec fn orbit(n: int, gather: bool, k: nat, i: int) -> int
    decreases k,
{
    if k == 0 {
        i
    } else {
        moved_index(n, gather, orbit(n, gather, (k - 1) as nat, i))
    }
}

/// A walk that starts inside `[0, n)` stays inside.
proof fn lemma_orbit_in_range(n: int, gather: bool, k: nat, i: int)
    requires
        0 <= i < n,
    ensures
        0 <= orbit(n, gather, k, i) < n,
    decreases k,
{
    if k > 0 {
        lemma_orbit_in_range(n, gather, (k - 1) as nat, i);
        lemma_moved_index_inverse(n, gather, orbit(n, gather, (k - 1) as nat, i));
    }
}

/// Walking `b` steps and then `a` steps is walking `a + b` steps.
proof fn lemma_orbit_add(n: int, gather: bool, a: nat, b: nat, i: int)
    ensures
        orbit(n, gather, a + b, i) == orbit(n, gather, a, orbit(n, gather, b, i)),
    decreases a,
{
    if a > 0 {
        lemma_orbit_add(n, gather, (a - 1) as nat, b, i);
        assert((a + b - 1) as nat == (a - 1) as nat + b);
    }
}

/// Two walks of the same length that end at one index began at one index.
proof fn lemma_orbit_injective(n: int, gather: bool, k: nat, i: int, j: int)
    requires
        0 <= i < n,
        0 <= j < n,
        orbit(n, gather, k, i) == orbit(n, gather, k, j),
    ensures
        i == j,
    decreases k,
{
    if k > 0 {
        let a = orbit(n, gather, (k - 1) as nat, i);
        let b = orbit(n, gather, (k - 1) as nat, j);
        lemma_orbit_in_range(n, gather, (k - 1) as nat, i);
        lemma_orbit_in_range(n, gather, (k - 1) as nat, j);
        lemma_moved_index_inverse(n, gather, a);
        lemma_moved_index_inverse(n, gather, b);
        lemma_orbit_injective(n, gather, (k - 1) as nat, i, j);
    }
}

/// The indices reached from `s` in one to `k` applications of the index map.
spec fn visited(n: int, gather: bool, s: int, k: nat) -> Set<int>
    decreases k,
{
    if k == 0 {
        Set::empty()
    } else {
        visited(n, gather, s, (k - 1) as nat).insert(orbit(n, gather, k, s))
    }
}

/// A walk from `s` that has not come back to `s` meets no index twice.
proof fn lemma_fresh(n: int, gather: bool, s: int, k: nat, m: nat)
    requires
        0 <= s < n,
        k < m,
        forall|j: nat| 1 <= j < m ==> #[trigger] orbit(n, gather, j, s) != s,
    ensures
        !visited(n, gather, s, k).contains(orbit(n, gather, m, s)),
    decreases k,
{
    if k > 0 {
        lemma_fresh(n, gather, s, (k - 1) as nat, m);
        if orbit(n, gather, m, s) == orbit(n, gather, k, s) {
            let rest = (m - k) as nat;
            lemma_orbit_add(n, gather, k, rest, s);
            assert(k + rest == m);
            lemma_orbit_in_range(n, gather, rest, s);
            lemma_orbit_injective(n, gather, k, orbit(n, gather, rest, s), s);
            assert(orbit(n, gather, rest, s) != s);
        }
    }
}

/// A walk of `k` steps from `s` that has not come back to `s` has met `k`
/// indices, none of them `s`.
proof fn lemma_visited(n: int, gather: bool, s: int, k: nat)
    requires
        0 <= s < n,
        forall|j: nat| 1 <= j <= k ==> #[trigger] orbit(n, gather, j, s) != s,
    ensures
        visited(n, gather, s, k).finite(),
        visited(n, gather, s, k).len() == k,
        visited(n, gather, s, k).subset_of(set_int_range(0, n).remove(s)),
    decreases k,
{
    if k > 0 {
        lemma_visited(n, gather, s, (k - 1) as nat);
        lemma_fresh(n, gather, s, (k - 1) as nat, k);
        lemma_orbit_in_range(n, gather, k, s);
    }
}

/// A walk from `s` that has not come back to `s` is shorter than `n`.
proof fn lemma_walk_short(n: int, gather: bool, s: int, k: nat)
    requires
        0 <= s < n,
        forall|j: nat| 1 <= j <= k ==> #[trigger] orbit(n, gather, j, s) != s,
    ensures
        k < n,
{
    lemma_visited(n, gather, s, k);
    lemma_int_range(0, n);
    lemma_len_subset(visited(n, gather, s, k), set_int_range(0, n).remove(s));
}

/// `s` is the least index of its cycle, which has `len` members.
spec fn leads(n: int, gather: bool, s: int, len: nat) -> bool {
    &&& 0 <= s < n
    &&& len >= 1
    &&& orbit(n, gather, len, s) == s
    &&& forall|j: nat| 1 <= j < len ==> #[trigger] orbit(n, gather, j, s) > s
}

/// Walks the cycle of `s` until it meets an index that is not above `s`, and
/// tells whether that index is `s` itself. The ghost result is the number of
/// steps walked.
fn leads_cycle(n: usize, gather: bool, s: usize) -> (r: (bool, Ghost<nat>))
    requires
        s < n,
    ensures
        r.0 ==> leads(n as int, gather, s as int, r.1@),
        !r.0 ==> orbit(n as int, gather, r.1@, s as int) < s,
{
    let mut q: usize = moved(n, gather, s);
    let ghost k: nat = 1;
    assert(orbit(n as int, gather, 0, s as int) == s);
    while q > s
        invariant
            s < n,
            q < n,
            k >= 1,
            q == orbit(n as int, gather, k, s as int),
            forall|j: nat| 1 <= j < k ==> #[trigger] orbit(n as int, gather, j, s as int) > s,
        decreases n - k,
    {
        proof {
            lemma_walk_short(n as int, gather, s as int, k);
        }
        q = moved(n, gather, q);
        proof {
            k = k + 1;
        }
    }
    (q == s, Ghost(k))
}

/// `x` is met on the walk from `s`, fewer than `hi` steps from it.
spec fn on_walk(n: int, gather: bool, s: int, hi: nat, x: int) -> bool {
    exists|i: nat| i < hi && orbit(n, gather, i, s) == x
}

/// The members of a cycle are met once each on the way round.
proof fn lemma_cycle_distinct(n: int, gather: bool, s: int, len: nat, a: nat, b: nat)
    requires
        leads(n, gather, s, len),
        a < b < len,
    ensures
        orbit(n, gather, a, s) != orbit(n, gather, b, s),
{
    if orbit(n, gather, a, s) == orbit(n, gather, b, s) {
        let rest = (b - a) as nat;
        lemma_orbit_add(n, gather, a, rest, s);
        assert(a + rest == b);
        lemma_orbit_in_range(n, gather, rest, s);
        lemma_orbit_injective(n, gather, a, orbit(n, gather, rest, s), s);
        assert(orbit(n, gather, rest, s) > s);
    }
}

/// An index is on the cycle exactly when the index it moves to is.
proof fn lemma_cycle_closed(n: int, gather: bool, s: int, len: nat, x: int)
    requires
        leads(n, gather, s, len),
        0 <= x < n,
    ensures
        on_walk(n, gather, s, len, x) == on_walk(
            n,
            gather,
            s,
            len,
            moved_index(n, gather, x),
        ),
{
    let y = moved_index(n, gather, x);
    assert(orbit(n, gather, 0, s) == s);
    if on_walk(n, gather, s, len, x) {
        let i = choose|i: nat| i < len && orbit(n, gather, i, s) == x;
        assert(orbit(n, gather, i + 1, s) == y);
        if i + 1 < len {
            assert(on_walk(n, gather, s, len, y));
        } else {
            assert(orbit(n, gather, 0, s) == y);
            assert(on_walk(n, gather, s, len, y));
        }
    }
    if on_walk(n, gather, s, len, y) {
        let i = choose|i: nat| i < len && orbit(n, gather, i, s) == y;
        let before = if i == 0 {
            (len - 1) as nat
        } else {
            (i - 1) as nat
        };
        let w = orbit(n, gather, before, s);
        lemma_orbit_in_range(n, gather, before, s);
        assert(orbit(n, gather, before + 1, s) == moved_index(n, gather, w));
        assert(moved_index(n, gather, w) == y);
        lemma_moved_index_inverse(n, gather, w);
        lemma_moved_index_inverse(n, gather, x);
        assert(w == x);
        assert(on_walk(n, gather, s, len, x));
    }
}

/// The element that stood `i - 1` steps from `s` now stands `i` steps from it.
spec fn carried<E>(was: Seq<E>, now: Seq<E>, gather: bool, s: int, i: nat) -> bool {
    now[orbit(was.len() as int, gather, i, s)] == was[orbit(
        was.len() as int,
        gather,
        (i - 1) as nat,
        s,
    )]
}

/// Moves every element of the cycle led by `s` one step along the cycle, through
/// a single scratch value, and leaves the rest of the slice as it was.
fn rotate_cycle<E: Default>(d: &mut [E], gather: bool, s: usize, Ghost(len): Ghost<nat>)
    requires
        leads(old(d)@.len() as int, gather, s as int, len),
    ensures
        final(d)@.len() == old(d)@.len(),
        forall|x: int|
            0 <= x < old(d)@.len() && on_walk(old(d)@.len() as int, gather, s as int, len, x)
                ==> final(d)@[moved_index(old(d)@.len() as int, gather, x)] == old(d)@[x],
        forall|x: int|
            0 <= x < old(d)@.len() && !on_walk(old(d)@.len() as int, gather, s as int, len, x)
                ==> final(d)@[x] == old(d)@[x],
{
    let n: usize = d.len();
    let ghost m = n as int;
    let ghost si = s as int;
    let mut t: E = E::default();
    core::mem::swap(&mut d[s], &mut t);
    let mut p: usize = moved(n, gather, s);
    let ghost j: nat = 1;
    proof {
        assert(orbit(m, gather, 0, si) == si);
        assert forall|x: int| 0 <= x < m && !on_walk(m, gather, si, 1, x) implies d@[x]
            == old(d)@[x] by {
            if x == si {
                assert(on_walk(m, gather, si, 1, x));
            }
        }
    }
    while p != s
        invariant
            leads(m, gather, si, len),
            m == n,
            si == s,
            d@.len() == n,
            old(d)@.len() == n,
            p < n,
            1 <= j <= len,
            p == orbit(m, gather, j, si),
            t == old(d)@[orbit(m, gather, (j - 1) as nat, si)],
            forall|i: nat| 1 <= i < j ==> #[trigger] carried(old(d)@, d@, gather, si, i),
            forall|x: int|
                0 <= x < m && !on_walk(m, gather, si, j, x) ==> d@[x] == old(d)@[x],
        decreases len - j,
    {
        let ghost before = d@;
        proof {
            assert(j < len);
            lemma_orbit_in_range(m, gather, (j - 1) as nat, si);
            if on_walk(m, gather, si, j, p as int) {
                let i = choose|i: nat| i < j && orbit(m, gather, i, si) == p;
                lemma_cycle_distinct(m, gather, si, len, i, j);
            }
        }
        core::mem::swap(&mut d[p], &mut t);
        proof {
            assert forall|i: nat| 1 <= i < j + 1 implies #[trigger] carried(
                old(d)@,
                d@,
                gather,
                si,
                i,
            ) by {
                lemma_orbit_in_range(m, gather, i, si);
                lemma_orbit_in_range(m, gather, (i - 1) as nat, si);
                if i < j {
                    assert(carried(old(d)@, before, gather, si, i));
                    lemma_cycle_distinct(m, gather, si, len, i, j);
                }
            }
            assert forall|x: int| 0 <= x < m && !on_walk(m, gather, si, j + 1, x) implies d@[x]
                == old(d)@[x] by {
                if on_walk(m, gather, si, j, x) {
                    let i = choose|i: nat| i < j && orbit(m, gather, i, si) == x;
                    assert(on_walk(m, gather, si, j + 1, x));
                }
                if x == p {
                    assert(on_walk(m, gather, si, j + 1, x));
                }
            }
        }
        p = moved(n, gather, p);
        proof {
            j = j + 1;
        }
    }
    let ghost filled = d@;
    core::mem::swap(&mut d[s], &mut t);
    proof {
        assert(j == len);
        assert forall|x: int| 0 <= x < m && on_walk(m, gather, si, len, x) implies d@[moved_index(
            m,
            gather,
            x,
        )] == old(d)@[x] by {
            let i = choose|i: nat| i < len && orbit(m, gather, i, si) == x;
            assert(orbit(m, gather, i + 1, si) == moved_index(m, gather, x));
            if i + 1 < len {
                assert(orbit(m, gather, i + 1, si) > si);
                assert(carried(old(d)@, filled, gather, si, i + 1));
            }
        }
        assert forall|x: int| 0 <= x < m && !on_walk(m, gather, si, len, x) implies d@[x]
            == old(d)@[x] by {
            if x == si {
                assert(on_walk(m, gather, si, len, x));
            }
        }
    }
}

/// The cycle of `i` holds an index below `s`.
spec fn touched(n: int, gather: bool, s: int, i: int) -> bool {
    exists|k: nat| orbit(n, gather, k, i) < s
}

/// The state of index `i` once every cycle that holds an index below `s` has
/// been rotated, and no other.
spec fn placed<E>(was: Seq<E>, now: Seq<E>, gather: bool, s: int, i: int) -> bool {
    if touched(was.len() as int, gather, s, i) {
        now[moved_index(was.len() as int, gather, i)] == was[i]
    } else {
        now[i] == was[i]
    }
}

/// An index whose cycle holds a lower index adds nothing to the cycles that
/// hold an index below it.
proof fn lemma_skip(n: int, gather: bool, s: int, k: nat, i: int)
    requires
        orbit(n, gather, k, s) < s,
    ensures
        touched(n, gather, s + 1, i) == touched(n, gather, s, i),
{
    if touched(n, gather, s + 1, i) {
        let m = choose|m: nat| orbit(n, gather, m, i) < s + 1;
        if orbit(n, gather, m, i) == s {
            lemma_orbit_add(n, gather, k, m, i);
            assert(orbit(n, gather, k + m, i) < s);
        }
        assert(touched(n, gather, s, i));
    }
    if touched(n, gather, s, i) {
        let m = choose|m: nat| orbit(n, gather, m, i) < s;
        assert(orbit(n, gather, m, i) < s + 1);
    }
}

/// No walk from the least index of a cycle goes below it.
proof fn lemma_cycle_floor(n: int, gather: bool, s: int, len: nat, k: nat)
    requires
        leads(n, gather, s, len),
    ensures
        orbit(n, gather, k, s) >= s,
    decreases k,
{
    if k == 0 {
    } else if k < len {
    } else {
        let rest = (k - len) as nat;
        lemma_orbit_add(n, gather, rest, len, s);
        assert(rest + len == k);
        lemma_cycle_floor(n, gather, s, len, rest);
    }
}

/// An index from which a walk reaches the cycle is on the cycle.
proof fn lemma_reaches_cycle(n: int, gather: bool, s: int, len: nat, m: nat, x: int)
    requires
        leads(n, gather, s, len),
        0 <= x < n,
        on_walk(n, gather, s, len, orbit(n, gather, m, x)),
    ensures
        on_walk(n, gather, s, len, x),
    decreases m,
{
    if m > 0 {
        let w = orbit(n, gather, (m - 1) as nat, x);
        lemma_orbit_in_range(n, gather, (m - 1) as nat, x);
        lemma_cycle_closed(n, gather, s, len, w);
        lemma_reaches_cycle(n, gather, s, len, (m - 1) as nat, x);
    }
}

/// The members of the cycle led by `s` have no index below `s` on their cycle,
/// and have `s` on it.
proof fn lemma_on_cycle(n: int, gather: bool, s: int, len: nat, x: int)
    requires
        leads(n, gather, s, len),
        on_walk(n, gather, s, len, x),
    ensures
        !touched(n, gather, s, x),
        touched(n, gather, s + 1, x),
{
    let i = choose|i: nat| i < len && orbit(n, gather, i, s) == x;
    let rest = (len - i) as nat;
    lemma_orbit_add(n, gather, rest, i, s);
    assert(rest + i == len);
    assert(orbit(n, gather, rest, x) < s + 1);
    assert forall|k: nat| orbit(n, gather, k, x) >= s by {
        lemma_orbit_add(n, gather, k, i, s);
        lemma_cycle_floor(n, gather, s, len, k + i);
    }
}

/// For an index off the cycle led by `s`, `s` is not on its cycle.
proof fn lemma_off_cycle(n: int, gather: bool, s: int, len: nat, x: int)
    requires
        leads(n, gather, s, len),
        0 <= x < n,
        !on_walk(n, gather, s, len, x),
    ensures
        touched(n, gather, s + 1, x) == touched(n, gather, s, x),
{
    if touched(n, gather, s + 1, x) {
        let m = choose|m: nat| orbit(n, gather, m, x) < s + 1;
        if orbit(n, gather, m, x) == s {
            assert(orbit(n, gather, 0, s) == s);
            assert(on_walk(n, gather, s, len, s));
            lemma_reaches_cycle(n, gather, s, len, m, x);
        }
        assert(touched(n, gather, s, x));
    }
    if touched(n, gather, s, x) {
        let m = choose|m: nat| orbit(n, gather, m, x) < s;
        assert(orbit(n, gather, m, x) < s + 1);
    }
}

/// The indices at which a cycle of more than one index can have its least
/// index: the odd indices of the front part.
spec fn is_start(n: int, s: int) -> bool {
    s % 2 == 1 && s < front_len(n)
}

/// Every walk comes back to where it began, within `n` steps.
proof fn lemma_returns(n: int, gather: bool, s: int)
    requires
        0 <= s < n,
    ensures
        exists|len: nat| 1 <= len <= n && orbit(n, gather, len, s) == s,
{
    if forall|j: nat| 1 <= j <= n ==> #[trigger] orbit(n, gather, j, s) != s {
        lemma_walk_short(n, gather, s, n as nat);
    }
}

/// An index that is no start either stays where it is or has a lower index
/// on its cycle: the one it moves to, or the one that moves to it.
proof fn lemma_not_least(n: int, gather: bool, s: int)
    requires
        0 <= s < n,
        !is_start(n, s),
    ensures
        moved_index(n, gather, s) == s || exists|k: nat| orbit(n, gather, k, s) < s,
{
    let next = moved_index(n, gather, s);
    let prev = moved_index(n, !gather, s);
    lemma_moved_index_inverse(n, gather, s);
    lemma_moved_index_inverse(n, !gather, s);
    assert(orbit(n, gather, 0, s) == s);
    if next == s {
    } else if next < s {
        assert(orbit(n, gather, 1, s) == next);
    } else {
        assert(prev < s);
        lemma_returns(n, gather, s);
        let len = choose|len: nat| 1 <= len <= n && orbit(n, gather, len, s) == s;
        let before = (len - 1) as nat;
        let w = orbit(n, gather, before, s);
        lemma_orbit_in_range(n, gather, before, s);
        assert(orbit(n, gather, before + 1, s) == moved_index(n, gather, w));
        lemma_moved_index_inverse(n, gather, w);
        lemma_moved_index_inverse(n, gather, prev);
        assert(w == prev);
    }
}

/// An index that stays where it is has nothing else on its cycle.
proof fn lemma_alone(n: int, gather: bool, s: int, k: nat, i: int)
    requires
        0 <= s < n,
        0 <= i < n,
        moved_index(n, gather, s) == s,
        orbit(n, gather, k, i) == s,
    ensures
        i == s,
    decreases k,
{
    if k > 0 {
        let w = orbit(n, gather, (k - 1) as nat, i);
        lemma_orbit_in_range(n, gather, (k - 1) as nat, i);
        lemma_moved_index_inverse(n, gather, w);
        lemma_moved_index_inverse(n, gather, s);
        lemma_alone(n, gather, s, (k - 1) as nat, i);
    }
}

/// Nothing has to be done at an index that is no start: what holds once the
/// cycles with an index below `s` are rotated holds for those with an index
/// below `s + 1`.
proof fn lemma_pass<E>(was: Seq<E>, now: Seq<E>, gather: bool, s: int)
    requires
        0 <= s < was.len(),
        now.len() == was.len(),
        !is_start(was.len() as int, s),
        forall|i: int| 0 <= i < was.len() ==> #[trigger] placed(was, now, gather, s, i),
    ensures
        forall|i: int| 0 <= i < was.len() ==> #[trigger] placed(was, now, gather, s + 1, i),
{
    let n = was.len() as int;
    lemma_not_least(n, gather, s);
    if exists|k: nat| orbit(n, gather, k, s) < s {
        let k = choose|k: nat| orbit(n, gather, k, s) < s;
        assert forall|i: int| 0 <= i < n implies #[trigger] placed(was, now, gather, s + 1, i) by {
            assert(placed(was, now, gather, s, i));
            lemma_skip(n, gather, s, k, i);
        }
    } else {
        assert forall|i: int| 0 <= i < n implies #[trigger] placed(was, now, gather, s + 1, i) by {
            assert(placed(was, now, gather, s, i));
            if i == s {
                assert(orbit(n, gather, 0, s) < s + 1);
            } else {
                if touched(n, gather, s + 1, i) {
                    let m = choose|m: nat| orbit(n, gather, m, i) < s + 1;
                    if orbit(n, gather, m, i) == s {
                        lemma_alone(n, gather, s, m, i);
                    }
                    assert(touched(n, gather, s, i));
                }
                if touched(n, gather, s, i) {
                    let m = choose|m: nat| orbit(n, gather, m, i) < s;
                    assert(orbit(n, gather, m, i) < s + 1);
                }
            }
        }
    }
}

/// Nothing has to be done in the back part.
proof fn lemma_rest<E>(was: Seq<E>, now: Seq<E>, gather: bool, s: int)
    requires
        front_len(was.len() as int) <= s <= was.len(),
        now.len() == was.len(),
        forall|i: int| 0 <= i < was.len() ==> #[trigger] placed(was, now, gather, s, i),
    ensures
        forall|i: int| 0 <= i < was.len() ==> #[trigger] placed(
            was,
            now,
            gather,
            was.len() as int,
            i,
        ),
    decreases was.len() - s,
{
    if s < was.len() {
        lemma_pass(was, now, gather, s);
        lemma_rest(was, now, gather, s + 1);
    }
}

/// Applies one of the two index maps to the slice in place: the element at
/// index `i` comes to stand at `moved_index(n, gather, i)`.
///
/// The cycles of the map are followed one after the other. A walk starts at
/// each odd index of the front part that is the least index of its cycle, and
/// hands the elements of that cycle on. An odd index that an earlier walk has
/// passed is not the least of its cycle, and is skipped. All other indices
/// are on one of these cycles, or stay where they are.
pub(crate) fn permute<E: Default>(d: &mut [E], gather: bool)
    ensures
        final(d)@.len() == old(d)@.len(),
        forall|i: int|
            0 <= i < old(d)@.len() ==> final(d)@[moved_index(old(d)@.len() as int, gather, i)]
                == old(d)@[i],
{
    let n: usize = d.len();
    if n < 2 {
        //nothing to do
        return ;
    }
    let ghost m = n as int;
    let mid: usize = n / 2 + n % 2;
    let mut s: usize = 1;
    proof {
        assert forall|i: int| 0 <= i < m implies #[trigger] placed(old(d)@, d@, gather, 0, i) by {
            assert forall|k: nat| orbit(m, gather, k, i) >= 0 by {
                lemma_orbit_in_range(m, gather, k, i);
            }
        }
        lemma_pass(old(d)@, d@, gather, 0);
        assert forall|i: int| 0 <= i < m implies #[trigger] placed(old(d)@, d@, gather, 1, i) by {
            assert(placed(old(d)@, d@, gather, 0int + 1, i));
        }
    }
    while s < mid
        invariant
            m == n,
            n >= 2,
            mid == front_len(m),
            s % 2 == 1,
            s <= mid + 1,
            d@.len() == n,
            old(d)@.len() == n,
            forall|i: int| 0 <= i < m ==> #[trigger] placed(old(d)@, d@, gather, s as int, i),
        decreases mid + 1 - s,
    {
        let ghost before = d@;
        let (least, Ghost(steps)) = leads_cycle(n, gather, s);
        if least {
            rotate_cycle(d, gather, s, Ghost(steps));
            proof {
                assert forall|i: int| 0 <= i < m implies #[trigger] placed(
                    old(d)@,
                    d@,
                    gather,
                    s + 1,
                    i,
                ) by {
                    assert(placed(old(d)@, before, gather, s as int, i));
                    lemma_moved_index_inverse(m, gather, i);
                    lemma_cycle_closed(m, gather, s as int, steps, i);
                    if on_walk(m, gather, s as int, steps, i) {
                        lemma_on_cycle(m, gather, s as int, steps, i);
                    } else {
                        lemma_off_cycle(m, gather, s as int, steps, i);
                    }
                }
            }
        } else {
            proof {
                assert forall|i: int| 0 <= i < m implies #[trigger] placed(
                    old(d)@,
                    d@,
                    gather,
                    s + 1,
                    i,
                ) by {
                    assert(placed(old(d)@, before, gather, s as int, i));
                    lemma_skip(m, gather, s as int, steps, i);
                }
            }
        }
        proof {
            lemma_pass(old(d)@, d@, gather, s + 1);
            assert forall|i: int| 0 <= i < m implies #[trigger] placed(
                old(d)@,
                d@,
                gather,
                s + 2,
                i,
            ) by {
                assert(placed(old(d)@, d@, gather, s + 1 + 1, i));
            }
        }
        s += 2;
    }
    proof {
        lemma_rest(old(d)@, d@, gather, s as int);
        assert forall|i: int| 0 <= i < m implies d@[moved_index(m, gather, i)] == old(d)@[i] by {
            assert(placed(old(d)@, d@, gather, m, i));
            assert(orbit(m, gather, 0, i) < m);
            assert(touched(m, gather, m, i));
        }
    }
}

} // verus!
