//! The slot array's invariant, and the lemmas that the insertion walk, the
//! lookup and the backward shift rest on.
use crate::key_hash::key_hash;
use crate::rh_hash_table::KeyValuePair;
use crate::ring::{ring_add, ring_dist, ring_next, ring_prev, ring_sub};
use vstd::arithmetic::div_mod::lemma_mod_pos_bound;
use vstd::prelude::*;

verus! {

/// The slot where a key sits with no displacement, in a table of `cap` slots.
pub open spec fn home_of(seed: u64, key: Seq<char>, cap: int) -> int {
    (key_hash(seed, key) as int) % cap
}

/// A home slot lies in the table.
pub proof fn lemma_home_bound(seed: u64, key: Seq<char>, cap: int)
    requires
        cap > 0,
    ensures
        0 <= home_of(seed, key, cap) < cap,
{
    lemma_mod_pos_bound(key_hash(seed, key) as int, cap);
}

/// Slot `i` holds an entry with key `k`.
pub open spec fn key_at<V>(s: Seq<Option<KeyValuePair<String, V>>>, i: int, k: Seq<char>) -> bool {
    0 <= i < s.len() && s[i] is Some && s[i]->0.spec_key()@ == k
}

/// The stored PSL of an occupied slot.
pub open spec fn psl_at<V>(s: Seq<Option<KeyValuePair<String, V>>>, i: int) -> int {
    s[i]->0.spec_psl() as int
}

/// Every occupied slot stores its forward distance from its key's home slot.
pub open spec fn psl_exact<V>(s: Seq<Option<KeyValuePair<String, V>>>, seed: u64) -> bool {
    forall|i: int|
        0 <= i < s.len() && (#[trigger] s[i]) is Some ==> psl_at(s, i) == ring_dist(
            home_of(seed, s[i]->0.spec_key()@, s.len() as int),
            i,
            s.len() as int,
        )
}

/// Robin Hood order: an occupied slot with a positive PSL follows an occupied
/// slot whose PSL is at most one less.
pub open spec fn displacement_ordered<V>(s: Seq<Option<KeyValuePair<String, V>>>) -> bool {
    forall|i: int|
        0 <= i < s.len() && (#[trigger] s[i]) is Some && psl_at(s, i) > 0 ==> {
            let j = ring_prev(i, s.len() as int);
            s[j] is Some && psl_at(s, j) + 1 >= psl_at(s, i)
        }
}

/// No key occupies two slots.
pub open spec fn keys_unique<V>(s: Seq<Option<KeyValuePair<String, V>>>) -> bool {
    forall|i: int, j: int|
        #![trigger s[i], s[j]]
        0 <= i < s.len() && 0 <= j < s.len() && s[i] is Some && s[j] is Some
            && s[i]->0.spec_key()@ == s[j]->0.spec_key()@ ==> i == j
}

/// The slots hold exactly the entries of `m`.
pub open spec fn slots_match<V>(s: Seq<Option<KeyValuePair<String, V>>>, m: Map<Seq<char>, V>) -> bool {
    &&& forall|i: int|
        0 <= i < s.len() && (#[trigger] s[i]) is Some ==> m.contains_key(s[i]->0.spec_key()@)
            && m[s[i]->0.spec_key()@] == s[i]->0.spec_value()
    &&& forall|k: Seq<char>| #[trigger]
        m.contains_key(k) ==> exists|i: int| key_at(s, i, k)
}

/// The slot array's invariant, for seed `seed` and contents `m`.
#[verifier::opaque]
pub open spec fn slots_inv<V>(
    s: Seq<Option<KeyValuePair<String, V>>>,
    seed: u64,
    m: Map<Seq<char>, V>,
) -> bool {
    &&& psl_exact(s, seed)
    &&& displacement_ordered(s)
    &&& keys_unique(s)
    &&& slots_match(s, m)
}

/// Walking back `m` slots from an entry with PSL `q >= m` meets an occupied
/// slot whose PSL is at least `q - m`.
pub(crate) proof fn lemma_chain<V>(s: Seq<Option<KeyValuePair<String, V>>>, j: int, m: int)
    requires
        displacement_ordered(s),
        0 <= j < s.len(),
        s[j] is Some,
        0 <= m <= psl_at(s, j) < s.len(),
    ensures
        s[ring_sub(j, m, s.len() as int)] is Some,
        psl_at(s, ring_sub(j, m, s.len() as int)) + m >= psl_at(s, j),
    decreases m,
{
    if m > 0 {
        lemma_chain(s, j, m - 1);
        let c = ring_sub(j, m - 1, s.len() as int);
        assert(s[c] is Some);
        assert(ring_prev(c, s.len() as int) == ring_sub(j, m, s.len() as int));
    }
}

/// A probe from `k`'s home that has passed `d` occupied slots without `k` and
/// then meets an empty slot, or an entry with PSL below `d`, proves `k` absent.
pub(crate) proof fn lemma_absent<V>(
    s: Seq<Option<KeyValuePair<String, V>>>,
    seed: u64,
    m: Map<Seq<char>, V>,
    k: Seq<char>,
    d: int,
)
    requires
        s.len() > 0,
        slots_inv(s, seed, m),
        0 <= d <= s.len(),
        forall|e: int|
            0 <= e < d ==> {
                let c = #[trigger] ring_add(home_of(seed, k, s.len() as int), e, s.len() as int);
                s[c] is Some && s[c]->0.spec_key()@ != k
            },
        d < s.len() ==> {
            let c = ring_add(home_of(seed, k, s.len() as int), d, s.len() as int);
            s[c] is None || (s[c]->0.spec_key()@ != k && psl_at(s, c) < d)
        },
    ensures
        !m.contains_key(k),
{
    reveal(slots_inv);
    let n = s.len() as int;
    let h = home_of(seed, k, n);
    lemma_home_bound(seed, k, n);
    if m.contains_key(k) {
        let i = choose|i: int| key_at(s, i, k);
        assert(s[i] is Some);
        let q = psl_at(s, i);
        assert(q == ring_dist(h, i, n));
        if q < d {
            assert(ring_add(h, q, n) == i);
        } else if q == d {
            assert(ring_add(h, q, n) == i);
        } else {
            lemma_chain(s, i, q - d);
            assert(ring_sub(i, q - d, n) == ring_add(h, d, n));
        }
    }
}

/// Replacing the value of an entry in place keeps the invariant, with the
/// key mapped to the new value.
pub(crate) proof fn lemma_replace_value<V>(
    s: Seq<Option<KeyValuePair<String, V>>>,
    seed: u64,
    m: Map<Seq<char>, V>,
    i: int,
    e: KeyValuePair<String, V>,
)
    requires
        slots_inv(s, seed, m),
        0 <= i < s.len(),
        s[i] is Some,
        e.spec_key()@ == s[i]->0.spec_key()@,
        e.spec_psl() == s[i]->0.spec_psl(),
    ensures
        slots_inv(s.update(i, Some(e)), seed, m.insert(e.spec_key()@, e.spec_value())),
{
    reveal(slots_inv);
    let n = s.len() as int;
    let s1 = s.update(i, Some(e));
    let m1 = m.insert(e.spec_key()@, e.spec_value());
    assert forall|j: int| 0 <= j < n && (#[trigger] s1[j]) is Some implies psl_at(s1, j)
        == ring_dist(home_of(seed, s1[j]->0.spec_key()@, n), j, n) by {
        assert(s[j] is Some);
    }
    assert forall|j: int|
        0 <= j < n && (#[trigger] s1[j]) is Some && psl_at(s1, j) > 0 implies {
        let pj = ring_prev(j, n);
        s1[pj] is Some && psl_at(s1, pj) + 1 >= psl_at(s1, j)
    } by {
        assert(s[j] is Some);
    }
    assert forall|a: int, b: int|
        #![trigger s1[a], s1[b]]
        0 <= a < n && 0 <= b < n && s1[a] is Some && s1[b] is Some && s1[a]->0.spec_key()@
            == s1[b]->0.spec_key()@ implies a == b by {
        assert(s[a] is Some && s[b] is Some);
    }
    assert forall|j: int| 0 <= j < n && (#[trigger] s1[j]) is Some implies m1.contains_key(
        s1[j]->0.spec_key()@,
    ) && m1[s1[j]->0.spec_key()@] == s1[j]->0.spec_value() by {
        assert(s[j] is Some);
        if j != i {
            assert(s[i] is Some);
        }
    }
    assert forall|k: Seq<char>| #[trigger] m1.contains_key(k) implies exists|j: int|
        key_at(s1, j, k) by {
        if k == e.spec_key()@ {
            assert(key_at(s1, i, k));
        } else {
            let j = choose|j: int| key_at(s, j, k);
            assert(key_at(s1, j, k));
        }
    }
}

/// The state of a backward shift with a hole at slot `h`: the slots keep
/// their invariant for contents `m`, except that the entry after the hole may
/// lack its predecessor, which then lies one slot further back.
#[verifier::opaque]
pub(crate) open spec fn shift_state<V>(
    s: Seq<Option<KeyValuePair<String, V>>>,
    seed: u64,
    m: Map<Seq<char>, V>,
    h: int,
) -> bool {
    let n = s.len() as int;
    let nx = ring_next(h, n);
    &&& 0 <= h < n
    &&& s[h] is None
    &&& psl_exact(s, seed)
    &&& keys_unique(s)
    &&& slots_match(s, m)
    &&& forall|i: int|
        0 <= i < n && i != nx && (#[trigger] s[i]) is Some && psl_at(s, i) > 0 ==> {
            let j = ring_prev(i, n);
            s[j] is Some && psl_at(s, j) + 1 >= psl_at(s, i)
        }
    &&& s[nx] is Some && psl_at(s, nx) >= 2 ==> {
        let j = ring_prev(h, n);
        s[j] is Some && psl_at(s, j) + 2 >= psl_at(s, nx)
    }
}

/// Emptying the slot of key `k` starts a backward shift with its hole there,
/// for the contents without `k`.
#[verifier::rlimit(40)]
pub(crate) proof fn lemma_shift_start<V>(
    s: Seq<Option<KeyValuePair<String, V>>>,
    seed: u64,
    m: Map<Seq<char>, V>,
    i: int,
)
    requires
        slots_inv(s, seed, m),
        0 <= i < s.len(),
        s[i] is Some,
    ensures
        shift_state(s.update(i, None), seed, m.remove(s[i]->0.spec_key()@), i),
{
    reveal(slots_inv);
    reveal(shift_state);
    let n = s.len() as int;
    let k = s[i]->0.spec_key()@;
    let s1 = s.update(i, None);
    let m1 = m.remove(k);
    let nx = ring_next(i, n);
    assert forall|j: int| 0 <= j < n && (#[trigger] s1[j]) is Some implies m1.contains_key(
        s1[j]->0.spec_key()@,
    ) && m1[s1[j]->0.spec_key()@] == s1[j]->0.spec_value() by {
        assert(s[j] is Some);
    }
    assert forall|k2: Seq<char>| #[trigger] m1.contains_key(k2) implies exists|j: int|
        key_at(s1, j, k2) by {
        let j = choose|j: int| key_at(s, j, k2);
        assert(key_at(s1, j, k2));
    }
    assert forall|j: int|
        0 <= j < n && j != nx && (#[trigger] s1[j]) is Some && psl_at(s1, j) > 0 implies {
        let pj = ring_prev(j, n);
        s1[pj] is Some && psl_at(s1, pj) + 1 >= psl_at(s1, j)
    } by {
        assert(s[j] is Some);
    }
    if s1[nx] is Some && psl_at(s1, nx) >= 2 {
        assert(s[nx] is Some);
        assert(ring_prev(nx, n) == i);
        assert(s[i] is Some);
    }
}

/// A shift whose next slot is empty, or holds an entry at its home, is done.
pub(crate) proof fn lemma_shift_done<V>(
    s: Seq<Option<KeyValuePair<String, V>>>,
    seed: u64,
    m: Map<Seq<char>, V>,
    h: int,
)
    requires
        shift_state(s, seed, m, h),
        s[ring_next(h, s.len() as int)] is None || psl_at(s, ring_next(h, s.len() as int)) == 0,
    ensures
        slots_inv(s, seed, m),
{
    reveal(slots_inv);
    reveal(shift_state);
}

/// Moving the entry after the hole back into it, one PSL lower, moves the
/// hole forward.
pub(crate) proof fn lemma_shift_move<V>(
    s: Seq<Option<KeyValuePair<String, V>>>,
    seed: u64,
    m: Map<Seq<char>, V>,
    h: int,
    e: KeyValuePair<String, V>,
)
    requires
        shift_state(s, seed, m, h),
        s[ring_next(h, s.len() as int)] is Some,
        psl_at(s, ring_next(h, s.len() as int)) > 0,
        e.spec_key() == s[ring_next(h, s.len() as int)]->0.spec_key(),
        e.spec_value() == s[ring_next(h, s.len() as int)]->0.spec_value(),
        e.spec_psl() + 1 == psl_at(s, ring_next(h, s.len() as int)),
    ensures
        shift_state(
            s.update(ring_next(h, s.len() as int), None).update(h, Some(e)),
            seed,
            m,
            ring_next(h, s.len() as int),
        ),
{
    reveal(shift_state);
    let n = s.len() as int;
    let nx = ring_next(h, n);
    let nn = ring_next(nx, n);
    let s1 = s.update(nx, None).update(h, Some(e));
    assert(nx != h);
    lemma_home_bound(seed, e.spec_key()@, n);
    assert(s[nx] is Some);
    assert(ring_prev(nx, n) == h);
    assert forall|i: int| 0 <= i < n && (#[trigger] s1[i]) is Some implies psl_at(s1, i)
        == ring_dist(home_of(seed, s1[i]->0.spec_key()@, n), i, n) by {
        if i != h {
            assert(s[i] is Some);
        }
    }
    assert forall|i: int, j: int|
        #![trigger s1[i], s1[j]]
        0 <= i < n && 0 <= j < n && s1[i] is Some && s1[j] is Some && s1[i]->0.spec_key()@
            == s1[j]->0.spec_key()@ implies i == j by {
        let i0 = if i == h { nx } else { i };
        let j0 = if j == h { nx } else { j };
        assert(s[i0] is Some && s[j0] is Some);
    }
    assert forall|i: int| 0 <= i < n && (#[trigger] s1[i]) is Some implies m.contains_key(
        s1[i]->0.spec_key()@,
    ) && m[s1[i]->0.spec_key()@] == s1[i]->0.spec_value() by {
        let i0 = if i == h { nx } else { i };
        assert(s[i0] is Some);
    }
    assert forall|k: Seq<char>| #[trigger] m.contains_key(k) implies exists|j: int|
        key_at(s1, j, k) by {
        let j = choose|j: int| key_at(s, j, k);
        if j == nx {
            assert(key_at(s1, h, k));
        } else {
            assert(key_at(s1, j, k));
        }
    }
    assert forall|i: int|
        0 <= i < n && i != nn && (#[trigger] s1[i]) is Some && psl_at(s1, i) > 0 implies {
        let j = ring_prev(i, n);
        s1[j] is Some && psl_at(s1, j) + 1 >= psl_at(s1, i)
    } by {
        if i != h {
            assert(s[i] is Some);
            assert(ring_prev(i, n) != h);
        }
    }
    if s1[nn] is Some && psl_at(s1, nn) >= 2 {
        assert(nn != h);
        assert(s[nn] is Some);
        assert(ring_prev(nn, n) == nx);
    }
}


/// The state of an insertion walk: the slots keep their invariant, while the
/// candidate `c`, about to be examined at slot `p`, is held by no slot, has
/// its exact PSL for `p`, and follows an occupied slot as Robin Hood order
/// asks; slots and candidate together hold exactly `m`.
#[verifier::opaque]
pub(crate) open spec fn walk_state<V>(
    s: Seq<Option<KeyValuePair<String, V>>>,
    seed: u64,
    m: Map<Seq<char>, V>,
    c: KeyValuePair<String, V>,
    p: int,
) -> bool {
    let n = s.len() as int;
    &&& 0 <= p < n
    &&& psl_exact(s, seed)
    &&& displacement_ordered(s)
    &&& keys_unique(s)
    &&& forall|i: int|
        0 <= i < n && (#[trigger] s[i]) is Some ==> {
            &&& s[i]->0.spec_key()@ != c.spec_key()@
            &&& m.contains_key(s[i]->0.spec_key()@)
            &&& m[s[i]->0.spec_key()@] == s[i]->0.spec_value()
        }
    &&& m.contains_key(c.spec_key()@)
    &&& m[c.spec_key()@] == c.spec_value()
    &&& forall|k: Seq<char>| #[trigger]
        m.contains_key(k) ==> k == c.spec_key()@ || exists|i: int| key_at(s, i, k)
    &&& c.spec_psl() == ring_dist(home_of(seed, c.spec_key()@, n), p, n)
    &&& c.spec_psl() > 0 ==> {
        let j = ring_prev(p, n);
        s[j] is Some && psl_at(s, j) + 1 >= c.spec_psl()
    }
}

/// An insertion walk starts at the new key's home slot with PSL 0.
pub(crate) proof fn lemma_walk_start<V>(
    s: Seq<Option<KeyValuePair<String, V>>>,
    seed: u64,
    m: Map<Seq<char>, V>,
    c: KeyValuePair<String, V>,
    p: int,
)
    requires
        s.len() > 0,
        slots_inv(s, seed, m),
        !m.contains_key(c.spec_key()@),
        c.spec_psl() == 0,
        p == home_of(seed, c.spec_key()@, s.len() as int),
    ensures
        walk_state(s, seed, m.insert(c.spec_key()@, c.spec_value()), c, p),
{
    reveal(walk_state);
    reveal(slots_inv);
    lemma_home_bound(seed, c.spec_key()@, s.len() as int);
    let m2 = m.insert(c.spec_key()@, c.spec_value());
    assert forall|k: Seq<char>| #[trigger]
        m2.contains_key(k) implies k == c.spec_key()@ || exists|i: int| key_at(s, i, k) by {
        if k != c.spec_key()@ {
            assert(m.contains_key(k));
        }
    }
}

/// A candidate that meets an empty slot settles there, and the invariant
/// holds again.
pub(crate) proof fn lemma_walk_place<V>(
    s: Seq<Option<KeyValuePair<String, V>>>,
    seed: u64,
    m: Map<Seq<char>, V>,
    c: KeyValuePair<String, V>,
    p: int,
)
    requires
        walk_state(s, seed, m, c, p),
        s[p] is None,
    ensures
        slots_inv(s.update(p, Some(c)), seed, m),
{
    reveal(walk_state);
    reveal(slots_inv);
    let n = s.len() as int;
    let s1 = s.update(p, Some(c));
    assert forall|i: int|
        0 <= i < n && (#[trigger] s1[i]) is Some && psl_at(s1, i) > 0 implies {
        let j = ring_prev(i, n);
        s1[j] is Some && psl_at(s1, j) + 1 >= psl_at(s1, i)
    } by {
        if i != p {
            assert(s[i] is Some);
        }
    }
    assert forall|k: Seq<char>| #[trigger] m.contains_key(k) implies exists|i: int| key_at(s1, i, k) by {
        if k == c.spec_key()@ {
            assert(key_at(s1, p, k));
        } else {
            let i = choose|i: int| key_at(s, i, k);
            assert(key_at(s1, i, k));
        }
    }
}

/// A candidate poorer than the occupant takes its slot, and the occupant
/// walks on from the next slot.
pub(crate) proof fn lemma_walk_swap<V>(
    s: Seq<Option<KeyValuePair<String, V>>>,
    seed: u64,
    m: Map<Seq<char>, V>,
    c: KeyValuePair<String, V>,
    p: int,
    c2: KeyValuePair<String, V>,
)
    requires
        walk_state(s, seed, m, c, p),
        s[p] is Some,
        psl_at(s, p) < c.spec_psl(),
        c.spec_psl() + 1 < s.len(),
        c2.spec_key() == s[p]->0.spec_key(),
        c2.spec_value() == s[p]->0.spec_value(),
        c2.spec_psl() == psl_at(s, p) + 1,
    ensures
        walk_state(s.update(p, Some(c)), seed, m, c2, ring_next(p, s.len() as int)),
{
    reveal(walk_state);
    let n = s.len() as int;
    let s1 = s.update(p, Some(c));
    lemma_home_bound(seed, c2.spec_key()@, n);
    assert(s[p] is Some);
    assert forall|i: int|
        0 <= i < n && (#[trigger] s1[i]) is Some && psl_at(s1, i) > 0 implies {
        let j = ring_prev(i, n);
        s1[j] is Some && psl_at(s1, j) + 1 >= psl_at(s1, i)
    } by {
        if i != p {
            assert(s[i] is Some);
        }
    }
    assert forall|i: int, j: int|
        #![trigger s1[i], s1[j]]
        0 <= i < n && 0 <= j < n && s1[i] is Some && s1[j] is Some && s1[i]->0.spec_key()@
            == s1[j]->0.spec_key()@ implies i == j by {
        if i != p && j != p {
            assert(s[i] is Some && s[j] is Some);
        } else if i != p {
            assert(s[i] is Some);
        } else if j != p {
            assert(s[j] is Some);
        }
    }
    assert forall|i: int|
        0 <= i < n && (#[trigger] s1[i]) is Some implies {
        &&& s1[i]->0.spec_key()@ != c2.spec_key()@
        &&& m.contains_key(s1[i]->0.spec_key()@)
        &&& m[s1[i]->0.spec_key()@] == s1[i]->0.spec_value()
    } by {
        if i != p {
            assert(s[i] is Some);
            assert(s[p] is Some);
        }
    }
    assert forall|k: Seq<char>| #[trigger]
        m.contains_key(k) implies k == c2.spec_key()@ || exists|i: int| key_at(s1, i, k) by {
        if k == c.spec_key()@ {
            assert(key_at(s1, p, k));
        } else if k != c2.spec_key()@ {
            let i = choose|i: int| key_at(s, i, k);
            assert(key_at(s1, i, k));
        }
    }
    assert(ring_prev(ring_next(p, n), n) == p);
}

/// A candidate no poorer than the occupant walks on to the next slot, one
/// PSL higher.
pub(crate) proof fn lemma_walk_advance<V>(
    s: Seq<Option<KeyValuePair<String, V>>>,
    seed: u64,
    m: Map<Seq<char>, V>,
    c: KeyValuePair<String, V>,
    p: int,
    c2: KeyValuePair<String, V>,
)
    requires
        walk_state(s, seed, m, c, p),
        s[p] is Some,
        psl_at(s, p) >= c.spec_psl(),
        c.spec_psl() + 1 < s.len(),
        c2.spec_key() == c.spec_key(),
        c2.spec_value() == c.spec_value(),
        c2.spec_psl() == c.spec_psl() + 1,
    ensures
        walk_state(s, seed, m, c2, ring_next(p, s.len() as int)),
{
    reveal(walk_state);
    let n = s.len() as int;
    lemma_home_bound(seed, c.spec_key()@, n);
    assert(ring_prev(ring_next(p, n), n) == p);
}

/// Empty slots hold the empty contents.
pub proof fn lemma_empty_slots_inv<V>(s: Seq<Option<KeyValuePair<String, V>>>, seed: u64)
    requires
        forall|i: int| 0 <= i < s.len() ==> s[i] is None,
    ensures
        slots_inv(s, seed, Map::empty()),
{
    reveal(slots_inv);
}

} // verus!
