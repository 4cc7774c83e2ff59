//! The table: its slot array, the lookup, Robin Hood insertion,
//! backward-shift removal and growth, with their contracts over the table's
//! contents as a map from keys to values.
use crate::growth::{
    grown_capacity, lemma_grown_capacity, lemma_load_below_capacity, lemma_load_monotone,
    lemma_load_monotone_cap, lemma_product_fits,
};
use crate::key_hash::{hash_key, random_seed};
use crate::ring::{
    lemma_empty_cell_exists, lemma_occupied_count_none, lemma_occupied_count_update,
    occupied_count, ring_add, ring_dist,
};
use crate::slots::{
    home_of, key_at, lemma_absent, lemma_empty_slots_inv, lemma_home_bound, lemma_replace_value,
    lemma_shift_done, lemma_shift_move, lemma_shift_start, lemma_walk_advance, lemma_walk_place,
    lemma_walk_start, lemma_walk_swap, shift_state, slots_inv, walk_state,
};
use vstd::prelude::*;

verus! {

/// One stored entry: a key, its value, and its probing sequence length (the
/// number of slots it sits past its home slot).
pub struct KeyValuePair<K, V> {
    key: K,
    value: V,
    probing_sequence_length: usize,
}

impl<K, V> KeyValuePair<K, V> {
    /// The entry's key.
    pub closed spec fn spec_key(&self) -> K {
        self.key
    }

    /// The entry's value.
    pub closed spec fn spec_value(&self) -> V {
        self.value
    }

    /// The entry's probing sequence length.
    pub closed spec fn spec_psl(&self) -> nat {
        self.probing_sequence_length as nat
    }

    /// An entry holding `key` and `value` at probing sequence length `psl`.
    pub fn new(key: K, value: V, psl: usize) -> (r: Self)
        ensures
            r.spec_key() == key,
            r.spec_value() == value,
            r.spec_psl() == psl,
    {
        Self { key, value, probing_sequence_length: psl }
    }
}

/// The errors a table operation can return.
#[derive(Debug, Clone, Copy, PartialEq, Eq)]
pub enum TableError {
    /// The load factor is not strictly between 0 and 1, or the capacity is 0.
    InvalidConfiguration,
    /// Growth needs a capacity that does not fit in `usize`.
    AllocationFailure,
}

/// An open-addressing hash table from `String` keys to values of type `V`,
/// with Robin Hood displacement and backward-shift deletion. Its maximum
/// load factor is the fraction `max_load_numerator / max_load_denominator`.
pub struct RobinHoodHashTable<V> {
    capacity: usize,
    num_entries: usize,
    max_load_numerator: u64,
    max_load_denominator: u64,
    table: Vec<Option<KeyValuePair<String, V>>>,
    hash_seed: u64,
    entries: Ghost<Map<Seq<char>, V>>,
}

impl<V> View for RobinHoodHashTable<V> {
    type V = Map<Seq<char>, V>;

    closed spec fn view(&self) -> Map<Seq<char>, V> {
        self.entries@
    }
}

impl<V> RobinHoodHashTable<V> {
    /// The number of slots.
    pub closed spec fn spec_capacity(&self) -> nat {
        self.capacity as nat
    }

    /// The seed of the key hash.
    pub closed spec fn spec_seed(&self) -> u64 {
        self.hash_seed
    }

    /// The numerator of the maximum load factor.
    pub closed spec fn spec_load_numerator(&self) -> nat {
        self.max_load_numerator as nat
    }

    /// The denominator of the maximum load factor.
    pub closed spec fn spec_load_denominator(&self) -> nat {
        self.max_load_denominator as nat
    }

    /// Whether slot `i` is occupied.
    pub closed spec fn slot_occupied(&self, i: int) -> bool {
        self.table@[i] is Some
    }

    /// The key stored in slot `i`, where it is occupied.
    pub closed spec fn slot_key(&self, i: int) -> Seq<char> {
        self.table@[i]->0.key@
    }

    /// The PSL stored in slot `i`, where it is occupied.
    pub closed spec fn slot_psl(&self, i: int) -> nat {
        self.table@[i]->0.probing_sequence_length as nat
    }

    /// The table's invariant, all but the load bound.
    closed spec fn wf_core(&self) -> bool {
        &&& self.capacity >= 1
        &&& self.table@.len() == self.capacity
        &&& 0 < self.max_load_numerator < self.max_load_denominator
        &&& self.num_entries == occupied_count(self.table@)
        &&& self.entries@.dom().finite()
        &&& self.num_entries == self.entries@.len()
        &&& slots_inv(self.table@, self.hash_seed, self.entries@)
    }

    /// The table's invariant: slots consistent with the contents, and the
    /// entry count strictly below the maximum load.
    pub closed spec fn wf(&self) -> bool {
        &&& self.wf_core()
        &&& self.num_entries * self.max_load_denominator < self.max_load_numerator * self.capacity
    }

    /// An empty table of `capacity` slots whose maximum load factor is
    /// `max_load_numerator / max_load_denominator`, hashing keys under
    /// `seed`. The load factor must lie strictly between 0 and 1 and the
    /// capacity must be positive.
    pub fn with_seed(
        max_load_numerator: u64,
        max_load_denominator: u64,
        capacity: usize,
        seed: u64,
    ) -> (r: Result<Self, TableError>)
        ensures
            r is Err <==> (max_load_numerator == 0 || max_load_numerator >= max_load_denominator
                || capacity == 0),
            match r {
                Ok(t) => {
                    &&& t.wf()
                    &&& t@ == Map::<Seq<char>, V>::empty()
                    &&& t.spec_capacity() == capacity
                    &&& t.spec_seed() == seed
                    &&& t.spec_load_numerator() == max_load_numerator
                    &&& t.spec_load_denominator() == max_load_denominator
                },
                Err(e) => e == TableError::InvalidConfiguration,
            },
    {
        if max_load_numerator == 0 || max_load_numerator >= max_load_denominator || capacity == 0 {
            return Err(TableError::InvalidConfiguration);
        }
        let table = empty_slots(capacity);
        let t = RobinHoodHashTable {
            capacity,
            num_entries: 0,
            max_load_numerator,
            max_load_denominator,
            table,
            hash_seed: seed,
            entries: Ghost(Map::empty()),
        };
        proof {
            lemma_empty_slots_inv(t.table@, seed);
            lemma_occupied_count_none(t.table@);
            assert(0 < (max_load_numerator as int) * (capacity as int)) by (nonlinear_arith)
                requires
                    max_load_numerator > 0,
                    capacity > 0,
            ;
        }
        Ok(t)
    }

    /// An empty table as `with_seed` builds it, under a freshly drawn random
    /// seed.
    pub fn new(max_load_numerator: u64, max_load_denominator: u64, capacity: usize) -> (r: Result<
        Self,
        TableError,
    >)
        ensures
            r is Err <==> (max_load_numerator == 0 || max_load_numerator >= max_load_denominator
                || capacity == 0),
            match r {
                Ok(t) => {
                    &&& t.wf()
                    &&& t@ == Map::<Seq<char>, V>::empty()
                    &&& t.spec_capacity() == capacity
                    &&& t.spec_load_numerator() == max_load_numerator
                    &&& t.spec_load_denominator() == max_load_denominator
                },
                Err(e) => e == TableError::InvalidConfiguration,
            },
    {
        Self::with_seed(max_load_numerator, max_load_denominator, capacity, random_seed())
    }

    /// Maps `key` to `value`. A key already present has its value replaced
    /// in place (`Ok(true)`); a new key is placed by Robin Hood displacement
    /// (`Ok(false)`), after which the table grows, doubling its capacity
    /// until the entry count is below the maximum load, and rehashes. Where
    /// that capacity would not fit in `usize`, nothing changes and the
    /// result is `AllocationFailure`.
    pub fn insert(&mut self, key: String, value: V) -> (r: Result<bool, TableError>)
        requires
            old(self).wf(),
        ensures
            final(self).wf(),
            final(self).spec_seed() == old(self).spec_seed(),
            final(self).spec_load_numerator() == old(self).spec_load_numerator(),
            final(self).spec_load_denominator() == old(self).spec_load_denominator(),
            r is Err <==> (!old(self)@.contains_key(key@) && grown_capacity(
                old(self)@.len() + 1,
                old(self).spec_load_numerator(),
                old(self).spec_load_denominator(),
                old(self).spec_capacity(),
            ) is None),
            match r {
                Ok(replaced) => {
                    &&& replaced == old(self)@.contains_key(key@)
                    &&& final(self)@ == old(self)@.insert(key@, value)
                    &&& final(self).spec_capacity() == if replaced {
                        old(self).spec_capacity()
                    } else {
                        grown_capacity(
                            old(self)@.len() + 1,
                            old(self).spec_load_numerator(),
                            old(self).spec_load_denominator(),
                            old(self).spec_capacity(),
                        )->0
                    }
                },
                Err(e) => e == TableError::AllocationFailure && *final(self) == *old(self),
            },
    {
        match self.find_slot(&key) {
            Some(i) => {
                let psl = match &self.table[i] {
                    Some(e) => e.probing_sequence_length,
                    None => 0,
                };
                let ghost s = self.table@;
                let ghost m = self.entries@;
                let ghost k = key@;
                self.table[i] = Some(KeyValuePair { key, value, probing_sequence_length: psl });
                proof {
                    lemma_replace_value(s, self.hash_seed, m, i as int, self.table@[i as int]->0);
                    lemma_occupied_count_update(s, i as int, self.table@[i as int]);
                    reveal(slots_inv);
                    assert(m.dom().insert(k) =~= m.dom());
                }
                self.entries = Ghost(self.entries@.insert(key@, value));
                Ok(true)
            },
            None => {
                proof {
                    lemma_load_below_capacity(self.num_entries as int, self.capacity as int,
                        self.max_load_numerator as int, self.max_load_denominator as int);
                }
                match self.growth_target(self.num_entries + 1) {
                    None => Err(TableError::AllocationFailure),
                    Some(new_cap) => {
                        proof {
                            lemma_grown_capacity(
                                (self.num_entries + 1) as nat,
                                self.max_load_numerator as nat,
                                self.max_load_denominator as nat,
                                self.capacity as nat,
                            );
                            lemma_load_below_capacity((self.num_entries + 1) as int, new_cap as int,
                                self.max_load_numerator as int, self.max_load_denominator as int);
                        }
                        self.place_absent(key, value);
                        if new_cap != self.capacity {
                            self.rehash(new_cap);
                        }
                        Ok(false)
                    },
                }
            },
        }
    }

    /// Whether `key` is present; the probe stops early at an entry closer to
    /// its home slot than the probe has walked.
    pub fn contains(&self, key: String) -> (r: bool)
        requires
            self.wf(),
        ensures
            r == self@.contains_key(key@),
    {
        let r = self.find_slot(&key);
        proof {
            reveal(slots_inv);
            if r is Some {
                assert(self.table@[r->0 as int] is Some);
            }
        }
        r.is_some()
    }

    /// The value of `key`, if present.
    pub fn get(&self, key: String) -> (r: Option<&V>)
        requires
            self.wf(),
        ensures
            match r {
                Some(v) => self@.contains_key(key@) && *v == self@[key@],
                None => !self@.contains_key(key@),
            },
    {
        match self.find_slot(&key) {
            Some(i) => {
                proof {
                    reveal(slots_inv);
                }
                match &self.table[i] {
                    Some(e) => Some(&e.value),
                    None => None,
                }
            },
            None => None,
        }
    }

    /// Removes `key` and repairs the probe chain behind it by backward
    /// shift. Returns whether the key was present; an absent key leaves the
    /// table as it was.
    pub fn remove(&mut self, key: String) -> (r: bool)
        requires
            old(self).wf(),
        ensures
            final(self).wf(),
            r == old(self)@.contains_key(key@),
            final(self)@ == old(self)@.remove(key@),
            final(self).spec_capacity() == old(self).spec_capacity(),
            final(self).spec_seed() == old(self).spec_seed(),
            final(self).spec_load_numerator() == old(self).spec_load_numerator(),
            final(self).spec_load_denominator() == old(self).spec_load_denominator(),
            !r ==> *final(self) == *old(self),
    {
        match self.find_slot(&key) {
            None => {
                proof {
                    assert(self.entries@.remove(key@) =~= self.entries@);
                }
                false
            },
            Some(i) => {
                proof {
                    reveal(slots_inv);
                    lemma_load_below_capacity(self.num_entries as int, self.capacity as int,
                        self.max_load_numerator as int, self.max_load_denominator as int);
                }
                self.remove_at(i);
                proof {
                    lemma_load_monotone((self.num_entries + 1) as int, self.num_entries as int,
                        self.capacity as int, self.max_load_numerator as int,
                        self.max_load_denominator as int);
                }
                true
            },
        }
    }

    /// Doubles the capacity and rehashes every entry, in slot order, into
    /// the new array; `AllocationFailure`, with nothing changed, where the
    /// doubled capacity would not fit in `usize`.
    pub fn build_resized_table(&mut self) -> (r: Result<(), TableError>)
        requires
            old(self).wf(),
        ensures
            final(self).wf(),
            final(self)@ == old(self)@,
            final(self).spec_seed() == old(self).spec_seed(),
            final(self).spec_load_numerator() == old(self).spec_load_numerator(),
            final(self).spec_load_denominator() == old(self).spec_load_denominator(),
            r is Ok <==> 2 * old(self).spec_capacity() <= usize::MAX,
            match r {
                Ok(_) => final(self).spec_capacity() == 2 * old(self).spec_capacity(),
                Err(e) => e == TableError::AllocationFailure && *final(self) == *old(self),
            },
    {
        if self.capacity > usize::MAX / 2 {
            return Err(TableError::AllocationFailure);
        }
        let new_cap = self.capacity * 2;
        proof {
            lemma_load_below_capacity(self.num_entries as int, self.capacity as int,
                self.max_load_numerator as int, self.max_load_denominator as int);
            lemma_load_monotone_cap(self.num_entries as int, self.capacity as int, new_cap as int,
                self.max_load_numerator as int, self.max_load_denominator as int);
        }
        self.rehash(new_cap);
        Ok(())
    }

    /// The number of entries.
    pub fn len(&self) -> (r: usize)
        requires
            self.wf(),
        ensures
            r == self@.len(),
    {
        self.num_entries
    }

    /// The number of slots.
    pub fn capacity(&self) -> (r: usize)
        ensures
            r == self.spec_capacity(),
    {
        self.capacity
    }

    /// The home slot of `key`: its hash modulo the capacity.
    pub fn home_slot(&self, key: String) -> (r: usize)
        requires
            self.wf(),
        ensures
            r == home_of(self.spec_seed(), key@, self.spec_capacity() as int),
            r < self.spec_capacity(),
    {
        self.home_index(&key)
    }

    fn home_index(&self, key: &String) -> (r: usize)
        requires
            self.capacity >= 1,
        ensures
            r == home_of(self.hash_seed, key@, self.capacity as int),
            r < self.capacity,
    {
        proof {
            lemma_home_bound(self.hash_seed, key@, self.capacity as int);
        }
        (hash_key(self.hash_seed, key) % (self.capacity as u64)) as usize
    }

    /// The slot index of `key`, if present; the probe stops at an empty slot
    /// or at an entry closer to its home than the probe has walked.
    fn find_slot(&self, key: &String) -> (r: Option<usize>)
        requires
            self.wf_core(),
        ensures
            match r {
                Some(i) => key_at(self.table@, i as int, key@),
                None => !self@.contains_key(key@),
            },
    {
        let cap = self.capacity;
        let h = self.home_index(key);
        let mut p = h;
        let mut d: usize = 0;
        while d < cap
            invariant
                self.wf_core(),
                cap == self.capacity,
                h == home_of(self.hash_seed, key@, cap as int),
                h < cap,
                d <= cap,
                p < cap,
                d < cap ==> p == ring_add(h as int, d as int, cap as int),
                forall|e: int|
                    0 <= e < d ==> {
                        let c = #[trigger] ring_add(h as int, e, cap as int);
                        self.table@[c] is Some && self.table@[c]->0.spec_key()@ != key@
                    },
            decreases cap - d,
        {
            match &self.table[p] {
                None => {
                    proof {
                        lemma_absent(self.table@, self.hash_seed, self.entries@, key@, d as int);
                    }
                    return None;
                },
                Some(e) => {
                    if e.key == *key {
                        return Some(p);
                    }
                    if e.probing_sequence_length < d {
                        proof {
                            lemma_absent(self.table@, self.hash_seed, self.entries@, key@, d as int);
                        }
                        return None;
                    }
                },
            }
            d = d + 1;
            p = if p + 1 == cap { 0 } else { p + 1 };
        }
        proof {
            lemma_absent(self.table@, self.hash_seed, self.entries@, key@, d as int);
        }
        None
    }

    /// Places an entry for a key the table does not hold: walking from the
    /// key's home slot, the candidate takes the first empty slot, and takes
    /// over any slot whose occupant has a smaller PSL, the occupant then
    /// walking on as the candidate.
    fn place_absent(&mut self, key: String, value: V)
        requires
            old(self).wf_core(),
            !old(self)@.contains_key(key@),
            old(self).num_entries < old(self).capacity,
        ensures
            final(self).wf_core(),
            final(self)@ == old(self)@.insert(key@, value),
            final(self).capacity == old(self).capacity,
            final(self).hash_seed == old(self).hash_seed,
            final(self).max_load_numerator == old(self).max_load_numerator,
            final(self).max_load_denominator == old(self).max_load_denominator,
            final(self).num_entries == old(self).num_entries + 1,
    {
        let cap = self.capacity;
        let start = self.home_index(&key);
        let ghost seed = self.hash_seed;
        let ghost n = cap as int;
        let ghost m_new = self.entries@.insert(key@, value);
        let ghost s0 = self.table@;
        proof {
            lemma_empty_cell_exists(s0);
        }
        let ghost empty = choose|i: int| 0 <= i < s0.len() && s0[i] is None;
        let ghost e_off = ring_dist(start as int, empty, n);
        assert(ring_add(start as int, e_off, n) == empty);
        let mut cand = KeyValuePair { key, value, probing_sequence_length: 0 };
        proof {
            lemma_walk_start(s0, seed, self.entries@, cand, start as int);
        }
        let mut p = start;
        let ghost mut t: int = 0;
        loop
            invariant
                cap == self.capacity,
                cap == old(self).capacity,
                n == cap,
                self.table@.len() == cap,
                cap >= 1,
                start < cap,
                seed == self.hash_seed,
                0 < self.max_load_numerator < self.max_load_denominator,
                self.num_entries == old(self).num_entries,
                self.entries == old(self).entries,
                self.hash_seed == old(self).hash_seed,
                self.max_load_numerator == old(self).max_load_numerator,
                self.max_load_denominator == old(self).max_load_denominator,
                m_new == old(self).entries@.insert(key@, value),
                old(self).entries@.dom().finite(),
                !old(self).entries@.contains_key(key@),
                old(self).num_entries == old(self).entries@.len(),
                old(self).num_entries < cap,
                0 <= t <= e_off < n,
                p < cap,
                p == ring_add(start as int, t, n),
                self.table@[ring_add(start as int, e_off, n)] is None,
                cand.probing_sequence_length <= t,
                walk_state(self.table@, seed, m_new, cand, p as int),
                occupied_count(self.table@) == old(self).num_entries,
            decreases e_off - t,
        {
            let ghost s = self.table@;
            let ghost c = cand;
            let ghost pos = p as int;
            let cur = self.table[p].take();
            match cur {
                None => {
                    self.table[p] = Some(cand);
                    proof {
                        assert(self.table@ =~= s.update(pos, Some(c)));
                        lemma_walk_place(s, seed, m_new, c, pos);
                        lemma_occupied_count_update(s, pos, Some(c));
                        assert(m_new.dom() =~= old(self).entries@.dom().insert(key@));
                    }
                    self.num_entries = self.num_entries + 1;
                    self.entries = Ghost(m_new);
                    return;
                },
                Some(occ) => {
                    assert(t < e_off);
                    if occ.probing_sequence_length < cand.probing_sequence_length {
                        self.table[p] = Some(cand);
                        cand = occ;
                        cand.probing_sequence_length = cand.probing_sequence_length + 1;
                        p = if p + 1 == cap { 0 } else { p + 1 };
                        proof {
                            assert(self.table@ =~= s.update(pos, Some(c)));
                            lemma_walk_swap(s, seed, m_new, c, pos, cand);
                            lemma_occupied_count_update(s, pos, Some(c));
                        }
                    } else {
                        self.table[p] = Some(occ);
                        cand.probing_sequence_length = cand.probing_sequence_length + 1;
                        p = if p + 1 == cap { 0 } else { p + 1 };
                        proof {
                            assert(self.table@ =~= s);
                            lemma_walk_advance(s, seed, m_new, c, pos, cand);
                        }
                    }
                    proof {
                        t = t + 1;
                    }
                },
            }
        }
    }

    /// Empties slot `i` and repairs the run behind it by backward shift:
    /// each following entry with a positive PSL moves back one slot, until
    /// an empty slot or an entry at its home slot.
    fn remove_at(&mut self, i: usize)
        requires
            old(self).wf_core(),
            old(self).num_entries < old(self).capacity,
            i < old(self).capacity,
            old(self).table@[i as int] is Some,
        ensures
            final(self).wf_core(),
            final(self)@ == old(self)@.remove(old(self).table@[i as int]->0.key@),
            final(self).capacity == old(self).capacity,
            final(self).hash_seed == old(self).hash_seed,
            final(self).max_load_numerator == old(self).max_load_numerator,
            final(self).max_load_denominator == old(self).max_load_denominator,
            final(self).num_entries == old(self).num_entries - 1,
    {
        let cap = self.capacity;
        let ghost seed = self.hash_seed;
        let ghost n = cap as int;
        let ghost s0 = self.table@;
        let ghost k = s0[i as int]->0.key@;
        let ghost m_new = self.entries@.remove(k);
        proof {
            reveal(slots_inv);
            lemma_empty_cell_exists(s0);
            assert(s0[i as int] is Some);
        }
        let ghost empty = choose|j: int| 0 <= j < s0.len() && s0[j] is None;
        let ghost e_off = ring_dist(i as int, empty, n);
        assert(ring_add(i as int, e_off, n) == empty);
        assert(e_off > 0);
        let _ = self.table[i].take();
        proof {
            assert(self.table@ =~= s0.update(i as int, None));
            lemma_occupied_count_update(s0, i as int, None);
            lemma_shift_start(s0, seed, self.entries@, i as int);
            assert(m_new.dom() =~= self.entries@.dom().remove(k));
        }
        self.num_entries = self.num_entries - 1;
        self.entries = Ghost(m_new);
        let mut h = i;
        let ghost mut t: int = 0;
        loop
            invariant
                cap == self.capacity,
                cap == old(self).capacity,
                n == cap,
                self.table@.len() == cap,
                cap >= 1,
                seed == self.hash_seed,
                0 < self.max_load_numerator < self.max_load_denominator,
                self.num_entries == old(self).num_entries - 1,
                self.entries@ == m_new,
                m_new == old(self).entries@.remove(k),
                m_new.dom().finite(),
                self.num_entries == m_new.len(),
                self.hash_seed == old(self).hash_seed,
                self.max_load_numerator == old(self).max_load_numerator,
                self.max_load_denominator == old(self).max_load_denominator,
                s0 == old(self).table@,
                s0.len() == cap,
                k == s0[i as int]->0.key@,
                i < cap,
                0 <= t < e_off < n,
                h < cap,
                h == ring_add(i as int, t, n),
                self.table@[ring_add(i as int, e_off, n)] is None,
                shift_state(self.table@, seed, m_new, h as int),
                self.table@[h as int] is None,
                occupied_count(self.table@) == self.num_entries,
            decreases e_off - t,
        {
            let ghost s = self.table@;
            let nx = if h + 1 == cap { 0 } else { h + 1 };
            assert(nx == ring_add(i as int, t + 1, n));
            let next_psl = match &self.table[nx] {
                Some(e) => e.probing_sequence_length,
                None => 0,
            };
            if next_psl == 0 {
                proof {
                    lemma_shift_done(s, seed, m_new, h as int);
                }
                return;
            }
            assert(t + 1 < e_off);
            let moved = self.table[nx].take();
            let ghost s1 = self.table@;
            match moved {
                Some(mut e) => {
                    e.probing_sequence_length = e.probing_sequence_length - 1;
                    self.table[h] = Some(e);
                },
                None => {},
            }
            proof {
                let e2 = self.table@[h as int];
                assert(s1 =~= s.update(nx as int, None));
                assert(e2 is Some);
                assert(self.table@ =~= s1.update(h as int, e2));
                lemma_occupied_count_update(s, nx as int, None);
                lemma_occupied_count_update(s1, h as int, e2);
                lemma_shift_move(s, seed, m_new, h as int, e2->0);
                t = t + 1;
            }
            h = nx;
        }
    }

    /// Moves every entry into a fresh array of `new_cap` slots, visiting the
    /// old slots in index order and placing each entry anew.
    fn rehash(&mut self, new_cap: usize)
        requires
            old(self).wf_core(),
            old(self).num_entries < new_cap,
        ensures
            final(self).wf_core(),
            final(self)@ == old(self)@,
            final(self).capacity == new_cap,
            final(self).hash_seed == old(self).hash_seed,
            final(self).max_load_numerator == old(self).max_load_numerator,
            final(self).max_load_denominator == old(self).max_load_denominator,
            final(self).num_entries == old(self).num_entries,
    {
        let ghost seed = self.hash_seed;
        let ghost m_old = self.entries@;
        let ghost total = self.num_entries as int;
        let old_cap = self.capacity;
        let mut old_slots = empty_slots(new_cap);
        std::mem::swap(&mut self.table, &mut old_slots);
        let ghost orig = old_slots@;
        self.capacity = new_cap;
        self.num_entries = 0;
        self.entries = Ghost(Map::empty());
        proof {
            lemma_empty_slots_inv(self.table@, seed);
            lemma_occupied_count_none(self.table@);
        }
        let mut i: usize = 0;
        while i < old_cap
            invariant
                self.wf_core(),
                self.capacity == new_cap,
                self.hash_seed == seed,
                seed == old(self).hash_seed,
                self.max_load_numerator == old(self).max_load_numerator,
                self.max_load_denominator == old(self).max_load_denominator,
                m_old == old(self)@,
                total == old(self).num_entries,
                total < new_cap,
                old_cap == orig.len(),
                slots_inv(orig, seed, m_old),
                old_slots@.len() == old_cap,
                i <= old_cap,
                forall|j: int| i <= j < old_cap ==> old_slots@[j] == orig[j],
                forall|j: int| 0 <= j < i ==> old_slots@[j] is None,
                self.num_entries + occupied_count(old_slots@) == total,
                forall|k: Seq<char>| #[trigger]
                    self.entries@.contains_key(k) ==> m_old.contains_key(k) && self.entries@[k]
                        == m_old[k] && exists|j: int| 0 <= j < i && key_at(orig, j, k),
                forall|j: int|
                    0 <= j < i && (#[trigger] orig[j]) is Some ==> self.entries@.contains_key(
                        orig[j]->0.key@,
                    ),
            decreases old_cap - i,
        {
            let ghost s = old_slots@;
            let cur = old_slots[i].take();
            proof {
                assert(old_slots@ =~= s.update(i as int, None));
                lemma_occupied_count_update(s, i as int, None);
            }
            let ghost before = self.entries@;
            match cur {
                Some(e) => {
                    proof {
                        reveal(slots_inv);
                        assert(orig[i as int] is Some);
                        if before.contains_key(e.key@) {
                            let j = choose|j: int| 0 <= j < i && key_at(orig, j, e.key@);
                            assert(orig[j] is Some);
                        }
                    }
                    self.place_absent(e.key, e.value);
                    proof {
                        reveal(slots_inv);
                        assert forall|k: Seq<char>| #[trigger]
                            self.entries@.contains_key(k) implies m_old.contains_key(k)
                            && self.entries@[k] == m_old[k] && exists|j: int|
                            0 <= j < i + 1 && key_at(orig, j, k) by {
                            if k == e.key@ {
                                assert(key_at(orig, i as int, k));
                            } else {
                                assert(before.contains_key(k));
                            }
                        }
                    }
                },
                None => {},
            }
            i = i + 1;
        }
        proof {
            reveal(slots_inv);
            lemma_occupied_count_none(old_slots@);
            assert forall|k: Seq<char>| m_old.contains_key(k) implies #[trigger] self.entries@.contains_key(k) by {
                let j = choose|j: int| key_at(orig, j, k);
                assert(orig[j] is Some);
            }
            assert(self.entries@ =~= m_old);
        }
    }

    /// The capacity after growth for `count` entries: the current capacity
    /// if `count` is below the maximum load, otherwise the first doubling
    /// that is; `None` when that would not fit in `usize`.
    fn growth_target(&self, count: usize) -> (r: Option<usize>)
        requires
            self.capacity >= 1,
        ensures
            match r {
                Some(c) => grown_capacity(
                    count as nat,
                    self.max_load_numerator as nat,
                    self.max_load_denominator as nat,
                    self.capacity as nat,
                ) == Some(c as nat),
                None => grown_capacity(
                    count as nat,
                    self.max_load_numerator as nat,
                    self.max_load_denominator as nat,
                    self.capacity as nat,
                ) is None,
            },
    {
        let ghost g = grown_capacity(
            count as nat,
            self.max_load_numerator as nat,
            self.max_load_denominator as nat,
            self.capacity as nat,
        );
        let num = self.max_load_numerator;
        let den = self.max_load_denominator;
        let mut c = self.capacity;
        proof {
            lemma_product_fits(count as int, den as int);
        }
        let demand = (count as u128) * (den as u128);
        loop
            invariant
                c >= 1,
                demand == count as int * den as int,
                num == self.max_load_numerator,
                den == self.max_load_denominator,
                grown_capacity(count as nat, num as nat, den as nat, c as nat) == g,
                g == grown_capacity(
                    count as nat,
                    self.max_load_numerator as nat,
                    self.max_load_denominator as nat,
                    self.capacity as nat,
                ),
            decreases usize::MAX - c,
        {
            proof {
                lemma_product_fits(num as int, c as int);
            }
            if demand < (num as u128) * (c as u128) {
                assert(grown_capacity(count as nat, num as nat, den as nat, c as nat) == Some(
                    c as nat,
                ));
                return Some(c);
            }
            if c > usize::MAX / 2 {
                return None;
            }
            c = c * 2;
        }
    }
}

/// In every table that the operations produce, each occupied slot stores
/// its forward distance from its key's home slot, no key occupies two slots,
/// and the occupied slots hold exactly the keys of the contents.
pub proof fn lemma_slots_consistent<V>(t: &RobinHoodHashTable<V>)
    requires
        t.wf(),
    ensures
        forall|i: int|
            0 <= i < t.spec_capacity() && #[trigger] t.slot_occupied(i) ==> t.slot_psl(i)
                == ring_dist(
                home_of(t.spec_seed(), t.slot_key(i), t.spec_capacity() as int),
                i,
                t.spec_capacity() as int,
            ),
        forall|i: int, j: int|
            0 <= i < t.spec_capacity() && 0 <= j < t.spec_capacity() && #[trigger] t.slot_occupied(i)
                && #[trigger] t.slot_occupied(j) && t.slot_key(i) == t.slot_key(j) ==> i == j,
        forall|k: Seq<char>|
            #[trigger] t@.contains_key(k) <==> exists|i: int|
                0 <= i < t.spec_capacity() && t.slot_occupied(i) && t.slot_key(i) == k,
{
    reveal(slots_inv);
    let s = t.table@;
    let n = t.capacity as int;
    assert forall|i: int| 0 <= i < n && #[trigger] t.slot_occupied(i) implies t.slot_psl(i)
        == ring_dist(home_of(t.hash_seed, t.slot_key(i), n), i, n) by {
        assert(s[i] is Some);
    }
    assert forall|i: int, j: int|
        0 <= i < n && 0 <= j < n && #[trigger] t.slot_occupied(i) && #[trigger] t.slot_occupied(j)
            && t.slot_key(i) == t.slot_key(j) implies i == j by {
        assert(s[i] is Some && s[j] is Some);
    }
    assert forall|k: Seq<char>|
        #[trigger] t@.contains_key(k) <==> exists|i: int|
            0 <= i < n && t.slot_occupied(i) && t.slot_key(i) == k by {
        if t@.contains_key(k) {
            let i = choose|i: int| key_at(s, i, k);
            assert(t.slot_occupied(i) && t.slot_key(i) == k);
        }
        if exists|i: int| 0 <= i < n && t.slot_occupied(i) && t.slot_key(i) == k {
            let i = choose|i: int| 0 <= i < n && t.slot_occupied(i) && t.slot_key(i) == k;
            assert(s[i] is Some);
        }
    }
}

/// Every table that the operations produce holds fewer entries than the
/// maximum load allows: `len / capacity < numerator / denominator`.
pub proof fn lemma_load_bound<V>(t: &RobinHoodHashTable<V>)
    requires
        t.wf(),
    ensures
        t@.len() * t.spec_load_denominator() < t.spec_load_numerator() * t.spec_capacity(),
        t@.len() < t.spec_capacity(),
{
    lemma_load_below_capacity(t.num_entries as int, t.capacity as int,
        t.max_load_numerator as int, t.max_load_denominator as int);
}

/// After `insert(k, v)` succeeds, `contains(k)` holds and `get(k)` is `v`.
pub proof fn lemma_insert_then_lookup<V>(
    before: &RobinHoodHashTable<V>,
    after: &RobinHoodHashTable<V>,
    k: Seq<char>,
    v: V,
)
    requires
        after@ == before@.insert(k, v),
    ensures
        after@.contains_key(k),
        after@[k] == v,
{
}

/// Inserting a key twice leaves one entry for it, holding the later value:
/// the contents are those of the later insert alone.
pub proof fn lemma_insert_twice<V>(
    before: &RobinHoodHashTable<V>,
    middle: &RobinHoodHashTable<V>,
    after: &RobinHoodHashTable<V>,
    k: Seq<char>,
    v1: V,
    v2: V,
)
    requires
        middle@ == before@.insert(k, v1),
        after@ == middle@.insert(k, v2),
    ensures
        after@ == before@.insert(k, v2),
        after@[k] == v2,
{
    assert(after@ =~= before@.insert(k, v2));
}

/// After `insert(k, v)` and `remove(k)`, `contains(k)` is false, and a second
/// `remove(k)` finds nothing and changes nothing.
pub proof fn lemma_remove_after_insert<V>(
    before: &RobinHoodHashTable<V>,
    middle: &RobinHoodHashTable<V>,
    after: &RobinHoodHashTable<V>,
    k: Seq<char>,
    v: V,
)
    requires
        middle@ == before@.insert(k, v),
        after@ == middle@.remove(k),
    ensures
        !after@.contains_key(k),
        after@.remove(k) == after@,
{
    assert(after@.remove(k) =~= after@);
}

/// An insert of a new key that reaches the maximum load grows the table:
/// the capacity it ends with is larger, and every earlier key keeps its
/// value.
pub proof fn lemma_growth_keeps_entries<V>(
    before: &RobinHoodHashTable<V>,
    after: &RobinHoodHashTable<V>,
    k: Seq<char>,
    v: V,
)
    requires
        before.wf(),
        !before@.contains_key(k),
        (before@.len() + 1) * before.spec_load_denominator() >= before.spec_load_numerator()
            * before.spec_capacity(),
        grown_capacity(
            before@.len() + 1,
            before.spec_load_numerator(),
            before.spec_load_denominator(),
            before.spec_capacity(),
        ) is Some,
        after.spec_capacity() == grown_capacity(
            before@.len() + 1,
            before.spec_load_numerator(),
            before.spec_load_denominator(),
            before.spec_capacity(),
        )->0,
        after@ == before@.insert(k, v),
    ensures
        after.spec_capacity() > before.spec_capacity(),
        forall|k2: Seq<char>|
            #[trigger] before@.contains_key(k2) ==> after@.contains_key(k2) && after@[k2]
                == before@[k2],
{
    let c = before.capacity as nat;
    let count = before@.len() + 1;
    let num = before.max_load_numerator as nat;
    let den = before.max_load_denominator as nat;
    assert(c >= 1);
    assert(c * 2 <= usize::MAX);
    assert(grown_capacity(count, num, den, c) == grown_capacity(count, num, den, c * 2));
    lemma_grown_capacity(count, num, den, c * 2);
}

/// `n` empty slots.
fn empty_slots<V>(n: usize) -> (r: Vec<Option<KeyValuePair<String, V>>>)
    ensures
        r@.len() == n,
        forall|i: int| 0 <= i < n ==> r@[i] is None,
{
    let mut v: Vec<Option<KeyValuePair<String, V>>> = Vec::new();
    let mut i: usize = 0;
    while i < n
        invariant
            i <= n,
            v@.len() == i,
            forall|j: int| 0 <= j < i ==> v@[j] is None,
        decreases n - i,
    {
        v.push(None);
        i = i + 1;
    }
    v
}

} // verus!
