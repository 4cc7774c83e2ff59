//! Arithmetic on a ring of `cap` cells, and counting occupied cells.
use vstd::prelude::*;

verus! {

/// The cell after `i`, wrapping at `cap`.
pub open spec fn ring_next(i: int, cap: int) -> int {
    if i + 1 >= cap { 0 } else { i + 1 }
}

/// The cell before `i`, wrapping at `cap`.
pub open spec fn ring_prev(i: int, cap: int) -> int {
    if i == 0 { cap - 1 } else { i - 1 }
}

/// The number of forward steps from cell `from` to cell `to`.
pub open spec fn ring_dist(from: int, to: int, cap: int) -> int {
    if to >= from { to - from } else { to + cap - from }
}

/// The cell reached from `from` after `d` forward steps, for `d < cap`.
pub open spec fn ring_add(from: int, d: int, cap: int) -> int {
    if from + d < cap { from + d } else { from + d - cap }
}

/// The cell reached from `from` after `d` backward steps, for `d < cap`.
pub open spec fn ring_sub(from: int, d: int, cap: int) -> int {
    if from >= d { from - d } else { from + cap - d }
}

/// The number of occupied cells.
pub open spec fn occupied_count<T>(s: Seq<Option<T>>) -> nat
    decreases s.len(),
{
    if s.len() == 0 {
        0
    } else {
        occupied_count(s.drop_last()) + if s.last() is Some { 1nat } else { 0nat }
    }
}

/// Fewer occupied cells than cells leaves an empty cell.
pub proof fn lemma_empty_cell_exists<T>(s: Seq<Option<T>>)
    requires
        occupied_count(s) < s.len(),
    ensures
        exists|i: int| 0 <= i < s.len() && s[i] is None,
    decreases s.len(),
{
    if s.last() is None {
        assert(s[s.len() - 1] is None);
    } else {
        lemma_empty_cell_exists(s.drop_last());
        let i = choose|i: int| 0 <= i < s.len() - 1 && s.drop_last()[i] is None;
        assert(s[i] is None);
    }
}

/// Writing one cell moves the count by the change in that cell.
pub proof fn lemma_occupied_count_update<T>(s: Seq<Option<T>>, i: int, x: Option<T>)
    requires
        0 <= i < s.len(),
    ensures
        occupied_count(s.update(i, x)) as int == occupied_count(s) as int
            - (if s[i] is Some { 1int } else { 0int }) + (if x is Some { 1int } else { 0int }),
    decreases s.len(),
{
    let t = s.update(i, x);
    if i == s.len() - 1 {
        assert(t.drop_last() =~= s.drop_last());
    } else {
        assert(t.drop_last() =~= s.drop_last().update(i, x));
        lemma_occupied_count_update(s.drop_last(), i, x);
    }
}

/// A sequence of empty cells counts none.
pub proof fn lemma_occupied_count_none<T>(s: Seq<Option<T>>)
    requires
        forall|i: int| 0 <= i < s.len() ==> s[i] is None,
    ensures
        occupied_count(s) == 0,
    decreases s.len(),
{
    if s.len() > 0 {
        lemma_occupied_count_none(s.drop_last());
    }
}

} // verus!
