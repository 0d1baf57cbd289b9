use crate::lex::{
    bounded_by, has_later_multicombination, is_first_multicombination, is_multicombination,
    is_next_multicombination, lemma_full_is_last, lemma_no_later_multicombination_of_none,
    lemma_raise_is_next, lemma_zeros_are_first, lex_lt, picks, raise_from, zero_positions,
    is_last_below_top,
};
use crate::laws::lemma_next_is_one_multistep;
use crate::runs::{handed_out, multicombination_next_state};
use crate::sorted_set::{is_sorted_dedup_of, iterable_to_sorted_set};
use vstd::prelude::*;

verus! {

/// An iterator which generates combinations over a set of elements, with replacement.
///
/// The elements are kept sorted and free of repeats; `positions` holds the indices of the
/// current combination, in non-decreasing order, and `next` hands out combinations in
/// lexicographic order of their positions: of one size (`of_size`) or of every size from the
/// empty one up to the number of elements (`all`).
pub struct CombinationsWithReplacement<T> {
    pub elements: Vec<T>,
    pub positions: Vec<usize>,
    pub all_sizes: bool,
    pub done: bool,
}

impl<T> CombinationsWithReplacement<T> {
    /// The positions are a multicombination out of the elements, unless there are no elements.
    pub open spec fn positions_valid(&self) -> bool {
        self.elements.len() == 0 || is_multicombination(self.positions@, self.elements.len() as nat)
    }

    /// Whenever a combination is to be read, its positions index into the elements.
    pub open spec fn current_in_range(&self) -> bool {
        !self.done && self.positions.len() <= self.elements.len() ==> bounded_by(
            self.positions@,
            self.elements.len() as nat,
        )
    }
}

impl<T: Ord + Clone> CombinationsWithReplacement<T> {
    /// Creates a new `CombinationsWithReplacement` iterator which will yield all combinations
    /// with replacement of the elements in the given list.
    pub fn all(elements: Vec<T>) -> (combos: Self)
        ensures
            is_sorted_dedup_of(combos.elements@, elements@),
            combos.positions@ == Seq::<usize>::empty(),
            combos.all_sizes,
            !combos.done,
            combos.positions_valid(),
    {
        CombinationsWithReplacement {
            elements: iterable_to_sorted_set(elements),
            positions: Vec::new(),
            all_sizes: true,
            done: false,
        }
    }

    /// Creates a new `CombinationsWithReplacement` iterator which will yield all combinations
    /// with replacement of the specified size from the elements in the given list.
    pub fn of_size(elements: Vec<T>, size: usize) -> (combos: Self)
        ensures
            is_sorted_dedup_of(combos.elements@, elements@),
            combos.positions@ == zero_positions(size as nat),
            combos.elements.len() > 0 ==> is_first_multicombination(
                combos.positions@,
                combos.elements.len() as nat,
            ),
            !combos.all_sizes,
            !combos.done,
            combos.positions_valid(),
    {
        let mut positions: Vec<usize> = Vec::new();
        let mut i: usize = 0;
        while i < size
            invariant
                i <= size,
                positions@ == zero_positions(i as nat),
            decreases size - i,
        {
            positions.push(0);
            i += 1;
            proof {
                assert(positions@ =~= zero_positions(i as nat));
            }
        }
        let combos = CombinationsWithReplacement {
            elements: iterable_to_sorted_set(elements),
            positions,
            all_sizes: false,
            done: false,
        };
        proof {
            if combos.elements.len() > 0 {
                lemma_zeros_are_first(size as nat, combos.elements.len() as nat);
            }
        }
        combos
    }

    /// Adds another position indicator to the internal positions list and resets them to
    /// point to the first index of the elements.
    pub fn move_to_next_set_size(&mut self) -> (grown: bool)
        ensures
            grown == (old(self).positions.len() < old(self).elements.len()),
            grown ==> final(self).positions@ == zero_positions((old(self).positions.len() + 1) as nat),
            grown ==> is_first_multicombination(
                final(self).positions@,
                final(self).elements.len() as nat,
            ),
            !grown ==> final(self).positions@ == old(self).positions@,
            final(self).elements@ == old(self).elements@,
            final(self).all_sizes == old(self).all_sizes,
            final(self).done == old(self).done,
    {
        if self.positions.len() >= self.elements.len() {
            return false;
        }
        let length = self.positions.len();
        let mut index: usize = 0;
        while index < length
            invariant
                index <= length,
                length == self.positions.len(),
                length < self.elements.len(),
                self.elements@ == old(self).elements@,
                self.all_sizes == old(self).all_sizes,
                self.done == old(self).done,
                forall|m: int| 0 <= m < index ==> self.positions@[m] == 0,
            decreases length - index,
        {
            self.positions.set(index, 0);
            index += 1;
        }
        self.positions.push(0);
        proof {
            assert(self.positions@ =~= zero_positions(length as nat + 1));
            lemma_zeros_are_first(length as nat + 1, self.elements.len() as nat);
        }
        true
    }

    /// Increments the internal positions to correspond to the indices of the next combination
    /// of the same size. If the positions are successfully incremented at the current
    /// combination set size, then returns `true`. Otherwise, returns `false`.
    ///
    /// On any positions this raises everything from the last entry below `n - 1` to that entry
    /// plus one; when the positions are a multicombination of the elements, that is the
    /// lexicographically next one.
    pub fn move_to_next_position(&mut self) -> (moved: bool)
        ensures
            moved == exists|i: int|
                is_last_below_top(old(self).positions@, old(self).elements.len() as nat, i),
            forall|i: int|
                is_last_below_top(old(self).positions@, old(self).elements.len() as nat, i)
                    ==> final(self).positions@ == raise_from(old(self).positions@, i),
            !moved ==> final(self).positions@ == old(self).positions@,
            old(self).positions_valid() ==> moved == has_later_multicombination(
                old(self).positions@,
                old(self).elements.len() as nat,
            ),
            old(self).positions_valid() && moved ==> is_next_multicombination(
                old(self).positions@,
                final(self).positions@,
                old(self).elements.len() as nat,
            ),
            final(self).elements@ == old(self).elements@,
            final(self).all_sizes == old(self).all_sizes,
            final(self).done == old(self).done,
    {
        let n = self.elements.len();
        let ghost p = self.positions@;
        if n == 0 {
            proof {
                lemma_no_later_multicombination_of_none(p);
            }
            return false;
        }
        let length = self.positions.len();
        let mut index = length;
        while index > 0
            invariant
                index <= length,
                length == self.positions.len(),
                n == self.elements.len(),
                n > 0,
                *self == *old(self),
                p == self.positions@,
                forall|j: int| index <= j < length ==> p[j] + 1 >= n,
            decreases index,
        {
            index -= 1;
            let cur = self.positions[index];
            if cur >= n - 1 {
                continue;
            }
            let ghost q = raise_from(p, index as int);
            proof {
                assert(is_last_below_top(p, n as nat, index as int));
                if old(self).positions_valid() {
                    lemma_raise_is_next(p, n as nat, index as int);
                    assert(is_multicombination(q, n as nat) && q.len() == p.len() && lex_lt(p, q));
                }
            }
            let next_position = cur + 1;
            let mut i = index;
            while i < length
                invariant
                    index <= i <= length,
                    length == self.positions.len(),
                    length == p.len(),
                    q == raise_from(p, index as int),
                    cur == p[index as int],
                    cur + 1 < n,
                    next_position == cur + 1,
                    self.elements@ == old(self).elements@,
                    self.all_sizes == old(self).all_sizes,
                    self.done == old(self).done,
                    forall|m: int| 0 <= m < i ==> self.positions@[m] == q[m],
                    forall|m: int| i <= m < length ==> self.positions@[m] == p[m],
                decreases length - i,
            {
                self.positions.set(i, next_position);
                i += 1;
            }
            proof {
                assert(self.positions@ =~= q);
                assert forall|i: int| is_last_below_top(p, n as nat, i) implies i == index by {
                    if i < index {
                        assert(p[index as int] + 1 < n);
                    }
                }
            }
            return true;
        }
        proof {
            if old(self).positions_valid() {
                lemma_full_is_last(p, n as nat);
            }
        }
        false
    }

    /// Returns the current combination, if one exists and is valid.
    pub fn get_current_combination(&mut self) -> (combo: Option<Vec<T>>)
        requires
            old(self).current_in_range(),
        ensures
            *final(self) == *old(self),
            combo is None <==> (old(self).done || old(self).positions.len()
                > old(self).elements.len()),
            combo matches Some(c) ==> picks(c@, old(self).elements@, old(self).positions@),
    {
        if self.done || self.positions.len() > self.elements.len() {
            return None;
        }
        let mut combo: Vec<T> = Vec::new();
        let mut i: usize = 0;
        while i < self.positions.len()
            invariant
                *self == *old(self),
                self.current_in_range(),
                !self.done,
                self.positions.len() <= self.elements.len(),
                i <= self.positions.len(),
                combo@.len() == i,
                forall|m: int|
                    0 <= m < i ==> cloned::<T>(
                        self.elements@[self.positions@[m] as int],
                        #[trigger] combo@[m],
                    ),
            decreases self.positions.len() - i,
        {
            let item = self.elements[self.positions[i]].clone();
            combo.push(item);
            i += 1;
        }
        Some(combo)
    }

    /// Returns the next combination and advances the internal iterator.
    pub fn next(&mut self) -> (item: Option<Vec<T>>)
        requires
            old(self).positions_valid(),
        ensures
            final(self).positions_valid(),
            final(self).elements@ == old(self).elements@,
            final(self).all_sizes == old(self).all_sizes,
            old(self).done ==> item is None && *final(self) == *old(self),
            (final(self).positions@, final(self).done) == multicombination_next_state(
                (old(self).positions@, old(self).done),
                old(self).elements.len() as nat,
                old(self).all_sizes,
            ),
            item is None <==> handed_out(
                (old(self).positions@, old(self).done),
                old(self).elements.len() as nat,
            ) is None,
            !old(self).done ==> {
                let n = old(self).elements.len() as nat;
                let p = old(self).positions@;
                &&& (item is None <==> p.len() > n)
                &&& (item matches Some(c) ==> picks(c@, old(self).elements@, p))
                &&& if has_later_multicombination(p, n) {
                    !final(self).done && is_next_multicombination(p, final(self).positions@, n)
                } else if old(self).all_sizes && p.len() < n {
                    &&& !final(self).done
                    &&& final(self).positions@ == zero_positions((p.len() + 1) as nat)
                    &&& is_first_multicombination(final(self).positions@, n)
                } else {
                    final(self).done && final(self).positions@ == p
                }
            },
    {
        if self.done {
            return None;
        }
        let combo = self.get_current_combination();
        if self.move_to_next_position() == false {
            if self.all_sizes == false || self.move_to_next_set_size() == false {
                self.done = true;
            }
        }
        proof {
            let n = old(self).elements.len() as nat;
            if has_later_multicombination(old(self).positions@, n) {
                if !(n > 0 && is_multicombination(old(self).positions@, n)) {
                    lemma_no_later_multicombination_of_none(old(self).positions@);
                }
                lemma_next_is_one_multistep(old(self).positions@, self.positions@, n);
            }
        }
        combo
    }
}

} // verus!
