use crate::lex::{
    ascending_positions, bounded_by, bump_from, has_gap, has_later_combination, is_combination,
    is_first_combination, is_next_combination, lemma_ascending_is_first, lemma_bump_is_next,
    lemma_gapless_is_last, lemma_increasing_spread, lemma_no_later_when_overlong, lex_lt, picks,
    is_last_gap, strictly_increasing,
};
use crate::laws::lemma_next_is_one_step;
use crate::runs::{combination_next_state, handed_out};
use crate::sorted_set::{is_sorted_dedup_of, iterable_to_sorted_set};
use vstd::prelude::*;

verus! {

/// An iterator which generates combinations over a set of elements.
///
/// The elements are kept sorted and free of repeats; `positions` holds the indices of the
/// current combination, and `next` hands out combinations in lexicographic order of their
/// positions: of one size (`of_size`) or of every size from the empty one upwards (`all`).
pub struct Combinations<T> {
    pub elements: Vec<T>,
    pub positions: Vec<usize>,
    pub all_sizes: bool,
    pub done: bool,
}

impl<T> Combinations<T> {
    /// The positions are a combination out of the elements, or, when more are asked for than
    /// there are elements, the indices `0, 1, ..., k - 1`.
    pub open spec fn positions_valid(&self) -> bool {
        let n = self.elements.len() as nat;
        let p = self.positions@;
        ||| is_combination(p, n)
        ||| (p.len() > n && p == ascending_positions(p.len()))
    }

    /// Whenever a combination is to be read, its positions index into the elements.
    pub open spec fn current_in_range(&self) -> bool {
        !self.done && self.positions.len() <= self.elements.len() ==> bounded_by(
            self.positions@,
            self.elements.len() as nat,
        )
    }
}

impl<T: Ord + Clone> Combinations<T> {
    /// Creates a new `Combinations` iterator which will yield all combinations of the elements
    /// in the given list.
    pub fn all(elements: Vec<T>) -> (combos: Self)
        ensures
            is_sorted_dedup_of(combos.elements@, elements@),
            combos.positions@ == Seq::<usize>::empty(),
            combos.all_sizes,
            !combos.done,
            combos.positions_valid(),
    {
        let combos = Combinations {
            elements: iterable_to_sorted_set(elements),
            positions: Vec::new(),
            all_sizes: true,
            done: false,
        };
        proof {
            lemma_ascending_is_first(0, combos.elements.len() as nat);
            assert(combos.positions@ == ascending_positions(0));
        }
        combos
    }

    /// Creates a new `Combinations` iterator which will yield all combinations with the
    /// specified size from the elements in the given list.
    pub fn of_size(elements: Vec<T>, size: usize) -> (combos: Self)
        ensures
            is_sorted_dedup_of(combos.elements@, elements@),
            combos.positions@ == ascending_positions(size as nat),
            size <= combos.elements.len() ==> is_first_combination(
                combos.positions@,
                combos.elements.len() as nat,
            ),
            !combos.all_sizes,
            !combos.done,
            combos.positions_valid(),
    {
        let mut positions: Vec<usize> = Vec::new();
        let mut i: usize = 0;
        while i < size
            invariant
                i <= size,
                positions@ == ascending_positions(i as nat),
            decreases size - i,
        {
            positions.push(i);
            i += 1;
            proof {
                assert(positions@ =~= ascending_positions(i as nat));
            }
        }
        let combos = Combinations {
            elements: iterable_to_sorted_set(elements),
            positions,
            all_sizes: false,
            done: false,
        };
        proof {
            if size <= combos.elements.len() {
                lemma_ascending_is_first(size as nat, combos.elements.len() as nat);
            }
        }
        combos
    }

    /// Adds another position indicator to the internal positions list and resets them to
    /// point to the first `n` indices in order.
    pub fn move_to_next_set_size(&mut self) -> (grown: bool)
        ensures
            grown == (old(self).positions.len() < old(self).elements.len()),
            grown ==> final(self).positions@ == ascending_positions((old(self).positions.len() + 1) as nat),
            grown ==> is_first_combination(final(self).positions@, final(self).elements.len() as nat),
            !grown ==> final(self).positions@ == old(self).positions@,
            final(self).elements@ == old(self).elements@,
            final(self).all_sizes == old(self).all_sizes,
            final(self).done == old(self).done,
    {
        if self.positions.len() >= self.elements.len() {
            return false;
        }
        let length = self.positions.len();
        let mut index: usize = 0;
        while index < length
            invariant
                index <= length,
                length == self.positions.len(),
                length < self.elements.len(),
                self.elements@ == old(self).elements@,
                self.all_sizes == old(self).all_sizes,
                self.done == old(self).done,
                forall|m: int| 0 <= m < index ==> self.positions@[m] == m,
            decreases length - index,
        {
            self.positions.set(index, index);
            index += 1;
        }
        self.positions.push(length);
        proof {
            assert(self.positions@ =~= ascending_positions(length as nat + 1));
            lemma_ascending_is_first(length as nat + 1, self.elements.len() as nat);
        }
        true
    }

    /// Increments the internal positions to correspond to the indices of the next combination
    /// of the same size. If the positions are successfully incremented at the current
    /// combination set size, then returns `true`. Otherwise, returns `false`.
    ///
    /// On any strictly increasing positions this bumps at the last gap; when the positions are
    /// a combination of the elements, that is the lexicographically next combination.
    pub fn move_to_next_position(&mut self) -> (moved: bool)
        requires
            strictly_increasing(old(self).positions@),
        ensures
            moved == exists|i: int| is_last_gap(old(self).positions@, old(self).elements.len() as nat, i),
            forall|i: int|
                is_last_gap(old(self).positions@, old(self).elements.len() as nat, i)
                    ==> final(self).positions@ == bump_from(old(self).positions@, i),
            !moved ==> final(self).positions@ == old(self).positions@,
            old(self).positions_valid() ==> moved == has_later_combination(
                old(self).positions@,
                old(self).elements.len() as nat,
            ),
            old(self).positions_valid() && moved ==> is_next_combination(
                old(self).positions@,
                final(self).positions@,
                old(self).elements.len() as nat,
            ),
            final(self).elements@ == old(self).elements@,
            final(self).all_sizes == old(self).all_sizes,
            final(self).done == old(self).done,
    {
        let n = self.elements.len();
        let ghost p = self.positions@;
        if n == 0 {
            proof {
                lemma_no_later_when_overlong(p, 0);
            }
            return false;
        }
        let length = self.positions.len();
        let mut index = length;
        while index > 0
            invariant
                index <= length,
                length == self.positions.len(),
                n == self.elements.len(),
                n > 0,
                *self == *old(self),
                p == self.positions@,
                strictly_increasing(p),
                forall|j: int| index <= j < length ==> !has_gap(p, n as nat, j),
            decreases index,
        {
            index -= 1;
            let cur = self.positions[index];
            if cur >= n - 1 {
                continue;
            }
            if index == length - 1 || cur < self.positions[index + 1] - 1 {
                let ghost q = bump_from(p, index as int);
                proof {
                    assert(is_last_gap(p, n as nat, index as int));
                    assert forall|m: int| index < m < length implies cur + 1 + (m - index)
                        <= p[m] by {
                        lemma_increasing_spread(p, index + 1, m);
                    }
                    if old(self).positions_valid() {
                        assert(is_combination(p, n as nat));
                        lemma_bump_is_next(p, n as nat, index as int);
                        assert(is_combination(q, n as nat) && q.len() == p.len() && lex_lt(p, q));
                    }
                }
                let mut next_position = cur + 1;
                self.positions.set(index, next_position);
                let mut i = index + 1;
                while i < length
                    invariant
                        index < i <= length,
                        length == self.positions.len(),
                        length == p.len(),
                        q == bump_from(p, index as int),
                        cur == p[index as int],
                        forall|m: int| index < m < length ==> cur + 1 + (m - index) <= p[m],
                        next_position == cur + (i - index),
                        self.elements@ == old(self).elements@,
                        self.all_sizes == old(self).all_sizes,
                        self.done == old(self).done,
                        forall|m: int| 0 <= m < i ==> self.positions@[m] == q[m],
                        forall|m: int| i <= m < length ==> self.positions@[m] == p[m],
                    decreases length - i,
                {
                    assert(cur + 1 + (i - index) <= p[i as int]);
                    next_position += 1;
                    self.positions.set(i, next_position);
                    i += 1;
                }
                proof {
                    assert(self.positions@ =~= q);
                    assert forall|i: int| is_last_gap(p, n as nat, i) implies i == index by {
                        if i < index {
                            assert(has_gap(p, n as nat, index as int));
                        }
                    }
                }
                return true;
            }
        }
        proof {
            if old(self).positions_valid() {
                if is_combination(p, n as nat) {
                    lemma_gapless_is_last(p, n as nat);
                } else {
                    lemma_no_later_when_overlong(p, n as nat);
                }
            }
        }
        false
    }

    /// Returns the current combination, if one exists and is valid.
    pub fn get_current_combination(&mut self) -> (combo: Option<Vec<T>>)
        requires
            old(self).current_in_range(),
        ensures
            *final(self) == *old(self),
            combo is None <==> (old(self).done || old(self).positions.len()
                > old(self).elements.len()),
            combo matches Some(c) ==> picks(c@, old(self).elements@, old(self).positions@),
    {
        if self.done || self.positions.len() > self.elements.len() {
            return None;
        }
        let mut combo: Vec<T> = Vec::new();
        let mut i: usize = 0;
        while i < self.positions.len()
            invariant
                *self == *old(self),
                self.current_in_range(),
                !self.done,
                self.positions.len() <= self.elements.len(),
                i <= self.positions.len(),
                combo@.len() == i,
                forall|m: int|
                    0 <= m < i ==> cloned::<T>(
                        self.elements@[self.positions@[m] as int],
                        #[trigger] combo@[m],
                    ),
            decreases self.positions.len() - i,
        {
            let item = self.elements[self.positions[i]].clone();
            combo.push(item);
            i += 1;
        }
        Some(combo)
    }

    /// Returns the next combination and advances the internal iterator.
    pub fn next(&mut self) -> (item: Option<Vec<T>>)
        requires
            old(self).positions_valid(),
        ensures
            final(self).positions_valid(),
            final(self).elements@ == old(self).elements@,
            final(self).all_sizes == old(self).all_sizes,
            old(self).done ==> item is None && *final(self) == *old(self),
            (final(self).positions@, final(self).done) == combination_next_state(
                (old(self).positions@, old(self).done),
                old(self).elements.len() as nat,
                old(self).all_sizes,
            ),
            item is None <==> handed_out(
                (old(self).positions@, old(self).done),
                old(self).elements.len() as nat,
            ) is None,
            !old(self).done ==> {
                let n = old(self).elements.len() as nat;
                let p = old(self).positions@;
                &&& (item is None <==> p.len() > n)
                &&& (item matches Some(c) ==> picks(c@, old(self).elements@, p))
                &&& if has_later_combination(p, n) {
                    !final(self).done && is_next_combination(p, final(self).positions@, n)
                } else if old(self).all_sizes && p.len() < n {
                    &&& !final(self).done
                    &&& final(self).positions@ == ascending_positions((p.len() + 1) as nat)
                    &&& is_first_combination(final(self).positions@, n)
                } else {
                    final(self).done && final(self).positions@ == p
                }
            },
    {
        if self.done {
            return None;
        }
        let combo = self.get_current_combination();
        if self.move_to_next_position() == false {
            if self.all_sizes == false || self.move_to_next_set_size() == false {
                self.done = true;
            }
        }
        proof {
            let n = old(self).elements.len() as nat;
            if has_later_combination(old(self).positions@, n) {
                if !(is_combination(old(self).positions@, n)) {
                    lemma_no_later_when_overlong(old(self).positions@, old(self).elements.len() as nat);
                }
                lemma_next_is_one_step(old(self).positions@, self.positions@, n);
            }
        }
        combo
    }
}

} // verus!
