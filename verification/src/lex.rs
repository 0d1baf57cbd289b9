use vstd::prelude::*;

verus! {

/// The elements at `positions`, in order.
pub open spec fn selected<T>(elements: Seq<T>, positions: Seq<usize>) -> Seq<T> {
    Seq::new(positions.len(), |i: int| elements[positions[i] as int])
}

/// `c` holds, in order, a clone of `elements[positions[i]]` for each `i`.
pub open spec fn picks<T: Clone>(c: Seq<T>, elements: Seq<T>, positions: Seq<usize>) -> bool {
    &&& c.len() == positions.len()
    &&& forall|i: int| 0 <= i < c.len() ==> cloned::<T>(elements[positions[i] as int], #[trigger] c[i])
}

/// Entries grow strictly from left to right.
pub open spec fn strictly_increasing(s: Seq<usize>) -> bool {
    forall|i: int, j: int| 0 <= i < j < s.len() ==> s[i] < s[j]
}

/// Entries never shrink from left to right.
pub open spec fn non_decreasing(s: Seq<usize>) -> bool {
    forall|i: int, j: int| 0 <= i < j < s.len() ==> s[i] <= s[j]
}

/// Every entry is an index into a sequence of length `n`.
pub open spec fn bounded_by(s: Seq<usize>, n: nat) -> bool {
    forall|i: int| 0 <= i < s.len() ==> s[i] < n
}

/// `s` picks `s.len()` distinct indices out of `0..n`, listed in increasing order.
pub open spec fn is_combination(s: Seq<usize>, n: nat) -> bool {
    strictly_increasing(s) && bounded_by(s, n)
}

/// `s` picks `s.len()` indices out of `0..n`, repetitions allowed, listed in increasing order.
pub open spec fn is_multicombination(s: Seq<usize>, n: nat) -> bool {
    non_decreasing(s) && bounded_by(s, n)
}

/// `a` and `b` agree before index `j`, and `a` is smaller at `j`.
pub open spec fn first_difference(a: Seq<usize>, b: Seq<usize>, j: int) -> bool {
    &&& 0 <= j < a.len()
    &&& j < b.len()
    &&& a[j] < b[j]
    &&& forall|m: int| 0 <= m < j ==> a[m] == b[m]
}

/// Lexicographic order on sequences of one length.
pub open spec fn lex_lt(a: Seq<usize>, b: Seq<usize>) -> bool {
    &&& a.len() == b.len()
    &&& exists|j: int| first_difference(a, b, j)
}

/// `q` is the combination of `p.len()` out of `n` that comes right after `p` in lexicographic order.
pub open spec fn is_next_combination(p: Seq<usize>, q: Seq<usize>, n: nat) -> bool {
    &&& is_combination(q, n)
    &&& q.len() == p.len()
    &&& lex_lt(p, q)
    &&& forall|r: Seq<usize>|
        #![trigger is_combination(r, n), lex_lt(p, r)]
        is_combination(r, n) && r.len() == p.len() && lex_lt(p, r) ==> !lex_lt(r, q)
}

/// Some combination of `p.len()` out of `n` comes after `p` in lexicographic order.
pub open spec fn has_later_combination(p: Seq<usize>, n: nat) -> bool {
    exists|r: Seq<usize>| is_combination(r, n) && r.len() == p.len() && lex_lt(p, r)
}

/// `p` is the lexicographically least combination of its length out of `n`.
pub open spec fn is_first_combination(p: Seq<usize>, n: nat) -> bool {
    &&& is_combination(p, n)
    &&& forall|r: Seq<usize>|
        #![trigger is_combination(r, n)]
        is_combination(r, n) && r.len() == p.len() ==> !lex_lt(r, p)
}

/// `q` is the multicombination of `p.len()` out of `n` that comes right after `p` in
/// lexicographic order.
pub open spec fn is_next_multicombination(p: Seq<usize>, q: Seq<usize>, n: nat) -> bool {
    &&& is_multicombination(q, n)
    &&& q.len() == p.len()
    &&& lex_lt(p, q)
    &&& forall|r: Seq<usize>|
        #![trigger is_multicombination(r, n), lex_lt(p, r)]
        is_multicombination(r, n) && r.len() == p.len() && lex_lt(p, r) ==> !lex_lt(r, q)
}

/// Some multicombination of `p.len()` out of `n` comes after `p` in lexicographic order.
pub open spec fn has_later_multicombination(p: Seq<usize>, n: nat) -> bool {
    exists|r: Seq<usize>| is_multicombination(r, n) && r.len() == p.len() && lex_lt(p, r)
}

/// `p` is the lexicographically least multicombination of its length out of `n`.
pub open spec fn is_first_multicombination(p: Seq<usize>, n: nat) -> bool {
    &&& is_multicombination(p, n)
    &&& forall|r: Seq<usize>|
        #![trigger is_multicombination(r, n)]
        is_multicombination(r, n) && r.len() == p.len() ==> !lex_lt(r, p)
}

/// The indices `0, 1, ..., k - 1`.
pub open spec fn ascending_positions(k: nat) -> Seq<usize> {
    Seq::new(k, |i: int| i as usize)
}

/// `k` copies of index `0`.
pub open spec fn zero_positions(k: nat) -> Seq<usize> {
    Seq::new(k, |i: int| 0usize)
}

/// The entry at `j` can grow by one and keep the sequence a combination out of `n`
/// without touching the entries before it.
pub open spec fn has_gap(p: Seq<usize>, n: nat, j: int) -> bool {
    &&& p[j] + 1 < n
    &&& (j == p.len() - 1 || p[j] + 1 < p[j + 1])
}

/// `i` is the last index of `p` with a gap.
pub open spec fn is_last_gap(p: Seq<usize>, n: nat, i: int) -> bool {
    &&& 0 <= i < p.len()
    &&& has_gap(p, n, i)
    &&& forall|j: int| i < j < p.len() ==> !has_gap(p, n, j)
}

/// `i` is the last index of `p` whose entry is below `n - 1`.
pub open spec fn is_last_below_top(p: Seq<usize>, n: nat, i: int) -> bool {
    &&& 0 <= i < p.len()
    &&& p[i] + 1 < n
    &&& forall|j: int| i < j < p.len() ==> p[j] + 1 >= n
}

/// `p` up to `i`, then `p[i] + 1, p[i] + 2, ...` to the end.
pub open spec fn bump_from(p: Seq<usize>, i: int) -> Seq<usize> {
    Seq::new(p.len(), |m: int| if m < i { p[m] } else { (p[i] + 1 + (m - i)) as usize })
}

/// `p` up to `i`, then `p[i] + 1` to the end.
pub open spec fn raise_from(p: Seq<usize>, i: int) -> Seq<usize> {
    Seq::new(p.len(), |m: int| if m < i { p[m] } else { (p[i] + 1) as usize })
}

/// In a strictly increasing sequence, entries `j - i` apart differ by at least `j - i`.
pub proof fn lemma_increasing_spread(s: Seq<usize>, i: int, j: int)
    requires
        strictly_increasing(s),
        0 <= i <= j < s.len(),
    ensures
        s[j] - s[i] >= j - i,
    decreases j - i,
{
    if i < j {
        lemma_increasing_spread(s, i, j - 1);
    }
}

/// A combination of `k` out of `n` has `k <= n`, and its entry at `j` is at most `n - k + j`.
pub proof fn lemma_combination_ceiling(s: Seq<usize>, n: nat)
    requires
        is_combination(s, n),
    ensures
        s.len() <= n,
        forall|j: int| 0 <= j < s.len() ==> s[j] <= n - s.len() + j,
{
    if s.len() > 0 {
        let k = s.len() as int;
        lemma_increasing_spread(s, 0, k - 1);
        assert forall|j: int| 0 <= j < s.len() implies s[j] <= n - s.len() + j by {
            lemma_increasing_spread(s, j, k - 1);
        }
    }
}

/// Past the last gap, a combination is saturated: its entry at `j` is `n - k + j`.
proof fn lemma_saturated_tail(p: Seq<usize>, n: nat, i: int)
    requires
        is_combination(p, n),
        -1 <= i < p.len(),
        forall|j: int| i < j < p.len() ==> !has_gap(p, n, j),
    ensures
        forall|j: int| i < j < p.len() ==> p[j] == n - p.len() + j,
    decreases p.len() - i,
{
    let k = p.len() as int;
    if i + 1 < k {
        lemma_saturated_tail(p, n, i + 1);
        let j = i + 1;
        assert(!has_gap(p, n, j));
        if j < k - 1 {
            assert(p[j] < p[j + 1]);
        }
    }
}

/// Bumping a combination at its last gap gives the next combination.
pub proof fn lemma_bump_is_next(p: Seq<usize>, n: nat, i: int)
    requires
        is_combination(p, n),
        n <= usize::MAX,
        0 <= i < p.len(),
        has_gap(p, n, i),
        forall|j: int| i < j < p.len() ==> !has_gap(p, n, j),
    ensures
        is_next_combination(p, bump_from(p, i), n),
        p[i] + p.len() - i <= n,
{
    let k = p.len() as int;
    let q = bump_from(p, i);
    lemma_saturated_tail(p, n, i);
    if i < k - 1 {
        assert(p[i + 1] == n - k + i + 1);
    }
    assert(p[i] < n - k + i);
    assert(strictly_increasing(q)) by {
        assert forall|a: int, b: int| 0 <= a < b < q.len() implies q[a] < q[b] by {
            if a < i && b >= i {
                assert(p[a] < p[i]);
            }
        }
    }
    assert(first_difference(p, q, i));
    assert forall|r: Seq<usize>|
        #![trigger is_combination(r, n), lex_lt(p, r)]
        is_combination(r, n) && r.len() == p.len() && lex_lt(p, r) implies !lex_lt(r, q) by {
        let j = choose|j: int| first_difference(p, r, j);
        lemma_combination_ceiling(r, n);
        if lex_lt(r, q) {
            let jj = choose|jj: int| first_difference(r, q, jj);
            if j < i {
                if jj > j {
                    assert(r[j] == q[j]);
                }
                assert(false);
            } else if j == i {
                if jj > i {
                    assert(r[i] == q[i]);
                    lemma_increasing_spread(r, i, jj);
                }
                assert(false);
            } else {
                assert(p[j] == n - k + j);
                assert(false);
            }
        }
    }
}

/// A combination without a gap is the last one of its length.
pub proof fn lemma_gapless_is_last(p: Seq<usize>, n: nat)
    requires
        is_combination(p, n),
        forall|j: int| 0 <= j < p.len() ==> !has_gap(p, n, j),
    ensures
        !has_later_combination(p, n),
{
    let k = p.len() as int;
    lemma_saturated_tail(p, n, -1);
    if has_later_combination(p, n) {
        let r = choose|r: Seq<usize>| is_combination(r, n) && r.len() == p.len() && lex_lt(p, r);
        let j = choose|j: int| first_difference(p, r, j);
        lemma_combination_ceiling(r, n);
        assert(p[j] == n - k + j);
        assert(false);
    }
}

/// `0, 1, ..., k - 1` is the first combination of length `k` out of `n >= k`.
pub proof fn lemma_ascending_is_first(k: nat, n: nat)
    requires
        k <= n <= usize::MAX,
    ensures
        is_first_combination(ascending_positions(k), n),
{
    let p = ascending_positions(k);
    assert forall|r: Seq<usize>|
        #![trigger is_combination(r, n)]
        is_combination(r, n) && r.len() == p.len() implies !lex_lt(r, p) by {
        if lex_lt(r, p) {
            let j = choose|j: int| first_difference(r, p, j);
            lemma_increasing_spread(r, 0, j);
            assert(false);
        }
    }
}

/// Raising a multicombination from its last entry below `n - 1` gives the next one.
pub proof fn lemma_raise_is_next(p: Seq<usize>, n: nat, i: int)
    requires
        is_multicombination(p, n),
        n <= usize::MAX,
        0 <= i < p.len(),
        p[i] + 1 < n,
        forall|j: int| i < j < p.len() ==> p[j] + 1 >= n,
    ensures
        is_next_multicombination(p, raise_from(p, i), n),
{
    let q = raise_from(p, i);
    assert(non_decreasing(q)) by {
        assert forall|a: int, b: int| 0 <= a < b < q.len() implies q[a] <= q[b] by {
            if a < i && b >= i {
                assert(p[a] <= p[i]);
            }
        }
    }
    assert(first_difference(p, q, i));
    assert forall|r: Seq<usize>|
        #![trigger is_multicombination(r, n), lex_lt(p, r)]
        is_multicombination(r, n) && r.len() == p.len() && lex_lt(p, r) implies !lex_lt(r, q) by {
        let j = choose|j: int| first_difference(p, r, j);
        if lex_lt(r, q) {
            let jj = choose|jj: int| first_difference(r, q, jj);
            if j < i {
                if jj > j {
                    assert(r[j] == q[j]);
                }
                assert(false);
            } else if j == i {
                if jj > i {
                    assert(r[i] <= r[jj]);
                }
                assert(false);
            } else {
                assert(false);
            }
        }
    }
}

/// A multicombination whose entries all sit at `n - 1` is the last one of its length.
pub proof fn lemma_full_is_last(p: Seq<usize>, n: nat)
    requires
        is_multicombination(p, n),
        forall|j: int| 0 <= j < p.len() ==> p[j] + 1 >= n,
    ensures
        !has_later_multicombination(p, n),
{
    if has_later_multicombination(p, n) {
        let r = choose|r: Seq<usize>| is_multicombination(r, n) && r.len() == p.len() && lex_lt(p, r);
        let j = choose|j: int| first_difference(p, r, j);
        assert(false);
    }
}

/// `k` zeros are the first multicombination of length `k` out of any `n > 0`.
pub proof fn lemma_zeros_are_first(k: nat, n: nat)
    requires
        n > 0,
    ensures
        is_first_multicombination(zero_positions(k), n),
{
    let p = zero_positions(k);
    assert forall|r: Seq<usize>|
        #![trigger is_multicombination(r, n)]
        is_multicombination(r, n) && r.len() == p.len() implies !lex_lt(r, p) by {
        if lex_lt(r, p) {
            let j = choose|j: int| first_difference(r, p, j);
            assert(false);
        }
    }
}

/// No sequence longer than `n` is a combination out of `n`, so none comes after it.
pub proof fn lemma_no_later_when_overlong(p: Seq<usize>, n: nat)
    requires
        p.len() > n || p.len() == 0,
    ensures
        !has_later_combination(p, n),
{
    if has_later_combination(p, n) {
        let r = choose|r: Seq<usize>| is_combination(r, n) && r.len() == p.len() && lex_lt(p, r);
        lemma_combination_ceiling(r, n);
        let j = choose|j: int| first_difference(p, r, j);
        assert(false);
    }
}

/// Out of no elements there is no multicombination after any sequence.
pub proof fn lemma_no_later_multicombination_of_none(p: Seq<usize>)
    ensures
        !has_later_multicombination(p, 0),
{
    if has_later_multicombination(p, 0) {
        let r = choose|r: Seq<usize>| is_multicombination(r, 0) && r.len() == p.len() && lex_lt(p, r);
        let j = choose|j: int| first_difference(p, r, j);
        assert(r[j] < 0);
    }
}

} // verus!
