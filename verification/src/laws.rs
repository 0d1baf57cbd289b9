use crate::lex::{
    bump_from, first_difference, has_gap, has_later_combination, has_later_multicombination,
    is_combination, is_multicombination, is_next_combination, is_next_multicombination,
    lemma_bump_is_next, lemma_gapless_is_last, lemma_raise_is_next, lex_lt, raise_from,
};
use vstd::arithmetic::mul::lemma_mul_inequality;
use vstd::prelude::*;

verus! {

/// The number whose base-`b` digits, most significant first, are the entries of `s`.
pub open spec fn digits_value(s: Seq<usize>, b: nat) -> int
    decreases s.len(),
{
    if s.len() == 0 {
        0
    } else {
        digits_value(s.drop_last(), b) * b + s.last()
    }
}

/// The combination right after `p`, or `p` itself when none comes after it.
pub open spec fn combination_after(p: Seq<usize>, n: nat) -> Seq<usize> {
    if has_later_combination(p, n) {
        choose|q: Seq<usize>| is_next_combination(p, q, n)
    } else {
        p
    }
}

/// Where `m` steps from the combination `p` lead.
pub open spec fn combination_steps(p: Seq<usize>, n: nat, m: nat) -> Seq<usize>
    decreases m,
{
    if m == 0 {
        p
    } else {
        combination_steps(combination_after(p, n), n, (m - 1) as nat)
    }
}

/// The multicombination right after `p`, or `p` itself when none comes after it.
pub open spec fn multicombination_after(p: Seq<usize>, n: nat) -> Seq<usize> {
    if has_later_multicombination(p, n) {
        choose|q: Seq<usize>| is_next_multicombination(p, q, n)
    } else {
        p
    }
}

/// Where `m` steps from the multicombination `p` lead.
pub open spec fn multicombination_steps(p: Seq<usize>, n: nat, m: nat) -> Seq<usize>
    decreases m,
{
    if m == 0 {
        p
    } else {
        multicombination_steps(multicombination_after(p, n), n, (m - 1) as nat)
    }
}

/// Lexicographic order is transitive.
pub proof fn lemma_lex_transitive(a: Seq<usize>, b: Seq<usize>, c: Seq<usize>)
    requires
        lex_lt(a, b),
        lex_lt(b, c),
    ensures
        lex_lt(a, c),
{
    let i = choose|i: int| first_difference(a, b, i);
    let j = choose|j: int| first_difference(b, c, j);
    if i <= j {
        assert(first_difference(a, c, i));
    } else {
        assert(first_difference(a, c, j));
    }
}

/// Two different sequences of one length are ordered one way or the other.
pub proof fn lemma_lex_total(a: Seq<usize>, b: Seq<usize>)
    requires
        a.len() == b.len(),
        a != b,
    ensures
        lex_lt(a, b) || lex_lt(b, a),
{
    let j = first_mismatch(a, b, 0);
    if a[j] < b[j] {
        assert(first_difference(a, b, j));
    } else {
        assert(first_difference(b, a, j));
    }
}

/// The first index at or after `from` where `a` and `b` differ, given that they agree before
/// `from`.
proof fn first_mismatch(a: Seq<usize>, b: Seq<usize>, from: int) -> (j: int)
    requires
        a.len() == b.len(),
        a != b,
        0 <= from <= a.len(),
        forall|m: int| 0 <= m < from ==> a[m] == b[m],
    ensures
        from <= j < a.len(),
        a[j] != b[j],
        forall|m: int| 0 <= m < j ==> a[m] == b[m],
    decreases a.len() - from,
{
    if from == a.len() {
        assert(a =~= b);
        assert(false);
        from
    } else if a[from] != b[from] {
        from
    } else {
        first_mismatch(a, b, from + 1)
    }
}

/// Read as base-`b` numerals, sequences with digits below `b` keep their lexicographic order.
pub proof fn lemma_lex_preserves_value(x: Seq<usize>, y: Seq<usize>, b: nat)
    requires
        lex_lt(x, y),
        forall|i: int| 0 <= i < x.len() ==> x[i] < b,
        forall|i: int| 0 <= i < y.len() ==> y[i] < b,
    ensures
        digits_value(x, b) < digits_value(y, b),
    decreases x.len(),
{
    let j = choose|j: int| first_difference(x, y, j);
    let last = x.len() - 1;
    let xs = x.drop_last();
    let ys = y.drop_last();
    if j == last {
        assert(xs =~= ys);
    } else {
        assert(first_difference(xs, ys, j));
        lemma_lex_preserves_value(xs, ys, b);
        let vx = digits_value(xs, b);
        let vy = digits_value(ys, b);
        lemma_mul_inequality(vx + 1, vy, b as int);
        assert((vx + 1) * b == vx * b + b) by (nonlinear_arith);
    }
}

/// A combination that has a later one has a next one.
pub proof fn lemma_next_combination_exists(p: Seq<usize>, n: nat)
    requires
        is_combination(p, n),
        n <= usize::MAX,
        has_later_combination(p, n),
    ensures
        is_next_combination(p, combination_after(p, n), n),
{
    let i = last_gap(p, n, p.len() - 1);
    lemma_bump_is_next(p, n, i);
    assert(is_next_combination(p, bump_from(p, i), n));
}

/// The last index at or before `upto` with a gap, given that there is none after `upto` and
/// a later combination exists.
proof fn last_gap(p: Seq<usize>, n: nat, upto: int) -> (i: int)
    requires
        is_combination(p, n),
        has_later_combination(p, n),
        -1 <= upto < p.len(),
        forall|j: int| upto < j < p.len() ==> !has_gap(p, n, j),
    ensures
        0 <= i <= upto,
        has_gap(p, n, i),
        forall|j: int| i < j < p.len() ==> !has_gap(p, n, j),
    decreases upto + 1,
{
    if upto < 0 {
        lemma_gapless_is_last(p, n);
        -1
    } else if has_gap(p, n, upto) {
        upto
    } else {
        last_gap(p, n, upto - 1)
    }
}

/// A multicombination that has a later one has a next one.
pub proof fn lemma_next_multicombination_exists(p: Seq<usize>, n: nat)
    requires
        is_multicombination(p, n),
        n <= usize::MAX,
        has_later_multicombination(p, n),
    ensures
        is_next_multicombination(p, multicombination_after(p, n), n),
{
    let i = last_below_top(p, n, p.len() - 1);
    lemma_raise_is_next(p, n, i);
    assert(is_next_multicombination(p, raise_from(p, i), n));
}

/// The last index at or before `upto` whose entry is below `n - 1`, given that there is none
/// after `upto` and a later multicombination exists.
proof fn last_below_top(p: Seq<usize>, n: nat, upto: int) -> (i: int)
    requires
        is_multicombination(p, n),
        has_later_multicombination(p, n),
        -1 <= upto < p.len(),
        forall|j: int| upto < j < p.len() ==> p[j] + 1 >= n,
    ensures
        0 <= i <= upto,
        p[i] + 1 < n,
        forall|j: int| i < j < p.len() ==> p[j] + 1 >= n,
    decreases upto + 1,
{
    if upto < 0 {
        crate::lex::lemma_full_is_last(p, n);
        -1
    } else if p[upto] + 1 < n {
        upto
    } else {
        last_below_top(p, n, upto - 1)
    }
}

/// The combination that follows `p` is unique: any two sequences that both follow `p`
/// immediately are equal.
pub proof fn lemma_next_combination_unique(p: Seq<usize>, q1: Seq<usize>, q2: Seq<usize>, n: nat)
    requires
        is_next_combination(p, q1, n),
        is_next_combination(p, q2, n),
    ensures
        q1 == q2,
{
    if q1 != q2 {
        lemma_lex_total(q1, q2);
    }
}

/// The multicombination that follows `p` is unique.
pub proof fn lemma_next_multicombination_unique(
    p: Seq<usize>,
    q1: Seq<usize>,
    q2: Seq<usize>,
    n: nat,
)
    requires
        is_next_multicombination(p, q1, n),
        is_next_multicombination(p, q2, n),
    ensures
        q1 == q2,
{
    if q1 != q2 {
        lemma_lex_total(q1, q2);
    }
}

/// Stepping from a combination `p` to the next one, over and over, reaches every combination
/// of the same length that is not before `p`.
pub proof fn lemma_every_combination_reached(p: Seq<usize>, r: Seq<usize>, n: nat)
    requires
        is_combination(p, n),
        is_combination(r, n),
        n <= usize::MAX,
        r.len() == p.len(),
        p == r || lex_lt(p, r),
    ensures
        exists|m: nat| combination_steps(p, n, m) == r,
    decreases digits_value(r, n) - digits_value(p, n),
{
    if p == r {
        assert(combination_steps(p, n, 0) == r);
    } else {
        lemma_next_combination_exists(p, n);
        let q = combination_after(p, n);
        lemma_lex_preserves_value(p, q, n);
        if q == r {
            assert(combination_steps(q, n, 0) == r);
            assert(combination_steps(p, n, 1) == r);
        } else {
            lemma_lex_total(q, r);
            lemma_lex_preserves_value(q, r, n);
            lemma_every_combination_reached(q, r, n);
            let m = choose|m: nat| combination_steps(q, n, m) == r;
            assert(combination_steps(p, n, m + 1) == r);
        }
    }
}

/// Stepping from a multicombination `p` to the next one, over and over, reaches every
/// multicombination of the same length that is not before `p`.
pub proof fn lemma_every_multicombination_reached(p: Seq<usize>, r: Seq<usize>, n: nat)
    requires
        is_multicombination(p, n),
        is_multicombination(r, n),
        n <= usize::MAX,
        r.len() == p.len(),
        p == r || lex_lt(p, r),
    ensures
        exists|m: nat| multicombination_steps(p, n, m) == r,
    decreases digits_value(r, n) - digits_value(p, n),
{
    if p == r {
        assert(multicombination_steps(p, n, 0) == r);
    } else {
        lemma_next_multicombination_exists(p, n);
        let q = multicombination_after(p, n);
        lemma_lex_preserves_value(p, q, n);
        if q == r {
            assert(multicombination_steps(q, n, 0) == r);
            assert(multicombination_steps(p, n, 1) == r);
        } else {
            lemma_lex_total(q, r);
            lemma_lex_preserves_value(q, r, n);
            lemma_every_multicombination_reached(q, r, n);
            let m = choose|m: nat| multicombination_steps(q, n, m) == r;
            assert(multicombination_steps(p, n, m + 1) == r);
        }
    }
}

/// The positions that `next` moves a combination iterator to are exactly one step on from
/// the old ones.
pub proof fn lemma_next_is_one_step(p: Seq<usize>, q: Seq<usize>, n: nat)
    requires
        is_combination(p, n),
        n <= usize::MAX,
        is_next_combination(p, q, n),
    ensures
        q == combination_after(p, n),
        q == combination_steps(p, n, 1),
{
    lemma_next_combination_exists(p, n);
    lemma_next_combination_unique(p, q, combination_after(p, n), n);
    assert(combination_steps(combination_after(p, n), n, 0) == q);
}

/// The positions that `next` moves a combination-with-replacement iterator to are exactly
/// one step on from the old ones.
pub proof fn lemma_next_is_one_multistep(p: Seq<usize>, q: Seq<usize>, n: nat)
    requires
        is_multicombination(p, n),
        n <= usize::MAX,
        is_next_multicombination(p, q, n),
    ensures
        q == multicombination_after(p, n),
        q == multicombination_steps(p, n, 1),
{
    lemma_next_multicombination_exists(p, n);
    lemma_next_multicombination_unique(p, q, multicombination_after(p, n), n);
    assert(multicombination_steps(multicombination_after(p, n), n, 0) == q);
}

/// Taking one more step is stepping on from where `m` steps led; the places reached stay
/// combinations.
pub proof fn lemma_combination_step_more(p: Seq<usize>, n: nat, m: nat)
    requires
        is_combination(p, n),
        n <= usize::MAX,
    ensures
        combination_steps(p, n, m + 1) == combination_after(combination_steps(p, n, m), n),
        is_combination(combination_steps(p, n, m), n),
        combination_steps(p, n, m).len() == p.len(),
    decreases m,
{
    if has_later_combination(p, n) {
        lemma_next_combination_exists(p, n);
    }
    let q = combination_after(p, n);
    if m > 0 {
        lemma_combination_step_more(q, n, (m - 1) as nat);
        assert(combination_steps(p, n, m) == combination_steps(q, n, (m - 1) as nat));
        assert(combination_steps(p, n, m + 1) == combination_steps(q, n, m));
    } else {
        assert(combination_steps(q, n, 0) == q);
    }
}

/// Taking one more step is stepping on from where `m` steps led; the places reached stay
/// multicombinations.
pub proof fn lemma_multicombination_step_more(p: Seq<usize>, n: nat, m: nat)
    requires
        is_multicombination(p, n),
        n <= usize::MAX,
    ensures
        multicombination_steps(p, n, m + 1) == multicombination_after(
            multicombination_steps(p, n, m),
            n,
        ),
        is_multicombination(multicombination_steps(p, n, m), n),
        multicombination_steps(p, n, m).len() == p.len(),
    decreases m,
{
    if has_later_multicombination(p, n) {
        lemma_next_multicombination_exists(p, n);
    }
    let q = multicombination_after(p, n);
    if m > 0 {
        lemma_multicombination_step_more(q, n, (m - 1) as nat);
        assert(multicombination_steps(p, n, m) == multicombination_steps(q, n, (m - 1) as nat));
        assert(multicombination_steps(p, n, m + 1) == multicombination_steps(q, n, m));
    } else {
        assert(multicombination_steps(q, n, 0) == q);
    }
}

/// While later combinations remain, every step moves strictly forward in lexicographic
/// order, so no combination is visited twice.
pub proof fn lemma_steps_move_forward(p: Seq<usize>, n: nat, m: nat)
    requires
        is_combination(p, n),
        n <= usize::MAX,
        0 < m,
        forall|i: nat| i < m ==> has_later_combination(#[trigger] combination_steps(p, n, i), n),
    ensures
        lex_lt(p, combination_steps(p, n, m)),
        combination_steps(p, n, m) != p,
    decreases m,
{
    let prev = (m - 1) as nat;
    lemma_combination_step_more(p, n, prev);
    let before = combination_steps(p, n, prev);
    assert(has_later_combination(before, n));
    lemma_next_combination_exists(before, n);
    if prev > 0 {
        lemma_steps_move_forward(p, n, prev);
        lemma_lex_transitive(p, before, combination_steps(p, n, m));
    }
}

/// While later multicombinations remain, every step moves strictly forward in lexicographic
/// order, so no multicombination is visited twice.
pub proof fn lemma_multisteps_move_forward(p: Seq<usize>, n: nat, m: nat)
    requires
        is_multicombination(p, n),
        n <= usize::MAX,
        0 < m,
        forall|i: nat|
            i < m ==> has_later_multicombination(#[trigger] multicombination_steps(p, n, i), n),
    ensures
        lex_lt(p, multicombination_steps(p, n, m)),
        multicombination_steps(p, n, m) != p,
    decreases m,
{
    let prev = (m - 1) as nat;
    lemma_multicombination_step_more(p, n, prev);
    let before = multicombination_steps(p, n, prev);
    assert(has_later_multicombination(before, n));
    lemma_next_multicombination_exists(before, n);
    if prev > 0 {
        lemma_multisteps_move_forward(p, n, prev);
        lemma_lex_transitive(p, before, multicombination_steps(p, n, m));
    }
}

} // verus!
