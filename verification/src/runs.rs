use crate::laws::{
    combination_after, combination_steps, lemma_combination_step_more,
    lemma_every_combination_reached, lemma_lex_total, lemma_lex_transitive,
    lemma_next_combination_exists,
};
use crate::laws::{
    lemma_every_multicombination_reached, lemma_multicombination_step_more,
    lemma_next_multicombination_exists, multicombination_after, multicombination_steps,
};
use crate::lex::{
    has_later_multicombination, is_multicombination, lemma_full_is_last,
    lemma_no_later_multicombination_of_none, lemma_zeros_are_first, zero_positions,
    ascending_positions, has_gap, has_later_combination, is_combination,
    lemma_ascending_is_first, lemma_combination_ceiling, lemma_gapless_is_last, lemma_no_later_when_overlong, lex_lt,
};
use crate::counting::{
    all_combinations, all_multicombinations, binomial, binomial_prefix,
    lemma_binomials_sum_to_power, lemma_count_combinations, lemma_count_multicombinations,
    multichoose, multichoose_prefix, power_of_two,
};
use vstd::prelude::*;
use vstd::set_lib::{lemma_int_range, lemma_map_size, set_int_range};

verus! {

/// What one call of `Combinations::next` does to the positions and the `done` flag, out of
/// `n` elements.
pub open spec fn combination_next_state(state: (Seq<usize>, bool), n: nat, all_sizes: bool) -> (
    Seq<usize>,
    bool,
) {
    let (p, done) = state;
    if done {
        state
    } else if has_later_combination(p, n) {
        (combination_after(p, n), false)
    } else if all_sizes && p.len() < n {
        (ascending_positions((p.len() + 1) as nat), false)
    } else {
        (p, true)
    }
}

/// The positions of the combination that a call of `next` hands out from `state`, if any.
pub open spec fn handed_out(state: (Seq<usize>, bool), n: nat) -> Option<Seq<usize>> {
    if state.1 || state.0.len() > n {
        None
    } else {
        Some(state.0)
    }
}

/// The positions and `done` flag of a `Combinations` iterator after `m` calls of `next`.
pub open spec fn combination_run(state: (Seq<usize>, bool), n: nat, all_sizes: bool, m: nat) -> (
    Seq<usize>,
    bool,
)
    decreases m,
{
    if m == 0 {
        state
    } else {
        combination_next_state(combination_run(state, n, all_sizes, (m - 1) as nat), n, all_sizes)
    }
}

/// The last combination of length `k` out of `n`: `n - k, ..., n - 1`.
pub open spec fn top_positions(k: nat, n: nat) -> Seq<usize> {
    Seq::new(k, |i: int| (n - k + i) as usize)
}

/// The last multicombination of length `k` out of `n`: `k` copies of `n - 1`.
pub open spec fn full_positions(k: nat, n: nat) -> Seq<usize> {
    Seq::new(k, |i: int| (n - 1) as usize)
}

/// Running `a` calls and then `b` more is running `a + b` calls.
pub proof fn lemma_combination_run_compose(
    state: (Seq<usize>, bool),
    n: nat,
    all_sizes: bool,
    a: nat,
    b: nat,
)
    ensures
        combination_run(combination_run(state, n, all_sizes, a), n, all_sizes, b)
            == combination_run(state, n, all_sizes, a + b),
    decreases b,
{
    if b > 0 {
        lemma_combination_run_compose(state, n, all_sizes, a, (b - 1) as nat);
        assert(a + b - 1 == a + (b - 1) as nat);
    }
}

/// Once an iterator is done, further calls change nothing and hand out nothing.
pub proof fn lemma_combination_done_stays(state: (Seq<usize>, bool), n: nat, all_sizes: bool, m: nat)
    requires
        state.1,
    ensures
        combination_run(state, n, all_sizes, m) == state,
        handed_out(combination_run(state, n, all_sizes, m), n) is None,
    decreases m,
{
    if m > 0 {
        lemma_combination_done_stays(state, n, all_sizes, (m - 1) as nat);
    }
}

/// Asking for more elements than there are hands out nothing, and `of_size` is done after the
/// first call.
pub proof fn lemma_combination_overlong_run(k: nat, n: nat, m: nat)
    requires
        k > n,
    ensures
        handed_out(combination_run((ascending_positions(k), false), n, false, m), n) is None,
        m > 0 ==> combination_run((ascending_positions(k), false), n, false, m).1,
    decreases m,
{
    let start = (ascending_positions(k), false);
    lemma_no_later_when_overlong(ascending_positions(k), n);
    if m > 0 {
        let one = combination_run(start, n, false, 1);
        assert(combination_run(start, n, false, 0) == start);
        assert(one.1);
        lemma_combination_done_stays(one, n, false, (m - 1) as nat);
        lemma_combination_run_compose(start, n, false, 1, (m - 1) as nat);
    }
}

/// The first `m` with no combination after `combination_steps(p, n, m)`, searching from `i`.
proof fn first_stop(p: Seq<usize>, n: nat, i: nat, bound: nat) -> (stop: nat)
    requires
        i <= bound,
        !has_later_combination(combination_steps(p, n, bound), n),
        forall|j: nat| j < i ==> has_later_combination(#[trigger] combination_steps(p, n, j), n),
    ensures
        stop <= bound,
        !has_later_combination(combination_steps(p, n, stop), n),
        forall|j: nat| j < stop ==> has_later_combination(#[trigger] combination_steps(p, n, j), n),
    decreases bound - i,
{
    if !has_later_combination(combination_steps(p, n, i), n) {
        i
    } else {
        first_stop(p, n, i + 1, bound)
    }
}

/// Once no combination comes after the place reached in `stop` steps, further steps stay there.
proof fn lemma_steps_stay(p: Seq<usize>, n: nat, stop: nat, m: nat)
    requires
        is_combination(p, n),
        n <= usize::MAX,
        !has_later_combination(combination_steps(p, n, stop), n),
        stop <= m,
    ensures
        combination_steps(p, n, m) == combination_steps(p, n, stop),
    decreases m - stop,
{
    if m > stop {
        lemma_steps_stay(p, n, stop, (m - 1) as nat);
        lemma_combination_step_more(p, n, (m - 1) as nat);
    }
}

/// Before the stop, each step moves strictly forward, and so do runs of steps.
proof fn lemma_steps_climb(p: Seq<usize>, n: nat, stop: nat, m1: nat, m2: nat)
    requires
        is_combination(p, n),
        n <= usize::MAX,
        forall|j: nat| j < stop ==> has_later_combination(#[trigger] combination_steps(p, n, j), n),
        m1 < m2 <= stop,
    ensures
        lex_lt(combination_steps(p, n, m1), combination_steps(p, n, m2)),
    decreases m2 - m1,
{
    let before = (m2 - 1) as nat;
    lemma_combination_step_more(p, n, before);
    assert(has_later_combination(combination_steps(p, n, before), n));
    lemma_next_combination_exists(combination_steps(p, n, before), n);
    if m1 < before {
        lemma_steps_climb(p, n, stop, m1, before);
        lemma_lex_transitive(
            combination_steps(p, n, m1),
            combination_steps(p, n, before),
            combination_steps(p, n, m2),
        );
    }
}

/// Before the stop, the iterator sits at the steps from its start and is not done.
proof fn lemma_run_follows_steps(s: nat, n: nat, all_sizes: bool, stop: nat, m: nat)
    requires
        s <= n <= usize::MAX,
        forall|j: nat|
            j < stop ==> has_later_combination(
                #[trigger] combination_steps(ascending_positions(s), n, j),
                n,
            ),
        m <= stop,
    ensures
        combination_run((ascending_positions(s), false), n, all_sizes, m) == (
            combination_steps(ascending_positions(s), n, m),
            false,
        ),
    decreases m,
{
    let p0 = ascending_positions(s);
    if m > 0 {
        lemma_ascending_is_first(s, n);
        lemma_run_follows_steps(s, n, all_sizes, stop, (m - 1) as nat);
        lemma_combination_step_more(p0, n, (m - 1) as nat);
    }
}

/// A whole run over the combinations of one size. Started at `0, 1, ..., s - 1` with `s <= n`,
/// the iterator passes through the combinations of length `s` out of `n` in strictly
/// increasing lexicographic order, each one once and none left out, handing each one out;
/// after the last of them it moves to `0, 1, ..., s` when it makes every size and `s < n`,
/// and is done otherwise. The positions step forward `last` times, so `last + 1` is `n` choose
/// `s`, the number of combinations handed out.
pub proof fn lemma_combination_size_run(s: nat, n: nat, all_sizes: bool) -> (last: nat)
    requires
        s <= n <= usize::MAX,
    ensures
        forall|m: nat| m < last ==> has_later_combination(#[trigger] combination_steps(ascending_positions(s), n, m), n),
        !has_later_combination(combination_steps(ascending_positions(s), n, last), n),
        last + 1 == binomial(n, s),
        forall|m: nat|
            m <= last ==> combination_run((ascending_positions(s), false), n, all_sizes, m) == (
                combination_steps(ascending_positions(s), n, m),
                false,
            ),
        forall|m: nat|
            m <= last ==> is_combination(
                #[trigger] combination_steps(ascending_positions(s), n, m),
                n,
            ) && combination_steps(ascending_positions(s), n, m).len() == s,
        forall|m: nat|
            m <= last ==> handed_out(
                #[trigger] combination_run((ascending_positions(s), false), n, all_sizes, m),
                n,
            ) == Some(combination_steps(ascending_positions(s), n, m)),
        forall|m1: nat, m2: nat|
            m1 < m2 <= last ==> lex_lt(
                #[trigger] combination_steps(ascending_positions(s), n, m1),
                #[trigger] combination_steps(ascending_positions(s), n, m2),
            ),
        forall|r: Seq<usize>|
            is_combination(r, n) && r.len() == s ==> exists|m: nat|
                m <= last && #[trigger] combination_steps(ascending_positions(s), n, m) == r,
        combination_run((ascending_positions(s), false), n, all_sizes, last + 1) == (if all_sizes
            && s < n {
            (ascending_positions(s + 1), false)
        } else {
            (combination_steps(ascending_positions(s), n, last), true)
        }),
{
    let p0 = ascending_positions(s);
    let top = top_positions(s, n);
    lemma_ascending_is_first(s, n);
    assert(is_combination(top, n));
    assert forall|j: int| 0 <= j < top.len() implies !has_gap(top, n, j) by {}
    lemma_gapless_is_last(top, n);
    if p0 != top {
        lemma_lex_total(p0, top);
    }
    lemma_every_combination_reached(p0, top, n);
    let end = choose|m: nat| combination_steps(p0, n, m) == top;
    let last = first_stop(p0, n, 0, end);
    assert forall|m: nat| m <= last implies combination_run((p0, false), n, all_sizes, m) == (
        combination_steps(p0, n, m),
        false,
    ) by {
        lemma_run_follows_steps(s, n, all_sizes, last, m);
    }
    assert forall|m: nat| m <= last implies is_combination(
        #[trigger] combination_steps(p0, n, m),
        n,
    ) && combination_steps(p0, n, m).len() == s by {
        lemma_combination_step_more(p0, n, m);
    }
    assert forall|m: nat| m <= last implies handed_out(
        #[trigger] combination_run((p0, false), n, all_sizes, m),
        n,
    ) == Some(combination_steps(p0, n, m)) by {
        lemma_run_follows_steps(s, n, all_sizes, last, m);
        lemma_combination_step_more(p0, n, m);
    }
    assert forall|m1: nat, m2: nat| m1 < m2 <= last implies lex_lt(
        #[trigger] combination_steps(p0, n, m1),
        #[trigger] combination_steps(p0, n, m2),
    ) by {
        lemma_steps_climb(p0, n, last, m1, m2);
    }
    assert forall|r: Seq<usize>| is_combination(r, n) && r.len() == s implies exists|m: nat|
        m <= last && #[trigger] combination_steps(p0, n, m) == r by {
        if p0 != r {
            lemma_lex_total(p0, r);
        }
        lemma_every_combination_reached(p0, r, n);
        let m = choose|m: nat| combination_steps(p0, n, m) == r;
        if m > last {
            lemma_steps_stay(p0, n, last, m);
        }
    }
    lemma_run_follows_steps(s, n, all_sizes, last, last);
    lemma_combination_step_more(p0, n, last);
    let range = set_int_range(0, last + 1int);
    let f = |i: int| combination_steps(p0, n, i as nat);
    lemma_int_range(0, last + 1int);
    assert forall|i1: int, i2: int|
        range.contains(i1) && range.contains(i2) && #[trigger] f(i1) == #[trigger] f(i2) implies i1
        == i2 by {
        if i1 < i2 {
            assert(lex_lt(combination_steps(p0, n, i1 as nat), combination_steps(p0, n, i2 as nat)));
        } else if i2 < i1 {
            assert(lex_lt(combination_steps(p0, n, i2 as nat), combination_steps(p0, n, i1 as nat)));
        }
    }
    assert forall|r: Seq<usize>| range.map(f).contains(r) <==> all_combinations(n, s).contains(r) by {
        if range.map(f).contains(r) {
            let i = choose|i: int| range.contains(i) && f(i) == r;
            assert(combination_steps(p0, n, i as nat) == r);
        }
        if all_combinations(n, s).contains(r) {
            let m = choose|m: nat| m <= last && #[trigger] combination_steps(p0, n, m) == r;
            assert(f(m as int) == r);
            assert(range.contains(m as int));
        }
    }
    assert(range.map(f) =~= all_combinations(n, s));
    lemma_map_size(range, all_combinations(n, s), f);
    lemma_count_combinations(n, s);
    last
}

/// What one call of `CombinationsWithReplacement::next` does to the positions and the `done`
/// flag, out of `n` elements.
pub open spec fn multicombination_next_state(state: (Seq<usize>, bool), n: nat, all_sizes: bool) -> (
    Seq<usize>,
    bool,
) {
    let (p, done) = state;
    if done {
        state
    } else if has_later_multicombination(p, n) {
        (multicombination_after(p, n), false)
    } else if all_sizes && p.len() < n {
        (zero_positions((p.len() + 1) as nat), false)
    } else {
        (p, true)
    }
}

/// The positions and `done` flag of a `CombinationsWithReplacement` iterator after `m` calls
/// of `next`.
pub open spec fn multicombination_run(state: (Seq<usize>, bool), n: nat, all_sizes: bool, m: nat) -> (
    Seq<usize>,
    bool,
)
    decreases m,
{
    if m == 0 {
        state
    } else {
        multicombination_next_state(multicombination_run(state, n, all_sizes, (m - 1) as nat), n, all_sizes)
    }
}

/// Running `a` calls and then `b` more is running `a + b` calls.
pub proof fn lemma_multicombination_run_compose(
    state: (Seq<usize>, bool),
    n: nat,
    all_sizes: bool,
    a: nat,
    b: nat,
)
    ensures
        multicombination_run(multicombination_run(state, n, all_sizes, a), n, all_sizes, b)
            == multicombination_run(state, n, all_sizes, a + b),
    decreases b,
{
    if b > 0 {
        lemma_multicombination_run_compose(state, n, all_sizes, a, (b - 1) as nat);
        assert(a + b - 1 == a + (b - 1) as nat);
    }
}

/// Once an iterator is done, further calls change nothing and hand out nothing.
pub proof fn lemma_multicombination_done_stays(state: (Seq<usize>, bool), n: nat, all_sizes: bool, m: nat)
    requires
        state.1,
    ensures
        multicombination_run(state, n, all_sizes, m) == state,
        handed_out(multicombination_run(state, n, all_sizes, m), n) is None,
    decreases m,
{
    if m > 0 {
        lemma_multicombination_done_stays(state, n, all_sizes, (m - 1) as nat);
    }
}

/// The first `m` with no combination after `multicombination_steps(p, n, m)`, searching from `i`.
proof fn first_multi_stop(p: Seq<usize>, n: nat, i: nat, bound: nat) -> (stop: nat)
    requires
        i <= bound,
        !has_later_multicombination(multicombination_steps(p, n, bound), n),
        forall|j: nat| j < i ==> has_later_multicombination(#[trigger] multicombination_steps(p, n, j), n),
    ensures
        stop <= bound,
        !has_later_multicombination(multicombination_steps(p, n, stop), n),
        forall|j: nat| j < stop ==> has_later_multicombination(#[trigger] multicombination_steps(p, n, j), n),
    decreases bound - i,
{
    if !has_later_multicombination(multicombination_steps(p, n, i), n) {
        i
    } else {
        first_multi_stop(p, n, i + 1, bound)
    }
}

/// Once no combination comes after the place reached in `stop` steps, further steps stay there.
proof fn lemma_multisteps_stay(p: Seq<usize>, n: nat, stop: nat, m: nat)
    requires
        is_multicombination(p, n),
        n <= usize::MAX,
        !has_later_multicombination(multicombination_steps(p, n, stop), n),
        stop <= m,
    ensures
        multicombination_steps(p, n, m) == multicombination_steps(p, n, stop),
    decreases m - stop,
{
    if m > stop {
        lemma_multisteps_stay(p, n, stop, (m - 1) as nat);
        lemma_multicombination_step_more(p, n, (m - 1) as nat);
    }
}

/// Before the stop, each step moves strictly forward, and so do runs of steps.
proof fn lemma_multisteps_climb(p: Seq<usize>, n: nat, stop: nat, m1: nat, m2: nat)
    requires
        is_multicombination(p, n),
        n <= usize::MAX,
        forall|j: nat| j < stop ==> has_later_multicombination(#[trigger] multicombination_steps(p, n, j), n),
        m1 < m2 <= stop,
    ensures
        lex_lt(multicombination_steps(p, n, m1), multicombination_steps(p, n, m2)),
    decreases m2 - m1,
{
    let before = (m2 - 1) as nat;
    lemma_multicombination_step_more(p, n, before);
    assert(has_later_multicombination(multicombination_steps(p, n, before), n));
    lemma_next_multicombination_exists(multicombination_steps(p, n, before), n);
    if m1 < before {
        lemma_multisteps_climb(p, n, stop, m1, before);
        lemma_lex_transitive(
            multicombination_steps(p, n, m1),
            multicombination_steps(p, n, before),
            multicombination_steps(p, n, m2),
        );
    }
}

/// Before the stop, the iterator sits at the steps from its start and is not done.
proof fn lemma_multirun_follows_steps(s: nat, n: nat, all_sizes: bool, stop: nat, m: nat)
    requires
        0 < n <= usize::MAX,
        forall|j: nat|
            j < stop ==> has_later_multicombination(
                #[trigger] multicombination_steps(zero_positions(s), n, j),
                n,
            ),
        m <= stop,
    ensures
        multicombination_run((zero_positions(s), false), n, all_sizes, m) == (
            multicombination_steps(zero_positions(s), n, m),
            false,
        ),
    decreases m,
{
    let p0 = zero_positions(s);
    if m > 0 {
        lemma_zeros_are_first(s, n);
        lemma_multirun_follows_steps(s, n, all_sizes, stop, (m - 1) as nat);
        lemma_multicombination_step_more(p0, n, (m - 1) as nat);
    }
}

/// A whole run over the combinations with replacement of one size, out of `n > 0` elements.
/// Started at `s` zeros, the iterator passes through the multicombinations of length `s` out
/// of `n` in strictly increasing lexicographic order, each one once and none left out, handing
/// each one out when `s <= n` and none when `s > n`; after the last of them it moves to
/// `s + 1` zeros when it makes every size and `s < n`, and is done otherwise. The positions
/// step forward `last` times, so `last + 1` is `multichoose(n, s)`, which is `n + s - 1`
/// choose `s`.
pub proof fn lemma_multicombination_size_run(s: nat, n: nat, all_sizes: bool) -> (last: nat)
    requires
        0 < n <= usize::MAX,
    ensures
        forall|m: nat| m < last ==> has_later_multicombination(#[trigger] multicombination_steps(zero_positions(s), n, m), n),
        !has_later_multicombination(multicombination_steps(zero_positions(s), n, last), n),
        last + 1 == multichoose(n, s),
        forall|m: nat|
            m <= last ==> multicombination_run((zero_positions(s), false), n, all_sizes, m) == (
                multicombination_steps(zero_positions(s), n, m),
                false,
            ),
        forall|m: nat|
            m <= last ==> is_multicombination(
                #[trigger] multicombination_steps(zero_positions(s), n, m),
                n,
            ) && multicombination_steps(zero_positions(s), n, m).len() == s,
        forall|m: nat|
            m <= last ==> handed_out(
                #[trigger] multicombination_run((zero_positions(s), false), n, all_sizes, m),
                n,
            ) == if s <= n {
                Some(multicombination_steps(zero_positions(s), n, m))
            } else {
                None
            },
        forall|m1: nat, m2: nat|
            m1 < m2 <= last ==> lex_lt(
                #[trigger] multicombination_steps(zero_positions(s), n, m1),
                #[trigger] multicombination_steps(zero_positions(s), n, m2),
            ),
        forall|r: Seq<usize>|
            is_multicombination(r, n) && r.len() == s ==> exists|m: nat|
                m <= last && #[trigger] multicombination_steps(zero_positions(s), n, m) == r,
        multicombination_run((zero_positions(s), false), n, all_sizes, last + 1) == (if all_sizes
            && s < n {
            (zero_positions(s + 1), false)
        } else {
            (multicombination_steps(zero_positions(s), n, last), true)
        }),
{
    let p0 = zero_positions(s);
    let top = full_positions(s, n);
    lemma_zeros_are_first(s, n);
    assert(is_multicombination(top, n));
    lemma_full_is_last(top, n);
    if p0 != top {
        lemma_lex_total(p0, top);
    }
    lemma_every_multicombination_reached(p0, top, n);
    let end = choose|m: nat| multicombination_steps(p0, n, m) == top;
    let last = first_multi_stop(p0, n, 0, end);
    assert forall|m: nat| m <= last implies multicombination_run((p0, false), n, all_sizes, m) == (
        multicombination_steps(p0, n, m),
        false,
    ) by {
        lemma_multirun_follows_steps(s, n, all_sizes, last, m);
    }
    assert forall|m: nat| m <= last implies is_multicombination(
        #[trigger] multicombination_steps(p0, n, m),
        n,
    ) && multicombination_steps(p0, n, m).len() == s by {
        lemma_multicombination_step_more(p0, n, m);
    }
    assert forall|m: nat| m <= last implies handed_out(
        #[trigger] multicombination_run((p0, false), n, all_sizes, m),
        n,
    ) == if s <= n {
        Some(multicombination_steps(p0, n, m))
    } else {
        None
    } by {
        lemma_multirun_follows_steps(s, n, all_sizes, last, m);
        lemma_multicombination_step_more(p0, n, m);
    }
    assert forall|m1: nat, m2: nat| m1 < m2 <= last implies lex_lt(
        #[trigger] multicombination_steps(p0, n, m1),
        #[trigger] multicombination_steps(p0, n, m2),
    ) by {
        lemma_multisteps_climb(p0, n, last, m1, m2);
    }
    assert forall|r: Seq<usize>| is_multicombination(r, n) && r.len() == s implies exists|m: nat|
        m <= last && #[trigger] multicombination_steps(p0, n, m) == r by {
        if p0 != r {
            lemma_lex_total(p0, r);
        }
        lemma_every_multicombination_reached(p0, r, n);
        let m = choose|m: nat| multicombination_steps(p0, n, m) == r;
        if m > last {
            lemma_multisteps_stay(p0, n, last, m);
        }
    }
    lemma_multirun_follows_steps(s, n, all_sizes, last, last);
    lemma_multicombination_step_more(p0, n, last);
    let range = set_int_range(0, last + 1int);
    let f = |i: int| multicombination_steps(p0, n, i as nat);
    lemma_int_range(0, last + 1int);
    assert forall|i1: int, i2: int|
        range.contains(i1) && range.contains(i2) && #[trigger] f(i1) == #[trigger] f(i2) implies i1
        == i2 by {
        if i1 < i2 {
            assert(lex_lt(multicombination_steps(p0, n, i1 as nat), multicombination_steps(p0, n, i2 as nat)));
        } else if i2 < i1 {
            assert(lex_lt(multicombination_steps(p0, n, i2 as nat), multicombination_steps(p0, n, i1 as nat)));
        }
    }
    assert forall|r: Seq<usize>| range.map(f).contains(r) <==> all_multicombinations(n, s).contains(r) by {
        if range.map(f).contains(r) {
            let i = choose|i: int| range.contains(i) && f(i) == r;
            assert(multicombination_steps(p0, n, i as nat) == r);
        }
        if all_multicombinations(n, s).contains(r) {
            let m = choose|m: nat| m <= last && #[trigger] multicombination_steps(p0, n, m) == r;
            assert(f(m as int) == r);
            assert(range.contains(m as int));
        }
    }
    assert(range.map(f) =~= all_multicombinations(n, s));
    lemma_map_size(range, all_multicombinations(n, s), f);
    lemma_count_multicombinations(n, s);
    last
}

/// Out of no elements, a `CombinationsWithReplacement` iterator hands out the empty
/// combination if its positions are empty and nothing otherwise, and is done after one call.
pub proof fn lemma_multicombination_empty_run(p: Seq<usize>, all_sizes: bool, m: nat)
    ensures
        handed_out(multicombination_run((p, false), 0, all_sizes, 0), 0) == if p.len() == 0 {
            Some(p)
        } else {
            None
        },
        m > 0 ==> multicombination_run((p, false), 0, all_sizes, m) == (p, true),
    decreases m,
{
    lemma_no_later_multicombination_of_none(p);
    if m > 0 {
        let one = multicombination_run((p, false), 0, all_sizes, 1);
        assert(multicombination_run((p, false), 0, all_sizes, 0) == (p, false));
        lemma_multicombination_done_stays(one, 0, all_sizes, (m - 1) as nat);
        lemma_multicombination_run_compose((p, false), 0, all_sizes, 1, (m - 1) as nat);
    }
}

/// Shorter first, then lexicographic: the order in which `all` hands out combinations.
pub open spec fn shortlex_lt(a: Seq<usize>, b: Seq<usize>) -> bool {
    a.len() < b.len() || lex_lt(a, b)
}

/// A whole run of `Combinations::all` from size `s` on (`s = 0` for `all` itself): for some
/// number `total` of calls, every call before `total` hands out a combination of at least `s`
/// out of `n`, those combinations come in strictly increasing order of size and then
/// lexicographic order, every such combination is among them, and from call `total` on the
/// iterator is done. `total` adds up `n` choose `t` for `t` from `s` to `n`: `2^n` for `all`.
pub proof fn lemma_combination_all_run(s: nat, n: nat) -> (total: nat)
    requires
        s <= n <= usize::MAX,
    ensures
        total == binomial_prefix(n, n + 1) - binomial_prefix(n, s),
        s == 0 ==> total == power_of_two(n),
        forall|m: nat|
            m < total ==> {
                let state = #[trigger] combination_run((ascending_positions(s), false), n, true, m);
                &&& !state.1
                &&& handed_out(state, n) == Some(state.0)
                &&& is_combination(state.0, n)
                &&& s <= state.0.len()
            },
        forall|m: nat|
            m >= total ==> (#[trigger] combination_run(
                (ascending_positions(s), false),
                n,
                true,
                m,
            )).1,
        forall|m1: nat, m2: nat|
            m1 < m2 < total ==> shortlex_lt(
                (#[trigger] combination_run((ascending_positions(s), false), n, true, m1)).0,
                (#[trigger] combination_run((ascending_positions(s), false), n, true, m2)).0,
            ),
        forall|r: Seq<usize>|
            is_combination(r, n) && s <= r.len() ==> exists|m: nat|
                m < total && (#[trigger] combination_run(
                    (ascending_positions(s), false),
                    n,
                    true,
                    m,
                )).0 == r,
    decreases n - s,
{
    lemma_binomials_sum_to_power(n);
    let start = (ascending_positions(s), false);
    let last = lemma_combination_size_run(s, n, true);
    let after_size = combination_run(start, n, true, last + 1);
    if s == n {
        let total = last + 1;
        assert(binomial_prefix(n, n + 1) == binomial_prefix(n, n) + binomial(n, n));
        assert forall|m: nat| m >= total implies (#[trigger] combination_run(start, n, true, m)).1 by {
            lemma_combination_done_stays(after_size, n, true, (m - total) as nat);
            lemma_combination_run_compose(start, n, true, total, (m - total) as nat);
        }
        assert forall|r: Seq<usize>| is_combination(r, n) && s <= r.len() implies exists|m: nat|
            m < total && (#[trigger] combination_run(start, n, true, m)).0 == r by {
            lemma_combination_ceiling(r, n);
            let m = choose|m: nat|
                m <= last && #[trigger] combination_steps(ascending_positions(s), n, m) == r;
            assert(combination_run(start, n, true, m).0 == r);
        }
        assert forall|m1: nat, m2: nat| m1 < m2 < total implies shortlex_lt(
            (#[trigger] combination_run(start, n, true, m1)).0,
            (#[trigger] combination_run(start, n, true, m2)).0,
        ) by {
            assert(lex_lt(
                combination_steps(ascending_positions(s), n, m1),
                combination_steps(ascending_positions(s), n, m2),
            ));
        }
        total
    } else {
        let rest = lemma_combination_all_run(s + 1, n);
        let total = last + 1 + rest;
        assert(binomial_prefix(n, s + 1) == binomial_prefix(n, s) + binomial(n, s));
        assert(after_size == (ascending_positions(s + 1), false));
        assert forall|j: nat| #[trigger] combination_run(start, n, true, last + 1 + j)
            == combination_run((ascending_positions(s + 1), false), n, true, j) by {
            lemma_combination_run_compose(start, n, true, last + 1, j);
        }
        assert forall|m: nat| m < total implies {
            let state = #[trigger] combination_run(start, n, true, m);
            &&& !state.1
            &&& handed_out(state, n) == Some(state.0)
            &&& is_combination(state.0, n)
            &&& s <= state.0.len()
        } by {
            if m > last {
                let j = (m - last - 1) as nat;
                assert(combination_run(start, n, true, last + 1 + j) == combination_run(
                    (ascending_positions(s + 1), false),
                    n,
                    true,
                    j,
                ));
                assert(m == last + 1 + j);
            } else {
                assert(combination_steps(ascending_positions(s), n, m).len() == s);
            }
        }
        assert forall|m: nat| m >= total implies (#[trigger] combination_run(start, n, true, m)).1 by {
            let j = (m - last - 1) as nat;
            assert(combination_run(start, n, true, last + 1 + j) == combination_run(
                (ascending_positions(s + 1), false),
                n,
                true,
                j,
            ));
            assert(m == last + 1 + j);
        }
        assert forall|r: Seq<usize>| is_combination(r, n) && s <= r.len() implies exists|m: nat|
            m < total && (#[trigger] combination_run(start, n, true, m)).0 == r by {
            if r.len() == s {
                let m = choose|m: nat|
                    m <= last && #[trigger] combination_steps(ascending_positions(s), n, m) == r;
                assert(combination_run(start, n, true, m).0 == r);
            } else {
                let j = choose|j: nat|
                    j < rest && (#[trigger] combination_run(
                        (ascending_positions(s + 1), false),
                        n,
                        true,
                        j,
                    )).0 == r;
                assert(combination_run(start, n, true, last + 1 + j).0 == r);
            }
        }
        assert forall|m1: nat, m2: nat| m1 < m2 < total implies shortlex_lt(
            (#[trigger] combination_run(start, n, true, m1)).0,
            (#[trigger] combination_run(start, n, true, m2)).0,
        ) by {
            if m2 <= last {
                assert(lex_lt(
                    combination_steps(ascending_positions(s), n, m1),
                    combination_steps(ascending_positions(s), n, m2),
                ));
            } else {
                let j2 = (m2 - last - 1) as nat;
                assert(combination_run(start, n, true, last + 1 + j2) == combination_run(
                    (ascending_positions(s + 1), false),
                    n,
                    true,
                    j2,
                ));
                assert(m2 == last + 1 + j2);
                if m1 > last {
                    let j1 = (m1 - last - 1) as nat;
                    assert(combination_run(start, n, true, last + 1 + j1) == combination_run(
                        (ascending_positions(s + 1), false),
                        n,
                        true,
                        j1,
                    ));
                    assert(m1 == last + 1 + j1);
                } else {
                    assert(combination_steps(ascending_positions(s), n, m1).len() == s);
                    assert(combination_run(start, n, true, m1).0.len() == s);
                }
            }
        }
        total
    }
}

/// A whole run of `CombinationsWithReplacement::all` from size `s` on (`s = 0` for `all`
/// itself), out of `n > 0` elements: for some number `total` of calls, every call before
/// `total` hands out a multicombination of `s` to `n` out of `n`, those come in strictly
/// increasing order of size and then lexicographic order, every such multicombination is
/// among them, and from call `total` on the iterator is done. `total` adds up
/// `multichoose(n, t)` for `t` from `s` to `n`.
pub proof fn lemma_multicombination_all_run(s: nat, n: nat) -> (total: nat)
    requires
        0 < n <= usize::MAX,
        s <= n,
    ensures
        total == multichoose_prefix(n, n + 1) - multichoose_prefix(n, s),
        forall|m: nat|
            m < total ==> {
                let state = #[trigger] multicombination_run((zero_positions(s), false), n, true, m);
                &&& !state.1
                &&& handed_out(state, n) == Some(state.0)
                &&& is_multicombination(state.0, n)
                &&& s <= state.0.len() <= n
            },
        forall|m: nat|
            m >= total ==> (#[trigger] multicombination_run(
                (zero_positions(s), false),
                n,
                true,
                m,
            )).1,
        forall|m1: nat, m2: nat|
            m1 < m2 < total ==> shortlex_lt(
                (#[trigger] multicombination_run((zero_positions(s), false), n, true, m1)).0,
                (#[trigger] multicombination_run((zero_positions(s), false), n, true, m2)).0,
            ),
        forall|r: Seq<usize>|
            is_multicombination(r, n) && s <= r.len() <= n ==> exists|m: nat|
                m < total && (#[trigger] multicombination_run(
                    (zero_positions(s), false),
                    n,
                    true,
                    m,
                )).0 == r,
    decreases n - s,
{
    let start = (zero_positions(s), false);
    let last = lemma_multicombination_size_run(s, n, true);
    let after_size = multicombination_run(start, n, true, last + 1);
    if s == n {
        let total = last + 1;
        assert(multichoose_prefix(n, n + 1) == multichoose_prefix(n, n) + multichoose(n, n));
        assert forall|m: nat| m >= total implies (#[trigger] multicombination_run(start, n, true, m)).1 by {
            lemma_multicombination_done_stays(after_size, n, true, (m - total) as nat);
            lemma_multicombination_run_compose(start, n, true, total, (m - total) as nat);
        }
        assert forall|r: Seq<usize>| is_multicombination(r, n) && s <= r.len() <= n implies exists|m: nat|
            m < total && (#[trigger] multicombination_run(start, n, true, m)).0 == r by {
            let m = choose|m: nat|
                m <= last && #[trigger] multicombination_steps(zero_positions(s), n, m) == r;
            assert(multicombination_run(start, n, true, m).0 == r);
        }
        assert forall|m1: nat, m2: nat| m1 < m2 < total implies shortlex_lt(
            (#[trigger] multicombination_run(start, n, true, m1)).0,
            (#[trigger] multicombination_run(start, n, true, m2)).0,
        ) by {
            assert(lex_lt(
                multicombination_steps(zero_positions(s), n, m1),
                multicombination_steps(zero_positions(s), n, m2),
            ));
        }
        total
    } else {
        let rest = lemma_multicombination_all_run(s + 1, n);
        let total = last + 1 + rest;
        assert(multichoose_prefix(n, s + 1) == multichoose_prefix(n, s) + multichoose(n, s));
        assert(after_size == (zero_positions(s + 1), false));
        assert forall|j: nat| #[trigger] multicombination_run(start, n, true, last + 1 + j)
            == multicombination_run((zero_positions(s + 1), false), n, true, j) by {
            lemma_multicombination_run_compose(start, n, true, last + 1, j);
        }
        assert forall|m: nat| m < total implies {
            let state = #[trigger] multicombination_run(start, n, true, m);
            &&& !state.1
            &&& handed_out(state, n) == Some(state.0)
            &&& is_multicombination(state.0, n)
            &&& s <= state.0.len() <= n
        } by {
            if m > last {
                let j = (m - last - 1) as nat;
                assert(multicombination_run(start, n, true, last + 1 + j) == multicombination_run(
                    (zero_positions(s + 1), false),
                    n,
                    true,
                    j,
                ));
                assert(m == last + 1 + j);
            } else {
                assert(multicombination_steps(zero_positions(s), n, m).len() == s);
            }
        }
        assert forall|m: nat| m >= total implies (#[trigger] multicombination_run(start, n, true, m)).1 by {
            let j = (m - last - 1) as nat;
            assert(multicombination_run(start, n, true, last + 1 + j) == multicombination_run(
                (zero_positions(s + 1), false),
                n,
                true,
                j,
            ));
            assert(m == last + 1 + j);
        }
        assert forall|r: Seq<usize>| is_multicombination(r, n) && s <= r.len() <= n implies exists|m: nat|
            m < total && (#[trigger] multicombination_run(start, n, true, m)).0 == r by {
            if r.len() == s {
                let m = choose|m: nat|
                    m <= last && #[trigger] multicombination_steps(zero_positions(s), n, m) == r;
                assert(multicombination_run(start, n, true, m).0 == r);
            } else {
                let j = choose|j: nat|
                    j < rest && (#[trigger] multicombination_run(
                        (zero_positions(s + 1), false),
                        n,
                        true,
                        j,
                    )).0 == r;
                assert(multicombination_run(start, n, true, last + 1 + j).0 == r);
            }
        }
        assert forall|m1: nat, m2: nat| m1 < m2 < total implies shortlex_lt(
            (#[trigger] multicombination_run(start, n, true, m1)).0,
            (#[trigger] multicombination_run(start, n, true, m2)).0,
        ) by {
            if m2 <= last {
                assert(lex_lt(
                    multicombination_steps(zero_positions(s), n, m1),
                    multicombination_steps(zero_positions(s), n, m2),
                ));
            } else {
                let j2 = (m2 - last - 1) as nat;
                assert(multicombination_run(start, n, true, last + 1 + j2) == multicombination_run(
                    (zero_positions(s + 1), false),
                    n,
                    true,
                    j2,
                ));
                assert(m2 == last + 1 + j2);
                if m1 > last {
                    let j1 = (m1 - last - 1) as nat;
                    assert(multicombination_run(start, n, true, last + 1 + j1) == multicombination_run(
                        (zero_positions(s + 1), false),
                        n,
                        true,
                        j1,
                    ));
                    assert(m1 == last + 1 + j1);
                } else {
                    assert(multicombination_steps(zero_positions(s), n, m1).len() == s);
                    assert(multicombination_run(start, n, true, m1).0.len() == s);
                }
            }
        }
        total
    }
}

/// A whole run of `Combinations::of_size(_, k)` with `k <= n`: the run over the combinations
/// of length `k` (see `lemma_combination_size_run`), after which every call finds the
/// iterator done and hands out nothing.
pub proof fn lemma_combination_of_size_run(k: nat, n: nat) -> (last: nat)
    requires
        k <= n <= usize::MAX,
    ensures
        forall|m: nat| m < last ==> has_later_combination(#[trigger] combination_steps(ascending_positions(k), n, m), n),
        !has_later_combination(combination_steps(ascending_positions(k), n, last), n),
        last + 1 == binomial(n, k),
        forall|m: nat|
            m <= last ==> handed_out(
                #[trigger] combination_run((ascending_positions(k), false), n, false, m),
                n,
            ) == Some(combination_steps(ascending_positions(k), n, m)),
        forall|m1: nat, m2: nat|
            m1 < m2 <= last ==> lex_lt(
                #[trigger] combination_steps(ascending_positions(k), n, m1),
                #[trigger] combination_steps(ascending_positions(k), n, m2),
            ),
        forall|r: Seq<usize>|
            is_combination(r, n) && r.len() == k ==> exists|m: nat|
                m <= last && #[trigger] combination_steps(ascending_positions(k), n, m) == r,
        forall|m: nat|
            m > last ==> (#[trigger] combination_run((ascending_positions(k), false), n, false, m)).1
                && handed_out(combination_run((ascending_positions(k), false), n, false, m), n)
                is None,
{
    let start = (ascending_positions(k), false);
    let last = lemma_combination_size_run(k, n, false);
    let end = combination_run(start, n, false, last + 1);
    assert forall|m: nat| m > last implies (#[trigger] combination_run(start, n, false, m)).1
        && handed_out(combination_run(start, n, false, m), n) is None by {
        lemma_combination_done_stays(end, n, false, (m - last - 1) as nat);
        lemma_combination_run_compose(start, n, false, last + 1, (m - last - 1) as nat);
        assert(last + 1 + (m - last - 1) as nat == m);
    }
    last
}

/// A whole run of `CombinationsWithReplacement::of_size(_, k)` out of `n > 0` elements: the
/// run over the multicombinations of length `k` (see `lemma_multicombination_size_run`), after
/// which every call finds the iterator done and hands out nothing.
pub proof fn lemma_multicombination_of_size_run(k: nat, n: nat) -> (last: nat)
    requires
        0 < n <= usize::MAX,
    ensures
        forall|m: nat| m < last ==> has_later_multicombination(#[trigger] multicombination_steps(zero_positions(k), n, m), n),
        !has_later_multicombination(multicombination_steps(zero_positions(k), n, last), n),
        last + 1 == multichoose(n, k),
        forall|m: nat|
            m <= last ==> handed_out(
                #[trigger] multicombination_run((zero_positions(k), false), n, false, m),
                n,
            ) == if k <= n {
                Some(multicombination_steps(zero_positions(k), n, m))
            } else {
                None
            },
        forall|m1: nat, m2: nat|
            m1 < m2 <= last ==> lex_lt(
                #[trigger] multicombination_steps(zero_positions(k), n, m1),
                #[trigger] multicombination_steps(zero_positions(k), n, m2),
            ),
        forall|r: Seq<usize>|
            is_multicombination(r, n) && r.len() == k ==> exists|m: nat|
                m <= last && #[trigger] multicombination_steps(zero_positions(k), n, m) == r,
        forall|m: nat|
            m > last ==> (#[trigger] multicombination_run((zero_positions(k), false), n, false, m)).1
                && handed_out(multicombination_run((zero_positions(k), false), n, false, m), n)
                is None,
{
    let start = (zero_positions(k), false);
    let last = lemma_multicombination_size_run(k, n, false);
    let end = multicombination_run(start, n, false, last + 1);
    assert forall|m: nat| m > last implies (#[trigger] multicombination_run(start, n, false, m)).1
        && handed_out(multicombination_run(start, n, false, m), n) is None by {
        lemma_multicombination_done_stays(end, n, false, (m - last - 1) as nat);
        lemma_multicombination_run_compose(start, n, false, last + 1, (m - last - 1) as nat);
        assert(last + 1 + (m - last - 1) as nat == m);
    }
    last
}

} // verus!
