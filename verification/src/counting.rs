use crate::lex::{is_combination, is_multicombination};
use vstd::prelude::*;
use vstd::set_lib::{lemma_map_size, lemma_set_disjoint_lens};

verus! {

/// The binomial coefficient `n` choose `k`, by Pascal's rule.
pub open spec fn binomial(n: nat, k: nat) -> nat
    decreases n,
{
    if k == 0 {
        1
    } else if n == 0 {
        0
    } else {
        binomial((n - 1) as nat, (k - 1) as nat) + binomial((n - 1) as nat, k)
    }
}

/// The number of multisets of size `k` drawn from `n` kinds.
pub open spec fn multichoose(n: nat, k: nat) -> nat
    decreases n, k,
{
    if k == 0 {
        1
    } else if n == 0 {
        0
    } else {
        multichoose(n, (k - 1) as nat) + multichoose((n - 1) as nat, k)
    }
}

/// Every combination of length `k` out of `n`.
pub open spec fn all_combinations(n: nat, k: nat) -> Set<Seq<usize>> {
    Set::new(|r: Seq<usize>| is_combination(r, n) && r.len() == k)
}

/// Every multicombination of length `k` out of `n`.
pub open spec fn all_multicombinations(n: nat, k: nat) -> Set<Seq<usize>> {
    Set::new(|r: Seq<usize>| is_multicombination(r, n) && r.len() == k)
}

/// Every entry plus one.
pub open spec fn shift_up(q: Seq<usize>) -> Seq<usize> {
    Seq::new(q.len(), |i: int| (q[i] + 1) as usize)
}

/// Every entry minus one.
pub open spec fn shift_down(q: Seq<usize>) -> Seq<usize> {
    Seq::new(q.len(), |i: int| (q[i] - 1) as usize)
}

/// More than `n` out of `n` is impossible.
pub proof fn lemma_binomial_above(n: nat, k: nat)
    requires
        k > n,
    ensures
        binomial(n, k) == 0,
    decreases n,
{
    if n > 0 {
        lemma_binomial_above((n - 1) as nat, (k - 1) as nat);
        lemma_binomial_above((n - 1) as nat, k);
    }
}

/// Multisets of size `k` from `n > 0` kinds number `n + k - 1` choose `k`.
pub proof fn lemma_multichoose_is_binomial(n: nat, k: nat)
    requires
        n > 0,
    ensures
        multichoose(n, k) == binomial((n + k - 1) as nat, k),
    decreases n, k,
{
    if k > 0 {
        lemma_multichoose_is_binomial(n, (k - 1) as nat);
        if n > 1 {
            lemma_multichoose_is_binomial((n - 1) as nat, k);
            assert((n + k - 1) as nat - 1 == (n - 1 + k - 1) as nat);
        } else {
            assert(multichoose(0, k) == 0);
            lemma_binomial_above((k - 1) as nat, k);
        }
    }
}

/// There are `n` choose `k` combinations of length `k` out of `n`.
pub proof fn lemma_count_combinations(n: nat, k: nat)
    requires
        n <= usize::MAX,
    ensures
        all_combinations(n, k).finite(),
        all_combinations(n, k).len() == binomial(n, k),
    decreases n,
{
    let all = all_combinations(n, k);
    if k == 0 {
        assert forall|r: Seq<usize>| all.contains(r) <==> r == Seq::<usize>::empty() by {
            if r.len() == 0 {
                assert(r =~= Seq::<usize>::empty());
            }
        }
        assert(all =~= Set::empty().insert(Seq::<usize>::empty()));
    } else if n == 0 {
        assert forall|r: Seq<usize>| !all.contains(r) by {
            if all.contains(r) {
                assert(r[0] < 0);
            }
        }
        assert(all =~= Set::<Seq<usize>>::empty());
    } else {
        let m = (n - 1) as nat;
        let a = all_combinations(m, (k - 1) as nat);
        let b = all_combinations(m, k);
        lemma_count_combinations(m, (k - 1) as nat);
        lemma_count_combinations(m, k);
        let f = |q: Seq<usize>| seq![0usize] + shift_up(q);
        let g = |q: Seq<usize>| shift_up(q);
        assert forall|q1: Seq<usize>, q2: Seq<usize>|
            a.contains(q1) && a.contains(q2) && #[trigger] f(q1) == #[trigger] f(q2) implies q1
            == q2 by {
            assert forall|i: int| 0 <= i < q1.len() implies q1[i] == q2[i] by {
                assert(f(q1)[i + 1] == f(q2)[i + 1]);
            }
            assert(q1 =~= q2);
        }
        assert forall|q1: Seq<usize>, q2: Seq<usize>|
            b.contains(q1) && b.contains(q2) && #[trigger] g(q1) == #[trigger] g(q2) implies q1
            == q2 by {
            assert forall|i: int| 0 <= i < q1.len() implies q1[i] == q2[i] by {
                assert(g(q1)[i] == g(q2)[i]);
            }
            assert(q1 =~= q2);
        }
        lemma_map_size(a, a.map(f), f);
        lemma_map_size(b, b.map(g), g);
        assert forall|r: Seq<usize>| all.contains(r) <==> (a.map(f) + b.map(g)).contains(r) by {
            if all.contains(r) {
                if r[0] == 0 {
                    let q = shift_down(r.drop_first());
                    assert(f(q) =~= r);
                    assert(a.contains(q));
                } else {
                    assert forall|i: int| 0 <= i < r.len() implies r[i] >= 1 by {
                        if i > 0 {
                            assert(r[0] < r[i]);
                        }
                    }
                    let q = shift_down(r);
                    assert(g(q) =~= r);
                    assert(b.contains(q));
                }
            }
            if a.map(f).contains(r) {
                let q = choose|q: Seq<usize>| a.contains(q) && f(q) == r;
                assert(is_combination(r, n));
            }
            if b.map(g).contains(r) {
                let q = choose|q: Seq<usize>| b.contains(q) && g(q) == r;
                assert(is_combination(r, n));
            }
        }
        assert(all =~= a.map(f) + b.map(g));
        assert(a.map(f).disjoint(b.map(g))) by {
            assert forall|r: Seq<usize>| a.map(f).contains(r) implies !b.map(g).contains(r) by {
                let q = choose|q: Seq<usize>| a.contains(q) && f(q) == r;
                if b.map(g).contains(r) {
                    let q2 = choose|q2: Seq<usize>| b.contains(q2) && g(q2) == r;
                    assert(r[0] == 0);
                    assert(g(q2)[0] >= 1);
                }
            }
        }
        lemma_set_disjoint_lens(a.map(f), b.map(g));
    }
}

/// There are `multichoose(n, k)` multicombinations of length `k` out of `n`.
pub proof fn lemma_count_multicombinations(n: nat, k: nat)
    requires
        n <= usize::MAX,
    ensures
        all_multicombinations(n, k).finite(),
        all_multicombinations(n, k).len() == multichoose(n, k),
    decreases n, k,
{
    let all = all_multicombinations(n, k);
    if k == 0 {
        assert forall|r: Seq<usize>| all.contains(r) <==> r == Seq::<usize>::empty() by {
            if r.len() == 0 {
                assert(r =~= Seq::<usize>::empty());
            }
        }
        assert(all =~= Set::empty().insert(Seq::<usize>::empty()));
    } else if n == 0 {
        assert forall|r: Seq<usize>| !all.contains(r) by {
            if all.contains(r) {
                assert(r[0] < 0);
            }
        }
        assert(all =~= Set::<Seq<usize>>::empty());
    } else {
        let m = (n - 1) as nat;
        let a = all_multicombinations(n, (k - 1) as nat);
        let b = all_multicombinations(m, k);
        lemma_count_multicombinations(n, (k - 1) as nat);
        lemma_count_multicombinations(m, k);
        let f = |q: Seq<usize>| seq![0usize] + q;
        let g = |q: Seq<usize>| shift_up(q);
        assert forall|q1: Seq<usize>, q2: Seq<usize>|
            a.contains(q1) && a.contains(q2) && #[trigger] f(q1) == #[trigger] f(q2) implies q1
            == q2 by {
            assert forall|i: int| 0 <= i < q1.len() implies q1[i] == q2[i] by {
                assert(f(q1)[i + 1] == f(q2)[i + 1]);
            }
            assert(q1 =~= q2);
        }
        assert forall|q1: Seq<usize>, q2: Seq<usize>|
            b.contains(q1) && b.contains(q2) && #[trigger] g(q1) == #[trigger] g(q2) implies q1
            == q2 by {
            assert forall|i: int| 0 <= i < q1.len() implies q1[i] == q2[i] by {
                assert(g(q1)[i] == g(q2)[i]);
            }
            assert(q1 =~= q2);
        }
        lemma_map_size(a, a.map(f), f);
        lemma_map_size(b, b.map(g), g);
        assert forall|r: Seq<usize>| all.contains(r) <==> (a.map(f) + b.map(g)).contains(r) by {
            if all.contains(r) {
                if r[0] == 0 {
                    let q = r.drop_first();
                    assert(f(q) =~= r);
                    assert(a.contains(q));
                } else {
                    assert forall|i: int| 0 <= i < r.len() implies r[i] >= 1 by {
                        if i > 0 {
                            assert(r[0] <= r[i]);
                        }
                    }
                    let q = shift_down(r);
                    assert(g(q) =~= r);
                    assert(b.contains(q));
                }
            }
            if a.map(f).contains(r) {
                let q = choose|q: Seq<usize>| a.contains(q) && f(q) == r;
                assert(is_multicombination(r, n));
            }
            if b.map(g).contains(r) {
                let q = choose|q: Seq<usize>| b.contains(q) && g(q) == r;
                assert(is_multicombination(r, n));
            }
        }
        assert(all =~= a.map(f) + b.map(g));
        assert(a.map(f).disjoint(b.map(g))) by {
            assert forall|r: Seq<usize>| a.map(f).contains(r) implies !b.map(g).contains(r) by {
                let q = choose|q: Seq<usize>| a.contains(q) && f(q) == r;
                if b.map(g).contains(r) {
                    let q2 = choose|q2: Seq<usize>| b.contains(q2) && g(q2) == r;
                    assert(r[0] == 0);
                    assert(g(q2)[0] >= 1);
                }
            }
        }
        lemma_set_disjoint_lens(a.map(f), b.map(g));
    }
}

/// `2` to the power `n`.
pub open spec fn power_of_two(n: nat) -> nat
    decreases n,
{
    if n == 0 {
        1
    } else {
        2 * power_of_two((n - 1) as nat)
    }
}

/// `binomial(n, 0) + ... + binomial(n, j - 1)`.
pub open spec fn binomial_prefix(n: nat, j: nat) -> nat
    decreases j,
{
    if j == 0 {
        0
    } else {
        binomial_prefix(n, (j - 1) as nat) + binomial(n, (j - 1) as nat)
    }
}

/// `multichoose(n, 0) + ... + multichoose(n, j - 1)`.
pub open spec fn multichoose_prefix(n: nat, j: nat) -> nat
    decreases j,
{
    if j == 0 {
        0
    } else {
        multichoose_prefix(n, (j - 1) as nat) + multichoose(n, (j - 1) as nat)
    }
}

/// Pascal's rule, summed.
proof fn lemma_prefix_pascal(n: nat, j: nat)
    ensures
        binomial_prefix(n + 1, j + 1) == binomial_prefix(n, j + 1) + binomial_prefix(n, j),
    decreases j,
{
    if j > 0 {
        let i = (j - 1) as nat;
        lemma_prefix_pascal(n, i);
        assert(i + 1 == j);
        assert(binomial_prefix(n + 1, j + 1) == binomial_prefix(n + 1, j) + binomial(n + 1, j));
        assert(binomial(n + 1, j) == binomial(n, i) + binomial(n, j));
        assert(binomial_prefix(n, j + 1) == binomial_prefix(n, j) + binomial(n, j));
        assert(binomial_prefix(n, j) == binomial_prefix(n, i) + binomial(n, i));
    } else {
        assert(binomial_prefix(n + 1, 1) == binomial_prefix(n + 1, 0) + binomial(n + 1, 0));
        assert(binomial_prefix(n, 1) == binomial_prefix(n, 0) + binomial(n, 0));
    }
}

/// The binomial coefficients `n` choose `0` through `n` choose `n` add up to `2^n`.
pub proof fn lemma_binomials_sum_to_power(n: nat)
    ensures
        binomial_prefix(n, n + 1) == power_of_two(n),
    decreases n,
{
    if n > 0 {
        let m = (n - 1) as nat;
        lemma_binomials_sum_to_power(m);
        lemma_prefix_pascal(m, n);
        lemma_binomial_above(m, n);
        assert(m + 1 == n);
        assert(binomial_prefix(m, n + 1) == binomial_prefix(m, n) + binomial(m, n));
        assert(power_of_two(n) == 2 * power_of_two(m));
        assert(binomial_prefix(n, n + 1) == binomial_prefix(m, n + 1) + binomial_prefix(m, n));
    } else {
        assert(binomial_prefix(0, 1) == binomial_prefix(0, 0) + binomial(0, 0));
    }
}

} // verus!
