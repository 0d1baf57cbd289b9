use std::collections::BTreeSet;
use vstd::laws_cmp::{obeys_cmp, obeys_cmp_ord, obeys_partial_cmp_spec_properties};
use crate::lex::{is_combination, is_multicombination, selected};
use vstd::prelude::*;
use vstd::std_specs::btree::increasing_seq;
use vstd::std_specs::cmp::{OrdSpec, PartialOrdSpec};

verus! {

/// `s` lists the set `items` once each, in strictly increasing order of `cmp`.
pub open spec fn is_sorted_set_of<T: Ord>(s: Seq<T>, items: Set<T>) -> bool {
    &&& s.to_set() == items
    &&& forall|i: int, j: int|
        #![trigger s[i], s[j]]
        0 <= i < j < s.len() ==> s[i].cmp_spec(&s[j]) == std::cmp::Ordering::Less
}

/// `sorted` holds the distinct elements of `input` in strictly increasing order, whenever
/// `T`'s `Ord` is a lawful total order (vstd proves this for the integer types).
pub open spec fn is_sorted_dedup_of<T: Ord>(sorted: Seq<T>, input: Seq<T>) -> bool {
    obeys_cmp::<T>() ==> is_sorted_set_of(sorted, input.to_set())
}

/// Moves the contents of a `BTreeSet` into a vector, in the set's ascending order
/// (`Vec::from_iter` over the set's consuming iterator). Claimed: the vector lists the
/// elements of the set, in strictly increasing order, when `T` obeys `cmp`.
#[verifier::external_body]
fn btree_set_into_vec<T: Ord>(set: BTreeSet<T>) -> (v: Vec<T>)
    ensures
        obeys_cmp::<T>() ==> v@.to_set() == set@ && increasing_seq(v@),
{
    Vec::from_iter(set)
}

/// Converts a list of elements into a sorted vector holding each distinct element once.
pub fn iterable_to_sorted_set<T: Ord>(elements: Vec<T>) -> (sorted: Vec<T>)
    ensures
        is_sorted_dedup_of(sorted@, elements@),
{
    let mut rest = elements;
    let mut set: BTreeSet<T> = BTreeSet::new();
    let ghost all = elements@;
    while rest.len() > 0
        invariant
            obeys_cmp::<T>() ==> set@.union(rest@.to_set()) == all.to_set(),
        decreases rest.len(),
    {
        let ghost before = rest@;
        let x = rest.pop().unwrap();
        proof {
            assert(before == rest@.push(x));
            assert forall|a: T| before.contains(a) <==> rest@.contains(a) || a == x by {
                if before.contains(a) {
                    let k = choose|k: int| 0 <= k < before.len() && before[k] == a;
                    if k < rest@.len() {
                        assert(rest@[k] == a);
                    }
                }
                if rest@.contains(a) {
                    let k = choose|k: int| 0 <= k < rest@.len() && rest@[k] == a;
                    assert(before[k] == a);
                }
                if a == x {
                    assert(before[before.len() - 1] == a);
                }
            }
            assert(before.to_set() =~= rest@.to_set().insert(x));
        }
        set.insert(x);
        proof {
            if obeys_cmp::<T>() {
                assert(set@.union(rest@.to_set()) =~= all.to_set());
            }
        }
    }
    proof {
        assert(rest@ == Seq::<T>::empty());
    }
    let sorted = btree_set_into_vec(set);
    proof {
        if obeys_cmp::<T>() {
            assert(set@ =~= all.to_set());
        }
    }
    sorted
}

/// Picking a combination of positions out of a sorted list without repeats gives elements in
/// strictly increasing order: distinct elements, sorted.
pub proof fn lemma_combination_picks_ascend<T: Ord>(elements: Seq<T>, positions: Seq<usize>)
    requires
        is_sorted_set_of(elements, elements.to_set()),
        is_combination(positions, elements.len()),
    ensures
        forall|i: int, j: int|
            #![trigger selected(elements, positions)[i], selected(elements, positions)[j]]
            0 <= i < j < positions.len() ==> selected(elements, positions)[i].cmp_spec(
                &selected(elements, positions)[j],
            ) == std::cmp::Ordering::Less,
{
    let s = selected(elements, positions);
    assert forall|i: int, j: int| 0 <= i < j < positions.len() implies s[i].cmp_spec(&s[j])
        == std::cmp::Ordering::Less by {
        assert(positions[i] < positions[j]);
    }
}

/// Picking a multicombination of positions out of a sorted list without repeats gives
/// elements in increasing order, equal neighbours allowed.
pub proof fn lemma_multicombination_picks_ascend<T: Ord>(elements: Seq<T>, positions: Seq<usize>)
    requires
        is_sorted_set_of(elements, elements.to_set()),
        is_multicombination(positions, elements.len()),
    ensures
        forall|i: int, j: int|
            #![trigger selected(elements, positions)[i], selected(elements, positions)[j]]
            0 <= i < j < positions.len() ==> selected(elements, positions)[i] == selected(
                elements,
                positions,
            )[j] || selected(elements, positions)[i].cmp_spec(&selected(elements, positions)[j])
                == std::cmp::Ordering::Less,
{
    let s = selected(elements, positions);
    assert forall|i: int, j: int| 0 <= i < j < positions.len() implies s[i] == s[j] || s[i].cmp_spec(
        &s[j],
    ) == std::cmp::Ordering::Less by {
        assert(positions[i] <= positions[j]);
    }
}

/// Under a lawful `cmp`, nothing is below itself, and `x` below `y` rules out `y` below `x`.
proof fn lemma_less_is_strict<T: Ord>(x: T, y: T)
    requires
        obeys_cmp::<T>(),
    ensures
        x.cmp_spec(&x) != std::cmp::Ordering::Less,
        x.cmp_spec(&y) == std::cmp::Ordering::Less ==> y.cmp_spec(&x) != std::cmp::Ordering::Less,
{
    reveal(obeys_cmp_ord);
    reveal(obeys_partial_cmp_spec_properties);
    assert(x.partial_cmp_spec(&x) == Some(x.cmp_spec(&x)));
    assert(x.partial_cmp_spec(&y) == Some(x.cmp_spec(&y)));
    assert(y.partial_cmp_spec(&x) == Some(y.cmp_spec(&x)));
}

/// Under a lawful `cmp`, a list sorted strictly is determined by its set of items.
pub proof fn lemma_sorted_set_unique<T: Ord>(s1: Seq<T>, s2: Seq<T>, items: Set<T>)
    requires
        obeys_cmp::<T>(),
        is_sorted_set_of(s1, items),
        is_sorted_set_of(s2, items),
    ensures
        s1 == s2,
    decreases s1.len(),
{
    if s1.len() == 0 || s2.len() == 0 {
        if s1.len() > 0 {
            assert(s1.to_set().contains(s1[0]));
            assert(s2.contains(s1[0]));
        }
        if s2.len() > 0 {
            assert(s2.to_set().contains(s2[0]));
            assert(s1.contains(s2[0]));
        }
        assert(s1 =~= s2);
    } else {
        let a = s1[0];
        let b = s2[0];
        assert(s1.to_set().contains(a));
        assert(s2.to_set().contains(b));
        let j = choose|j: int| 0 <= j < s2.len() && s2[j] == a;
        let i = choose|i: int| 0 <= i < s1.len() && s1[i] == b;
        lemma_less_is_strict(a, b);
        lemma_less_is_strict(b, a);
        if j > 0 && i > 0 {
            assert(b.cmp_spec(&a) == std::cmp::Ordering::Less);
            assert(a.cmp_spec(&b) == std::cmp::Ordering::Less);
        }
        assert(a == b);
        let t1 = s1.drop_first();
        let t2 = s2.drop_first();
        let rest = items.remove(a);
        assert(t1.to_set() =~= rest) by {
            assert forall|x: T| t1.contains(x) <==> rest.contains(x) by {
                if t1.contains(x) {
                    let k = choose|k: int| 0 <= k < t1.len() && t1[k] == x;
                    assert(s1[k + 1] == x);
                    lemma_less_is_strict(a, x);
                    assert(s1.contains(x));
                }
                if rest.contains(x) {
                    assert(s1.to_set().contains(x));
                    let k = choose|k: int| 0 <= k < s1.len() && s1[k] == x;
                    assert(t1[k - 1] == x);
                }
            }
        }
        assert(t2.to_set() =~= rest) by {
            assert forall|x: T| t2.contains(x) <==> rest.contains(x) by {
                if t2.contains(x) {
                    let k = choose|k: int| 0 <= k < t2.len() && t2[k] == x;
                    assert(s2[k + 1] == x);
                    lemma_less_is_strict(b, x);
                    assert(s2.contains(x));
                }
                if rest.contains(x) {
                    assert(s2.to_set().contains(x));
                    let k = choose|k: int| 0 <= k < s2.len() && s2[k] == x;
                    assert(t2[k - 1] == x);
                }
            }
        }
        assert forall|p: int, q: int| 0 <= p < q < t1.len() implies t1[p].cmp_spec(&t1[q])
            == std::cmp::Ordering::Less by {
            assert(s1[p + 1] == t1[p] && s1[q + 1] == t1[q]);
        }
        assert forall|p: int, q: int| 0 <= p < q < t2.len() implies t2[p].cmp_spec(&t2[q])
            == std::cmp::Ordering::Less by {
            assert(s2[p + 1] == t2[p] && s2[q + 1] == t2[q]);
        }
        lemma_sorted_set_unique(t1, t2, rest);
        assert(s1 =~= s2) by {
            assert forall|k: int| 0 <= k < s1.len() implies s1[k] == s2[k] by {
                if k > 0 {
                    assert(s1[k] == t1[k - 1]);
                    assert(s2[k] == t2[k - 1]);
                }
            }
        }
    }
}

/// Sorting and deduplicating depends only on the set of items in the input.
pub proof fn lemma_sorted_dedup_depends_on_set<T: Ord>(
    xs: Seq<T>,
    ys: Seq<T>,
    sorted_xs: Seq<T>,
    sorted_ys: Seq<T>,
)
    requires
        obeys_cmp::<T>(),
        xs.to_set() == ys.to_set(),
        is_sorted_dedup_of(sorted_xs, xs),
        is_sorted_dedup_of(sorted_ys, ys),
    ensures
        sorted_xs == sorted_ys,
{
    lemma_sorted_set_unique(sorted_xs, sorted_ys, xs.to_set());
}

/// Sorting and deduplicating a list that is already sorted and deduplicated changes nothing.
pub proof fn lemma_sorted_dedup_idempotent<T: Ord>(xs: Seq<T>, once: Seq<T>, twice: Seq<T>)
    requires
        obeys_cmp::<T>(),
        is_sorted_dedup_of(once, xs),
        is_sorted_dedup_of(twice, once),
    ensures
        twice == once,
{
    lemma_sorted_set_unique(twice, once, xs.to_set());
}

} // verus!
