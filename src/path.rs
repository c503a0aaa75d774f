//! Visiting orders and their cost.
use vstd::prelude::*;

use crate::town::{lemma_dist_bounds, lemma_triangle, town_dist, Town, MAX_DIST};

verus! {

/// Cost of visiting the towns in `order`: the sum of the distances between
/// consecutive towns, with no edge back from the last town to the first.
pub open spec fn path_cost(towns: Seq<Town>, order: Seq<usize>) -> int
    decreases order.len(),
{
    if order.len() <= 1 {
        0
    } else {
        path_cost(towns, order.drop_last()) + town_dist(
            towns[order[order.len() - 2] as int],
            towns[order[order.len() - 1] as int],
        )
    }
}

/// `order` lists every index of `0..n` exactly once.
pub open spec fn is_permutation(order: Seq<usize>, n: nat) -> bool {
    &&& order.len() == n
    &&& forall|i: int| 0 <= i < order.len() ==> order[i] < n
    &&& order.no_duplicates()
}

/// Number of `true` entries in `s`.
pub open spec fn count_true(s: Seq<bool>) -> nat
    decreases s.len(),
{
    if s.len() == 0 {
        0
    } else {
        count_true(s.drop_last()) + if s.last() {
            1nat
        } else {
            0nat
        }
    }
}

/// `visited` marks exactly the towns that `prefix` lists.
pub open spec fn marks(visited: Seq<bool>, prefix: Seq<usize>) -> bool {
    forall|i: int| 0 <= i < visited.len() ==> visited[i] == prefix.contains(i as usize)
}

/// A path never costs less than zero nor more than `MAX_DIST` per town.
pub proof fn lemma_path_cost_bounds(towns: Seq<Town>, order: Seq<usize>)
    ensures
        0 <= path_cost(towns, order) <= order.len() * MAX_DIST,
    decreases order.len(),
{
    if order.len() > 1 {
        lemma_path_cost_bounds(towns, order.drop_last());
        lemma_dist_bounds(
            towns[order[order.len() - 2] as int],
            towns[order[order.len() - 1] as int],
        );
    }
}

/// Appending a town adds the distance from the last town to it.
pub proof fn lemma_path_cost_push(towns: Seq<Town>, order: Seq<usize>, t: usize)
    requires
        order.len() >= 1,
    ensures
        path_cost(towns, order.push(t)) == path_cost(towns, order) + town_dist(
            towns[order.last() as int],
            towns[t as int],
        ),
{
    assert(order.push(t).drop_last() =~= order);
}

/// The cost of a path is at least the cost of its first `i + 1` towns plus
/// the direct distance from its `i`-th town to any later one.
pub proof fn lemma_path_cost_lower(towns: Seq<Town>, s: Seq<usize>, i: int, j: int)
    requires
        0 <= i <= j < s.len(),
    ensures
        path_cost(towns, s) >= path_cost(towns, s.take(i + 1)) + town_dist(
            towns[s[i] as int],
            towns[s[j] as int],
        ),
    decreases s.len(),
{
    let m = s.len() - 1;
    if i == m {
        assert(s.take(i + 1) =~= s);
    } else {
        let s2 = s.drop_last();
        assert(s2.take(i + 1) =~= s.take(i + 1));
        lemma_dist_bounds(towns[s[m - 1] as int], towns[s[m] as int]);
        if j == m {
            if i == m - 1 {
                assert(s.take(i + 1) =~= s2);
            } else {
                lemma_path_cost_lower(towns, s2, i, m - 1);
                lemma_triangle(towns[s[i] as int], towns[s[m - 1] as int], towns[s[m] as int]);
            }
        } else {
            lemma_path_cost_lower(towns, s2, i, j);
        }
    }
}

/// If `visited` marks exactly the distinct towns of `prefix`, it holds as many
/// marks as `prefix` has towns.
pub proof fn lemma_count_marks(visited: Seq<bool>, prefix: Seq<usize>)
    requires
        visited.len() <= usize::MAX,
        prefix.no_duplicates(),
        forall|j: int| 0 <= j < prefix.len() ==> prefix[j] < visited.len(),
        marks(visited, prefix),
    ensures
        count_true(visited) == prefix.len(),
    decreases visited.len(),
{
    if visited.len() == 0 {
        if prefix.len() > 0 {
            assert(prefix[0] < 0);
        }
    } else {
        let m = visited.len() - 1;
        let v2 = visited.drop_last();
        if visited[m] {
            assert(prefix.contains(m as usize));
            let k = choose|k: int| 0 <= k < prefix.len() && prefix[k] == m as usize;
            let p2 = prefix.remove(k);
            assert forall|j: int| 0 <= j < p2.len() implies p2[j] < v2.len() by {
                if j < k {
                    assert(p2[j] == prefix[j]);
                } else {
                    assert(p2[j] == prefix[j + 1]);
                }
            }
            assert forall|a: int, b: int| 0 <= a < p2.len() && 0 <= b < p2.len() && a != b
                implies p2[a] != p2[b] by {
                let a1 = if a < k { a } else { a + 1 };
                let b1 = if b < k { b } else { b + 1 };
                assert(p2[a] == prefix[a1] && p2[b] == prefix[b1]);
            }
            assert forall|i: int| 0 <= i < v2.len() implies v2[i] == p2.contains(i as usize) by {
                if prefix.contains(i as usize) {
                    let j = choose|j: int| 0 <= j < prefix.len() && prefix[j] == i as usize;
                    assert(j != k);
                    let j2 = if j < k { j } else { j - 1 };
                    assert(p2[j2] == prefix[j]);
                }
                if p2.contains(i as usize) {
                    let j = choose|j: int| 0 <= j < p2.len() && p2[j] == i as usize;
                    let j1 = if j < k { j } else { j + 1 };
                    assert(prefix[j1] == p2[j]);
                }
            }
            lemma_count_marks(v2, p2);
        } else {
            assert forall|j: int| 0 <= j < prefix.len() implies prefix[j] < v2.len() by {
                if prefix[j] == m as usize {
                    assert(prefix.contains(m as usize));
                }
            }
            lemma_count_marks(v2, prefix);
        }
    }
}

/// A sequence with as many marks as entries is marked everywhere.
pub proof fn lemma_count_full(s: Seq<bool>)
    ensures
        count_true(s) <= s.len(),
        count_true(s) == s.len() ==> forall|i: int| 0 <= i < s.len() ==> s[i],
    decreases s.len(),
{
    if s.len() > 0 {
        lemma_count_full(s.drop_last());
        if count_true(s) == s.len() {
            assert forall|i: int| 0 <= i < s.len() implies s[i] by {
                if i < s.len() - 1 {
                    assert(s[i] == s.drop_last()[i]);
                }
            }
        }
    }
}

/// A permutation of `0..n` lists every index below `n`.
pub proof fn lemma_permutation_covers(order: Seq<usize>, n: nat, t: usize)
    requires
        is_permutation(order, n),
        n <= usize::MAX,
        t < n,
    ensures
        order.contains(t),
{
    let v = Seq::new(n, |i: int| order.contains(i as usize));
    lemma_count_marks(v, order);
    lemma_count_full(v);
    assert(v[t as int]);
}

/// Cost of the path that visits `towns` in `order`.
pub fn path_dist(towns: &Vec<Town>, order: &Vec<usize>) -> (r: u128)
    requires
        forall|i: int| 0 <= i < order.len() ==> order[i] < towns.len(),
    ensures
        r == path_cost(towns@, order@),
{
    let mut total: u128 = 0;
    if order.len() <= 1 {
        return 0;
    }
    let mut i: usize = 1;
    while i < order.len()
        invariant
            1 <= i <= order.len(),
            forall|k: int| 0 <= k < order.len() ==> order[k] < towns.len(),
            total == path_cost(towns@, order@.take(i as int)),
            i <= usize::MAX,
        decreases order.len() - i,
    {
        proof {
            lemma_path_cost_bounds(towns@, order@.take(i as int));
            lemma_path_cost_push(towns@, order@.take(i as int), order[i as int]);
            assert(order@.take(i as int).push(order[i as int]) =~= order@.take(i + 1));
        }
        let d = towns[order[i - 1]].dist(&towns[order[i]]);
        total = total + d as u128;
        i = i + 1;
    }
    assert(order@.take(i as int) =~= order@);
    total
}

} // verus!
