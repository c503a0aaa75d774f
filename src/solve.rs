//! Branch-and-bound search for the cheapest order in which to visit every
//! town once.
use vstd::prelude::*;

use crate::path::{
    count_true, is_permutation, lemma_count_marks, lemma_path_cost_bounds, lemma_path_cost_lower,
    lemma_path_cost_push, lemma_permutation_covers, marks, path_cost,
};
use crate::town::{lemma_dist_symmetric, town_dist, Town, MAX_DIST};

verus! {

/// Bound on the distance in force before any complete path has been found.
pub const NO_PATH_YET: u128 = 0xFFFF_FFFF_FFFF_FFFF_FFFF_FFFF_FFFF_FFFF;

/// `rest` extends `prefix` to a visiting order of all the towns.
pub open spec fn completes(towns: Seq<Town>, prefix: Seq<usize>, rest: Seq<usize>) -> bool {
    is_permutation(prefix + rest, towns.len())
}

/// Every completion of `prefix` costs more than `bound`.
pub open spec fn all_exceed(towns: Seq<Town>, prefix: Seq<usize>, bound: int) -> bool {
    forall|rest: Seq<usize>| #[trigger]
        completes(towns, prefix, rest) ==> path_cost(towns, prefix + rest) > bound
}

/// No completion of `prefix` costs less than `bound`.
pub open spec fn none_below(towns: Seq<Town>, prefix: Seq<usize>, bound: int) -> bool {
    forall|rest: Seq<usize>| #[trigger]
        completes(towns, prefix, rest) ==> path_cost(towns, prefix + rest) >= bound
}

/// The entries of `order` after the first `prefix.len()` complete `prefix`,
/// at cost `d`.
pub open spec fn completed_by(towns: Seq<Town>, prefix: Seq<usize>, order: Seq<usize>, d: int) -> bool {
    let rest = order.subrange(prefix.len() as int, towns.len() as int);
    completes(towns, prefix, rest) && path_cost(towns, prefix + rest) == d
}

/// `after` agrees with `before` on its first `k` entries.
pub open spec fn keeps_first(before: Seq<usize>, after: Seq<usize>, k: int) -> bool {
    forall|j: int| 0 <= j < k ==> after[j] == before[j]
}

/// A completion of `prefix` whose first town is `t` costs more than `bound`
/// when `t`, reached from the end of `prefix`, already overshoots `bound`
/// by the direct distance from `t` to some unvisited town `w`.
proof fn lemma_prune(towns: Seq<Town>, prefix: Seq<usize>, t: usize, w: usize, bound: int)
    requires
        prefix.len() >= 1,
        towns.len() <= usize::MAX,
        w < towns.len(),
        !prefix.contains(w),
        path_cost(towns, prefix.push(t)) + town_dist(towns[w as int], towns[t as int]) > bound,
    ensures
        forall|rest: Seq<usize>| #[trigger]
            completes(towns, prefix, rest) && rest[0] == t ==> path_cost(towns, prefix + rest)
                > bound,
{
    assert forall|rest: Seq<usize>| #[trigger]
        completes(towns, prefix, rest) && rest[0] == t implies path_cost(towns, prefix + rest)
        > bound by {
        let s = prefix + rest;
        let k = prefix.len() as int;
        lemma_permutation_covers(s, towns.len(), w);
        let j = choose|j: int| 0 <= j < s.len() && s[j] == w;
        if j < k {
            assert(prefix[j] == w);
        }
        assert(s[k] == t);
        assert(s.take(k + 1) =~= prefix.push(t));
        lemma_path_cost_lower(towns, s, k, j);
        lemma_dist_symmetric(towns[t as int], towns[w as int]);
    }
}

/// A completion of `prefix` is its first town followed by a completion of
/// the longer prefix.
proof fn lemma_descend(towns: Seq<Town>, prefix: Seq<usize>, rest: Seq<usize>)
    requires
        completes(towns, prefix, rest),
        rest.len() >= 1,
    ensures
        prefix + rest =~= prefix.push(rest[0]) + rest.drop_first(),
        completes(towns, prefix.push(rest[0]), rest.drop_first()),
{
    assert(prefix + rest =~= prefix.push(rest[0]) + rest.drop_first());
}

/// Searches the completions of a partial path for one that costs no more
/// than `cur_smallest_dist`.
///
/// The partial path is `prefix`; it ends at `start`, costs `cur_dist`, and
/// `visited` marks its towns. Returns the cost of the cheapest completion
/// when that is at most `cur_smallest_dist`, writing the completion into
/// `best_order` after the first `prefix.len()` entries; returns `None`, with
/// `best_order` untouched, when every completion costs more. `visited` is
/// left as it was found.
fn tsp_solve_with_start(
    towns: &Vec<Town>,
    visited: &mut Vec<bool>,
    start: usize,
    best_order: &mut Vec<usize>,
    cur_dist: u128,
    cur_smallest_dist: u128,
    Ghost(prefix): Ghost<Seq<usize>>,
) -> (r: Option<u128>)
    requires
        old(visited).len() == towns.len(),
        old(best_order).len() == towns.len(),
        prefix.len() >= 1,
        prefix.last() == start,
        prefix.no_duplicates(),
        forall|j: int| 0 <= j < prefix.len() ==> prefix[j] < towns.len(),
        marks(old(visited)@, prefix),
        cur_dist == path_cost(towns@, prefix),
        cur_dist <= cur_smallest_dist,
    ensures
        final(visited)@ == old(visited)@,
        final(best_order).len() == towns.len(),
        r is None ==> final(best_order)@ == old(best_order)@ && all_exceed(
            towns@,
            prefix,
            cur_smallest_dist as int,
        ),
        r matches Some(d) ==> d <= cur_smallest_dist && keeps_first(
            old(best_order)@,
            final(best_order)@,
            prefix.len() as int,
        ) && completed_by(towns@, prefix, final(best_order)@, d as int) && none_below(
            towns@,
            prefix,
            d as int,
        ),
    decreases towns.len() - prefix.len(),
{
    let n = towns.len();
    let start_town = towns[start];
    let mut cur_path_pos: usize = 0;
    let mut i: usize = 0;
    while i < n
        invariant
            i <= n,
            visited.len() == n,
            cur_path_pos == count_true(visited@.take(i as int)),
            cur_path_pos <= i,
        decreases n - i,
    {
        proof {
            assert(visited@.take(i + 1).drop_last() =~= visited@.take(i as int));
        }
        if visited[i] {
            cur_path_pos = cur_path_pos + 1;
        }
        i = i + 1;
    }
    proof {
        assert(visited@.take(n as int) =~= visited@);
        lemma_count_marks(visited@, prefix);
        lemma_path_cost_bounds(towns@, prefix);
    }
    if cur_path_pos == n {
        proof {
            assert forall|rest: Seq<usize>| #[trigger]
                completes(towns@, prefix, rest) implies path_cost(towns@, prefix + rest)
                >= cur_dist by {
                assert(prefix + rest =~= prefix);
            }
            assert(prefix + best_order@.subrange(n as int, n as int) =~= prefix);
        }
        return Some(cur_dist);
    }
    let ghost k = prefix.len() as int;
    let ghost v0 = visited@;
    let ghost b0 = best_order@;
    let mut new_smallest_dist = cur_smallest_dist;
    let mut new_dist_found = false;
    let mut idx: usize = 0;
    while idx < n
        invariant
            n == towns.len(),
            idx <= n,
            visited@ == v0,
            best_order.len() == n,
            cur_path_pos == k,
            k == prefix.len(),
            k < n,
            prefix.len() >= 1,
            prefix.last() == start,
            start_town == towns@[start as int],
            prefix.no_duplicates(),
            forall|j: int| 0 <= j < prefix.len() ==> prefix[j] < towns.len(),
            marks(v0, prefix),
            v0.len() == n,
            cur_dist == path_cost(towns@, prefix),
            cur_dist <= k * MAX_DIST,
            new_smallest_dist <= cur_smallest_dist,
            !new_dist_found ==> new_smallest_dist == cur_smallest_dist && best_order@ == b0,
            new_dist_found ==> keeps_first(b0, best_order@, k) && completed_by(
                towns@,
                prefix,
                best_order@,
                new_smallest_dist as int,
            ),
            forall|rest: Seq<usize>| #[trigger]
                completes(towns@, prefix, rest) && rest[0] < idx ==> path_cost(
                    towns@,
                    prefix + rest,
                ) >= new_smallest_dist && (!new_dist_found ==> path_cost(towns@, prefix + rest)
                    > new_smallest_dist),
        decreases n - idx,
    {
        let town = towns[idx];
        let dist = cur_dist + start_town.dist(&town) as u128;
        proof {
            lemma_path_cost_push(towns@, prefix, idx);
        }
        if visited[idx] {
            proof {
                assert forall|rest: Seq<usize>| #[trigger]
                    completes(towns@, prefix, rest) && rest[0] == idx implies false by {
                    assert(v0[idx as int]);
                    assert(prefix.contains(idx));
                    let j = choose|j: int| 0 <= j < prefix.len() && prefix[j] == idx;
                    assert((prefix + rest)[j] == idx);
                    assert((prefix + rest).len() == n);
                    assert(rest.len() >= 1);
                    assert((prefix + rest)[k] == rest[0]);
                    assert((prefix + rest).no_duplicates());
                }
            }
        } else if dist > new_smallest_dist {
            proof {
                lemma_prune(towns@, prefix, idx, idx, new_smallest_dist as int);
            }
        } else {
            let mut longest_dist_unvisited: u64 = 0;
            let ghost mut witness: usize = idx;
            let mut other_idx: usize = 0;
            while other_idx < n
                invariant
                    n == towns.len(),
                    visited.len() == n,
                    other_idx <= n,
                    witness < n,
                    !visited@[witness as int],
                    town == towns@[idx as int],
                    town_dist(towns@[witness as int], town) == longest_dist_unvisited,
                    longest_dist_unvisited <= MAX_DIST,
                decreases n - other_idx,
            {
                let d = towns[other_idx].dist(&town);
                if !visited[other_idx] && d > longest_dist_unvisited {
                    longest_dist_unvisited = d;
                    proof {
                        witness = other_idx;
                    }
                }
                other_idx = other_idx + 1;
            }
            if dist + longest_dist_unvisited as u128 > new_smallest_dist {
                proof {
                    assert(!prefix.contains(witness));
                    lemma_prune(towns@, prefix, idx, witness, new_smallest_dist as int);
                }
            } else {
                let ghost longer = prefix.push(idx);
                visited[idx] = true;
                proof {
                    assert(!prefix.contains(idx));
                    assert(marks(visited@, longer)) by {
                        assert forall|t: int| 0 <= t < visited.len() implies visited@[t]
                            == longer.contains(t as usize) by {
                            if t == idx {
                                assert(longer[k] == idx);
                            } else if prefix.contains(t as usize) {
                                let j = choose|j: int| 0 <= j < prefix.len() && prefix[j] == t as usize;
                                assert(longer[j] == t as usize);
                            } else if longer.contains(t as usize) {
                                let j = choose|j: int| 0 <= j < longer.len() && longer[j] == t as usize;
                                assert(prefix[j] == t as usize);
                            }
                        }
                    }
                }
                let found = tsp_solve_with_start(
                    towns,
                    visited,
                    idx,
                    best_order,
                    dist,
                    new_smallest_dist,
                    Ghost(longer),
                );
                let ghost b2 = best_order@;
                match found {
                    Some(new_dist) => {
                        new_smallest_dist = new_dist;
                        best_order[cur_path_pos] = idx;
                        new_dist_found = true;
                        proof {
                            assert(prefix + best_order@.subrange(k, n as int) =~= longer
                                + b2.subrange(k + 1, n as int));
                        }
                    },
                    None => {},
                }
                visited[idx] = false;
                proof {
                    assert(visited@ =~= v0);
                    assert forall|rest: Seq<usize>| #[trigger]
                        completes(towns@, prefix, rest) && rest[0] == idx implies path_cost(
                        towns@,
                        prefix + rest,
                    ) >= new_smallest_dist && (!new_dist_found ==> path_cost(
                        towns@,
                        prefix + rest,
                    ) > new_smallest_dist) by {
                        lemma_descend(towns@, prefix, rest);
                    }
                }
            }
        }
        idx = idx + 1;
    }
    proof {
        assert forall|rest: Seq<usize>| #[trigger]
            completes(towns@, prefix, rest) implies rest[0] < idx by {
            assert((prefix + rest)[k] == rest[0]);
        }
    }
    if new_dist_found {
        Some(new_smallest_dist)
    } else {
        None
    }
}

/// The order `0, 1, ..., n - 1`.
pub open spec fn identity_order(n: nat) -> Seq<usize> {
    Seq::new(n, |i: int| i as usize)
}

/// Finds the cheapest order in which to visit every town once.
///
/// Returns the order, as a permutation of the towns' indices, and its cost:
/// the sum of the distances between consecutive towns, with no edge back to
/// the first. No other order costs less. With no towns the order is empty
/// and the cost zero.
pub fn tsp_solve(towns: &Vec<Town>) -> (res: (Vec<usize>, u128))
    ensures
        is_permutation(res.0@, towns.len() as nat),
        res.1 == path_cost(towns@, res.0@),
        forall|p: Seq<usize>| #[trigger]
            is_permutation(p, towns.len() as nat) ==> res.1 <= path_cost(towns@, p),
{
    let n = towns.len();
    if n == 0 {
        let empty: Vec<usize> = Vec::new();
        proof {
            assert forall|p: Seq<usize>| #[trigger]
                is_permutation(p, 0) implies 0 <= path_cost(towns@, p) by {
                lemma_path_cost_bounds(towns@, p);
            }
        }
        return (empty, 0);
    }
    let mut smallest_dist: u128 = NO_PATH_YET;
    let mut best_order: Vec<usize> = vec![0; n];
    let mut visited: Vec<bool> = vec![false; n];
    let ghost unmarked = visited@;
    proof {
        assert forall|t: int| 0 <= t < n implies !unmarked[t] by {
            assert(cloned(false, unmarked[t]));
        }
    }
    let mut found = false;
    let mut start: usize = 0;
    while start < n
        invariant
            n == towns.len(),
            n >= 1,
            start <= n,
            visited@ == unmarked,
            unmarked.len() == n,
            forall|t: int| 0 <= t < n ==> !unmarked[t],
            best_order.len() == n,
            start > 0 ==> found,
            !found ==> smallest_dist == NO_PATH_YET,
            found ==> is_permutation(best_order@, n as nat) && path_cost(towns@, best_order@)
                == smallest_dist,
            forall|p: Seq<usize>| #[trigger]
                is_permutation(p, n as nat) && p[0] < start ==> smallest_dist <= path_cost(
                    towns@,
                    p,
                ),
        decreases n - start,
    {
        let ghost first = seq![start];
        visited[start] = true;
        proof {
            assert forall|t: int| 0 <= t < n implies visited@[t] == first.contains(t as usize) by {
                if t == start {
                    assert(first[0] == start);
                }
            }
        }
        let r = tsp_solve_with_start(
            towns,
            &mut visited,
            start,
            &mut best_order,
            0,
            smallest_dist,
            Ghost(first),
        );
        let ghost b2 = best_order@;
        match r {
            Some(new_dist) => {
                smallest_dist = new_dist;
                best_order[0] = start;
                found = true;
                proof {
                    assert(best_order@ =~= first + b2.subrange(1, n as int));
                }
            },
            None => {
                if start == 0 {
                    proof {
                        let id = identity_order(n as nat);
                        assert(id.no_duplicates());
                        assert(first + id.drop_first() =~= id);
                        assert(completes(towns@, first, id.drop_first()));
                        lemma_path_cost_bounds(towns@, id);
                    }
                }
            },
        }
        visited[start] = false;
        proof {
            assert(visited@ =~= unmarked);
            assert forall|p: Seq<usize>| #[trigger]
                is_permutation(p, n as nat) && p[0] == start implies smallest_dist <= path_cost(
                towns@,
                p,
            ) by {
                assert(first + p.drop_first() =~= p);
                assert(completes(towns@, first, p.drop_first()));
            }
        }
        start = start + 1;
    }
    proof {
        assert forall|p: Seq<usize>| #[trigger]
            is_permutation(p, n as nat) implies smallest_dist <= path_cost(towns@, p) by {
            assert(p[0] < n);
        }
    }
    (best_order, smallest_dist)
}

} // verus!
