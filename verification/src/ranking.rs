//! The last stage of a search: the paths found are put in the order of their
//! lengths, and those beyond the tolerance of the shortest are dropped.

use crate::edge::UnEdge;
use crate::error::PathError;
use crate::graph::UnGraph;
use crate::lists::{lemma_filter_keeps_order, lemma_map_keeps_members};
use crate::path::{missing_edge, path_length, views, UnPath};
use crate::tolerance::Tolerance;
use itertools::Itertools;
use vstd::prelude::*;
use vstd::relations::{sorted_by, total_ordering};
use vstd::seq_lib::{group_to_multiset_ensures, lemma_sorted_unique};

verus! {

/// For each path its length and its place in the list.
pub open spec fn length_keys(edges: Seq<UnEdge>, paths: Seq<Seq<i32>>) -> Seq<(nat, int)> {
    Seq::new(paths.len(), |i: int| (path_length(edges, paths[i]), i))
}

/// The order of the keys: by length, and among equal lengths by place.
pub open spec fn key_order() -> spec_fn((nat, int), (nat, int)) -> bool {
    |a: (nat, int), b: (nat, int)| a.0 < b.0 || (a.0 == b.0 && a.1 <= b.1)
}

/// The path that a key stands for.
pub open spec fn pick(paths: Seq<Seq<i32>>) -> spec_fn((nat, int)) -> Seq<i32> {
    |k: (nat, int)| paths[k.1]
}

/// The paths in ascending order of length; paths of one length keep the
/// order in which the list has them.
pub open spec fn by_length(edges: Seq<UnEdge>, paths: Seq<Seq<i32>>) -> Seq<Seq<i32>> {
    length_keys(edges, paths).sort_by(key_order()).map_values(pick(paths))
}

/// The test of the last stage: a path is no longer than the tolerance allows
/// beside a path of length `shortest`.
pub open spec fn admitted(edges: Seq<UnEdge>, tol: Tolerance, shortest: nat) -> spec_fn(
    Seq<i32>,
) -> bool {
    |p: Seq<i32>| path_length(edges, p) <= tol.limit_of(shortest)
}

/// The paths in ascending order of length, without those that are longer
/// than the tolerance allows beside the first.
pub open spec fn ranked(edges: Seq<UnEdge>, paths: Seq<Seq<i32>>, tol: Tolerance) -> Seq<
    Seq<i32>,
> {
    let sorted = by_length(edges, paths);
    if sorted.len() == 0 {
        sorted
    } else {
        sorted.filter(admitted(edges, tol, path_length(edges, sorted[0])))
    }
}

/// The first step, in the first path that has one, that no edge makes.
pub open spec fn first_gap(edges: Seq<UnEdge>, paths: Seq<Seq<i32>>) -> Option<(i32, i32)>
    decreases paths.len(),
{
    if paths.len() == 0 {
        None
    } else {
        match first_gap(edges, paths.drop_last()) {
            Some(pair) => Some(pair),
            None => missing_edge(edges, paths.last()),
        }
    }
}

/// A gap among the first paths of a list is the first gap of the list.
pub proof fn lemma_first_gap_prefix(edges: Seq<UnEdge>, paths: Seq<Seq<i32>>, k: int)
    requires
        0 <= k <= paths.len(),
        first_gap(edges, paths.take(k)) is Some,
    ensures
        first_gap(edges, paths) == first_gap(edges, paths.take(k)),
    decreases paths.len(),
{
    if k == paths.len() {
        assert(paths.take(k) =~= paths);
    } else {
        assert(paths.drop_last().take(k) =~= paths.take(k));
        lemma_first_gap_prefix(edges, paths.drop_last(), k);
    }
}

/// The order of the keys is a total order.
pub proof fn lemma_key_order_total()
    ensures
        total_ordering(key_order()),
{
    let leq = key_order();
    assert(vstd::relations::reflexive(leq));
    assert(vstd::relations::antisymmetric(leq));
    assert(vstd::relations::transitive(leq));
    assert(vstd::relations::strongly_connected(leq));
}

/// What the sorted keys of a list of paths are: as many as the paths, each
/// the key of a path of the list, and in order.
pub proof fn lemma_sorted_keys_members(edges: Seq<UnEdge>, paths: Seq<Seq<i32>>)
    ensures
        length_keys(edges, paths).sort_by(key_order()).len() == paths.len(),
        by_length(edges, paths).len() == paths.len(),
        forall|k: int|
            #![trigger length_keys(edges, paths).sort_by(key_order())[k]]
            0 <= k < paths.len() ==> {
                let key = length_keys(edges, paths).sort_by(key_order())[k];
                &&& 0 <= key.1 < paths.len()
                &&& key.0 == path_length(edges, paths[key.1])
                &&& by_length(edges, paths)[k] == paths[key.1]
            },
        sorted_by(length_keys(edges, paths).sort_by(key_order()), key_order()),
{
    broadcast use group_to_multiset_ensures;

    let keys = length_keys(edges, paths);
    let order = keys.sort_by(key_order());
    lemma_key_order_total();
    keys.lemma_sort_by_ensures(key_order());
    vstd::seq_lib::to_multiset_len(keys);
    vstd::seq_lib::to_multiset_len(order);
    assert forall|k: int| #![trigger order[k]] 0 <= k < paths.len() implies {
        let key = order[k];
        &&& 0 <= key.1 < paths.len()
        &&& key.0 == path_length(edges, paths[key.1])
        &&& by_length(edges, paths)[k] == paths[key.1]
    } by {
        let key = order[k];
        assert(order.contains(key));
        assert(keys.contains(key));
        let j = choose|j: int| 0 <= j < keys.len() && keys[j] == key;
        assert(keys[j] == (path_length(edges, paths[j]), j));
    }
}

/// The paths in order of length are the same paths, and no path comes before
/// a shorter one.
pub proof fn lemma_by_length(edges: Seq<UnEdge>, paths: Seq<Seq<i32>>)
    ensures
        by_length(edges, paths).len() == paths.len(),
        forall|k: int|
            0 <= k < paths.len() ==> paths.contains(#[trigger] by_length(edges, paths)[k]),
        forall|i: int|
            0 <= i < paths.len() ==> by_length(edges, paths).contains(#[trigger] paths[i]),
        forall|i: int, j: int|
            0 <= i < j < paths.len() ==> path_length(edges, #[trigger] by_length(edges, paths)[i])
                <= path_length(edges, #[trigger] by_length(edges, paths)[j]),
{
    broadcast use group_to_multiset_ensures;

    let keys = length_keys(edges, paths);
    let order = keys.sort_by(key_order());
    let lined = by_length(edges, paths);
    lemma_sorted_keys_members(edges, paths);
    lemma_key_order_total();
    keys.lemma_sort_by_ensures(key_order());
    assert forall|k: int| 0 <= k < paths.len() implies paths.contains(#[trigger] lined[k]) by {
        let key = order[k];
        assert(lined[k] == paths[key.1]);
    }
    assert forall|i: int| 0 <= i < paths.len() implies lined.contains(#[trigger] paths[i]) by {
        assert(keys.contains(keys[i]));
        assert(order.to_multiset().count(keys[i]) > 0);
        assert(order.contains(keys[i]));
        let k = choose|k: int| 0 <= k < order.len() && order[k] == keys[i];
        assert(lined[k] == paths[order[k].1]);
    }
    assert forall|i: int, j: int| 0 <= i < j < paths.len() implies path_length(
        edges,
        #[trigger] lined[i],
    ) <= path_length(edges, #[trigger] lined[j]) by {
        assert(key_order()(order[i], order[j]));
    }
}

/// What the last stage returns: paths of the list, none before a shorter
/// one, and each within the tolerance of every other.
pub proof fn lemma_ranked(edges: Seq<UnEdge>, paths: Seq<Seq<i32>>, tol: Tolerance)
    requires
        tol.den() > 0,
    ensures
        forall|k: int|
            0 <= k < ranked(edges, paths, tol).len() ==> paths.contains(
                #[trigger] ranked(edges, paths, tol)[k],
            ),
        forall|i: int, j: int|
            0 <= i < j < ranked(edges, paths, tol).len() ==> path_length(
                edges,
                #[trigger] ranked(edges, paths, tol)[i],
            ) <= path_length(edges, #[trigger] ranked(edges, paths, tol)[j]),
        forall|i: int, j: int|
            0 <= i < ranked(edges, paths, tol).len() && 0 <= j < ranked(edges, paths, tol).len()
                ==> path_length(edges, #[trigger] ranked(edges, paths, tol)[i]) * tol.den()
                <= path_length(edges, #[trigger] ranked(edges, paths, tol)[j]) * tol.num(),
{
    let lined = by_length(edges, paths);
    let out = ranked(edges, paths, tol);
    lemma_by_length(edges, paths);
    if lined.len() > 0 {
        let least = path_length(edges, lined[0]);
        let test = admitted(edges, tol, least);
        let measure = |p: Seq<i32>| path_length(edges, p);
        assert forall|i: int, j: int| 0 <= i < j < lined.len() implies measure(
            #[trigger] lined[i],
        ) <= measure(#[trigger] lined[j]) by {
            assert(path_length(edges, lined[i]) <= path_length(edges, lined[j]));
        }
        lemma_filter_keeps_order(lined, test, measure);
        assert forall|k: int| 0 <= k < out.len() implies paths.contains(#[trigger] out[k])
            && least <= path_length(edges, out[k]) && path_length(edges, out[k])
            <= tol.limit_of(least) by {
            assert(out.contains(out[k]));
            lined.lemma_filter_contains_rev(test, out[k]);
            let m = choose|m: int| 0 <= m < lined.len() && lined[m] == out[k];
            assert(paths.contains(lined[m]));
            if m > 0 {
                assert(path_length(edges, lined[0]) <= path_length(edges, lined[m]));
            }
            lined.lemma_filter_pred(test, k);
        }
        assert forall|i: int, j: int| 0 <= i < j < out.len() implies path_length(
            edges,
            #[trigger] out[i],
        ) <= path_length(edges, #[trigger] out[j]) by {
            assert(measure(out[i]) <= measure(out[j]));
        }
        assert forall|i: int, j: int| 0 <= i < out.len() && 0 <= j < out.len() implies path_length(
            edges,
            #[trigger] out[i],
        ) * tol.den() <= path_length(edges, #[trigger] out[j]) * tol.num() by {
            let a = path_length(edges, out[i]);
            let b = path_length(edges, out[j]);
            assert(paths.contains(out[i]) && paths.contains(out[j]));
            tol.lemma_limit_monotone(least, b);
            tol.lemma_limit(a, b);
        }
    }
}

/// The order of two keys as the machine holds them: by length, then by place.
pub open spec fn in_order(a: (u128, usize), b: (u128, usize)) -> bool {
    a.0 < b.0 || (a.0 == b.0 && a.1 <= b.1)
}

/// A key as the machine holds it, read as a pair of numbers without bounds.
pub open spec fn plain() -> spec_fn((u128, usize)) -> (nat, int) {
    |k: (u128, usize)| (k.0 as nat, k.1 as int)
}

/// The keys in ascending order. This is `Itertools::sorted` on the keys,
/// collected by `Itertools::collect_vec`: it holds the same keys, each as
/// often as before, and every key stands before those that are greater in
/// the order of tuples, which compares the lengths first and the places
/// second.
#[verifier::external_body]
fn sorted_keys(keys: Vec<(u128, usize)>) -> (sorted: Vec<(u128, usize)>)
    ensures
        sorted@.to_multiset() == keys@.to_multiset(),
        forall|i: int, j: int|
            0 <= i < j < sorted@.len() ==> in_order(#[trigger] sorted@[i], #[trigger] sorted@[j]),
{
    keys.into_iter().sorted().collect_vec()
}

/// Keys that hold the same members as the keys of a list of paths, and stand
/// in order, are the sorted keys of that list.
proof fn lemma_sorted_keys(
    edges: Seq<UnEdge>,
    paths: Seq<Seq<i32>>,
    keys: Seq<(u128, usize)>,
    sorted: Seq<(u128, usize)>,
)
    requires
        keys.map_values(plain()) == length_keys(edges, paths),
        sorted.to_multiset() == keys.to_multiset(),
        forall|i: int, j: int|
            0 <= i < j < sorted.len() ==> in_order(#[trigger] sorted[i], #[trigger] sorted[j]),
    ensures
        sorted.map_values(plain()) == length_keys(edges, paths).sort_by(key_order()),
        sorted.len() == paths.len(),
        forall|i: int|
            0 <= i < sorted.len() ==> 0 <= (#[trigger] sorted[i]).1 < paths.len() && sorted[i].0
                == path_length(edges, paths[sorted[i].1 as int]),
{
    broadcast use group_to_multiset_ensures;

    let math = length_keys(edges, paths);
    let lifted = sorted.map_values(plain());
    let goal = math.sort_by(key_order());
    lemma_key_order_total();
    math.lemma_sort_by_ensures(key_order());
    lemma_map_keeps_members(sorted, keys, plain());
    assert(sorted_by(lifted, key_order())) by {
        assert forall|i: int, j: int| 0 <= i < j < lifted.len() implies (#[trigger] key_order()(
            lifted[i],
            lifted[j],
        )) by {
            assert(in_order(sorted[i], sorted[j]));
        }
    }
    lemma_sorted_unique(lifted, goal, key_order());
    vstd::seq_lib::to_multiset_len(sorted);
    vstd::seq_lib::to_multiset_len(keys);
    assert(keys.map_values(plain()).len() == keys.len());
    assert(math.len() == paths.len());
    assert forall|i: int| 0 <= i < sorted.len() implies 0 <= (#[trigger] sorted[i]).1
        < paths.len() && sorted[i].0 == path_length(edges, paths[sorted[i].1 as int]) by {
        assert(sorted.contains(sorted[i]));
        assert(keys.to_multiset().count(sorted[i]) > 0);
        assert(keys.contains(sorted[i]));
        let j = choose|j: int| 0 <= j < keys.len() && keys[j] == sorted[i];
        assert(keys.map_values(plain())[j] == plain()(keys[j]));
        assert(math[j] == (path_length(edges, paths[j]), j));
    }
}

/// Puts the paths in ascending order of their lengths in `graph`, paths of
/// one length in the order in which they came, and leaves out each that is
/// longer than the tolerance allows beside the shortest. Fails where a path
/// has a step that no edge of the graph makes.
pub fn rank(results: &Vec<UnPath>, graph: &UnGraph, tol: Tolerance) -> (r: Result<
    Vec<UnPath>,
    PathError,
>)
    ensures
        match first_gap(graph@, views(results@)) {
            Some(pair) => r == Err::<Vec<UnPath>, PathError>(
                PathError::EdgeNotFound(pair.0, pair.1),
            ),
            None => r is Ok && views(r->Ok_0@) == ranked(graph@, views(results@), tol),
        },
{
    let ghost paths = views(results@);
    let mut keys: Vec<(u128, usize)> = Vec::new();
    let mut i: usize = 0;
    while i < results.len()
        invariant
            paths == views(results@),
            i <= results.len(),
            keys@.len() == i,
            first_gap(graph@, paths.take(i as int)) is None,
            forall|j: int|
                0 <= j < i ==> #[trigger] keys@[j] == (
                    path_length(graph@, paths[j]) as u128,
                    j as usize,
                ),
            forall|j: int|
                0 <= j < i ==> #[trigger] path_length(graph@, paths[j])
                    < 0x1_0000_0000_0000_0000_0000_0000,
        decreases results.len() - i,
    {
        proof {
            assert(paths.take(i + 1).drop_last() =~= paths.take(i as int));
            assert(paths[i as int] == results@[i as int]@);
        }
        match results[i].length(graph) {
            Err(e) => {
                proof {
                    lemma_first_gap_prefix(graph@, paths, i + 1);
                }
                return Err(e);
            },
            Ok(l) => {
                keys.push((l, i));
            },
        }
        i += 1;
    }
    let ghost given = keys@;
    let sorted = sorted_keys(keys);
    proof {
        assert(paths.take(i as int) =~= paths);
        assert(given.map_values(plain()) =~= length_keys(graph@, paths));
        lemma_sorted_keys(graph@, paths, given, sorted@);
    }
    let ghost order = length_keys(graph@, paths).sort_by(key_order());
    let ghost lined = by_length(graph@, paths);
    let mut kept: Vec<UnPath> = Vec::new();
    if sorted.len() == 0 {
        assert(views(kept@) =~= lined);
        return Ok(kept);
    }
    assert(lined[0] == paths[sorted@[0].1 as int]);
    let limit = tol.limit(sorted[0].0);
    let ghost test = admitted(graph@, tol, path_length(graph@, lined[0]));
    proof {
        assert(lined.take(0).filter(test) =~= Seq::<Seq<i32>>::empty()) by {
            reveal(Seq::filter);
        }
        assert(views(kept@) =~= Seq::<Seq<i32>>::empty());
    }
    let mut k: usize = 0;
    while k < sorted.len()
        invariant
            paths == views(results@),
            lined == by_length(graph@, paths),
            order == length_keys(graph@, paths).sort_by(key_order()),
            sorted@.map_values(plain()) == order,
            sorted@.len() == paths.len(),
            forall|i: int|
                0 <= i < sorted@.len() ==> 0 <= (#[trigger] sorted@[i]).1 < paths.len()
                    && sorted@[i].0 == path_length(graph@, paths[sorted@[i].1 as int]),
            test == admitted(graph@, tol, path_length(graph@, lined[0])),
            limit == tol.limit_of(path_length(graph@, lined[0])),
            k <= sorted.len(),
            views(kept@) == lined.take(k as int).filter(test),
        decreases sorted.len() - k,
    {
        let key = sorted[k];
        let ghost before = kept@;
        proof {
            lined.lemma_take_succ_push(k as int);
            lined.take(k as int).lemma_filter_push(lined[k as int], test);
            assert(lined[k as int] == paths[key.1 as int]);
            assert(paths[key.1 as int] == results@[key.1 as int]@);
        }
        if key.0 <= limit {
            kept.push(results[key.1].clone());
            assert(views(kept@) =~= views(before).push(lined[k as int]));
        }
        k += 1;
    }
    proof {
        assert(lined.take(k as int) =~= lined);
    }
    Ok(kept)
}

} // verus!
