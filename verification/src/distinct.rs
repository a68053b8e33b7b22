//! No path is found twice: the paths that a search returns differ from each
//! other.

use crate::edge::UnEdge;
use crate::lists::{lemma_filter_distinct, lemma_flatten_all, lemma_flatten_distinct};
use crate::model::{is_node, lemma_neighbors_distinct, neighbors_of};
use crate::path::{extend_by, extensions, keeps, path_length};
use crate::ranking::{
    admitted, by_length, key_order, lemma_key_order_total, lemma_sorted_keys_members, length_keys,
    ranked,
};
use crate::search::{
    bound_for, ends_at, exploring, first_round, gives_up, next_round, search, shortest_paths,
    Round,
};
use crate::tolerance::Tolerance;
use vstd::prelude::*;
use vstd::relations::injective;
use vstd::seq_lib::{group_to_multiset_ensures, lemma_no_dup_in_concat};

verus! {

/// What holds of a search after `steps` rounds: no path stands twice in the
/// frontier or among the paths found, every path of the frontier has `steps`
/// steps, and no path found has more.
pub open spec fn apart(round: Round, steps: nat) -> bool {
    &&& round.frontier.no_duplicates()
    &&& round.found.no_duplicates()
    &&& forall|i: int|
        0 <= i < round.frontier.len() ==> (#[trigger] round.frontier[i]).len() == steps + 1
    &&& forall|i: int|
        0 <= i < round.found.len() ==> (#[trigger] round.found[i]).len() <= steps + 1
}

/// The extensions of a path differ from each other.
pub proof fn lemma_extensions_distinct(edges: Seq<UnEdge>, nodes: Seq<i32>, limit: Option<nat>)
    ensures
        extensions(edges, nodes, limit).no_duplicates(),
{
    let around = neighbors_of(edges, nodes.last());
    lemma_neighbors_distinct(edges, nodes.last());
    lemma_filter_distinct(around, keeps(edges, nodes, limit));
    let grow = extend_by(nodes);
    assert(injective(grow)) by {
        assert forall|a: i32, b: i32| #[trigger] grow(a) == #[trigger] grow(b) implies a == b by {
            assert(nodes.push(a).last() == a);
            assert(nodes.push(b).last() == b);
        }
    }
    around.filter(keeps(edges, nodes, limit)).lemma_no_duplicates_injective(grow);
}

/// A round finds no path twice.
pub proof fn lemma_next_round_apart(
    edges: Seq<UnEdge>,
    round: Round,
    end: i32,
    tol: Tolerance,
    steps: nat,
)
    requires
        apart(round, steps),
    ensures
        apart(next_round(edges, round, end, tol), steps + 1),
{
    let limit = bound_for(edges, round.found, tol);
    let next = next_round(edges, round, end, tol);
    let parts = round.frontier.map_values(exploring(edges, limit));
    assert forall|i: int| 0 <= i < parts.len() implies (#[trigger] parts[i]).no_duplicates() by {
        lemma_extensions_distinct(edges, round.frontier[i], limit);
    }
    // An extension of a path of `steps` steps has one step more, and is that
    // path again without its last node.
    assert forall|i: int, a: int|
        0 <= i < parts.len() && 0 <= a < parts[i].len() implies (#[trigger] parts[i][a]).len()
        == steps + 2 && parts[i][a].drop_last() == round.frontier[i] by {
        let p = round.frontier[i];
        let chosen = neighbors_of(edges, p.last()).filter(keeps(edges, p, limit));
        assert(parts[i][a] == p.push(chosen[a]));
        assert(p.push(chosen[a]).drop_last() =~= p);
    }
    assert forall|i: int, j: int, a: int, b: int|
        0 <= i < j < parts.len() && 0 <= a < parts[i].len() && 0 <= b < parts[j].len()
            implies #[trigger] parts[i][a] != #[trigger] parts[j][b] by {
        assert(parts[i][a].drop_last() == round.frontier[i]);
        assert(parts[j][b].drop_last() == round.frontier[j]);
    }
    lemma_flatten_distinct(parts);
    let one_more = |p: Seq<i32>| p.len() == steps + 2;
    assert forall|i: int, a: int|
        0 <= i < parts.len() && 0 <= a < parts[i].len() implies one_more(
        #[trigger] parts[i][a],
    ) by {
        assert(parts[i][a].len() == steps + 2);
    }
    lemma_flatten_all(parts, one_more);
    assert forall|i: int| 0 <= i < next.frontier.len() implies (#[trigger] next.frontier[i]).len()
        == steps + 2 by {
        assert(one_more(parts.flatten()[i]));
    }
    let arrived = next.frontier.filter(ends_at(end));
    lemma_filter_distinct(next.frontier, ends_at(end));
    assert forall|k: int| 0 <= k < arrived.len() implies (#[trigger] arrived[k]).len() == steps
        + 2 by {
        assert(arrived.contains(arrived[k]));
        next.frontier.lemma_filter_contains_rev(ends_at(end), arrived[k]);
        let m = choose|m: int| 0 <= m < next.frontier.len() && next.frontier[m] == arrived[k];
        assert(next.frontier[m].len() == steps + 2);
    }
    assert forall|i: int, j: int|
        0 <= i < round.found.len() && 0 <= j < arrived.len() implies round.found[i]
        != arrived[j] by {
        assert(round.found[i].len() <= steps + 1);
        assert(arrived[j].len() == steps + 2);
    }
    lemma_no_dup_in_concat(round.found, arrived);
    assert forall|i: int| 0 <= i < next.found.len() implies (#[trigger] next.found[i]).len()
        <= steps + 2 by {
        if i < round.found.len() {
            assert(next.found[i] == round.found[i]);
        } else {
            assert(next.found[i] == arrived[i - round.found.len()]);
        }
    }
}

/// The last stage returns no path twice that it was given once.
pub proof fn lemma_ranked_distinct(edges: Seq<UnEdge>, paths: Seq<Seq<i32>>, tol: Tolerance)
    requires
        paths.no_duplicates(),
    ensures
        ranked(edges, paths, tol).no_duplicates(),
{
    broadcast use group_to_multiset_ensures;

    let keys = length_keys(edges, paths);
    let order = keys.sort_by(key_order());
    let lined = by_length(edges, paths);
    lemma_sorted_keys_members(edges, paths);
    lemma_key_order_total();
    keys.lemma_sort_by_ensures(key_order());
    assert(keys.no_duplicates());
    keys.lemma_multiset_has_no_duplicates();
    order.lemma_multiset_has_no_duplicates_conv();
    assert forall|i: int, j: int|
        0 <= i < lined.len() && 0 <= j < lined.len() && i != j implies lined[i] != lined[j] by {
        let a = order[i];
        let b = order[j];
        assert(lined[i] == paths[a.1] && lined[j] == paths[b.1]);
        if a.1 == b.1 {
            assert(a == b);
        }
    }
    if lined.len() > 0 {
        lemma_filter_distinct(lined, admitted(edges, tol, path_length(edges, lined[0])));
    }
}

/// A search that has found no path twice returns none twice.
pub proof fn lemma_search_distinct(
    edges: Seq<UnEdge>,
    round: Round,
    end: i32,
    tol: Tolerance,
    iteration: nat,
    rounds_left: nat,
)
    requires
        apart(round, iteration),
    ensures
        search(edges, round, end, tol, iteration, rounds_left) matches Ok(out)
            ==> out.no_duplicates(),
    decreases rounds_left,
{
    if round.frontier.len() == 0 {
        lemma_ranked_distinct(edges, round.found, tol);
    } else if rounds_left > 0 {
        let next = next_round(edges, round, end, tol);
        if !gives_up(edges, iteration, next.found) {
            lemma_next_round_apart(edges, round, end, tol, iteration);
            lemma_search_distinct(
                edges,
                next,
                end,
                tol,
                iteration + 1,
                (rounds_left - 1) as nat,
            );
        }
    }
}

/// The paths that a search returns differ from each other.
pub proof fn lemma_shortest_paths_distinct(
    edges: Seq<UnEdge>,
    start: i32,
    end: i32,
    tol: Tolerance,
    max_rounds: nat,
)
    ensures
        shortest_paths(edges, start, end, tol, max_rounds) matches Ok(out)
            ==> out.no_duplicates(),
{
    if !tol.below_one() && is_node(edges, start) && is_node(edges, end) {
        lemma_search_distinct(edges, first_round(start), end, tol, 0, max_rounds);
    }
}

} // verus!
