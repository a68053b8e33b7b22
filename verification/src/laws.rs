//! What holds of every search, whatever the graph.

use crate::complete::lemma_shortest_paths_complete;
use crate::distinct::lemma_shortest_paths_distinct;
use crate::edge::UnEdge;
use crate::error::PathError;
use crate::finishing::lemma_enough_rounds;
use crate::lists::lemma_flatten_contains;
use crate::model::{is_node, lemma_neighbors_iff_node, neighbors_of, node_set};
use crate::path::{extensions, keeps, outcome_view, path_length, UnPath};
use crate::ranking::{lemma_ranked, ranked};
use crate::search::{
    all_positive, answers, arrives, connects, expand, exploring, first_round, gives_up, in_vain,
    leads_from, lemma_first_round_sound, lemma_next_round_sound, next_round, qualifies, search,
    shortest_paths, sound, unconnected, Round,
};
use crate::tolerance::Tolerance;
use vstd::prelude::*;

verus! {

/// A sound search returns an answer, or runs out of rounds.
pub proof fn lemma_search_answers(
    edges: Seq<UnEdge>,
    start: i32,
    end: i32,
    tol: Tolerance,
    round: Round,
    iteration: nat,
    rounds_left: nat,
)
    requires
        tol.den() > 0,
        sound(edges, start, end, round),
    ensures
        match search(edges, round, end, tol, iteration, rounds_left) {
            Ok(out) => answers(edges, start, end, tol, out),
            Err(e) => e == PathError::RoundLimit,
        },
    decreases rounds_left,
{
    if round.frontier.len() == 0 {
        let out = ranked(edges, round.found, tol);
        lemma_ranked(edges, round.found, tol);
        assert forall|k: int| 0 <= k < out.len() implies connects(
            edges,
            start,
            end,
            #[trigger] out[k],
        ) by {
            assert(round.found.contains(out[k]));
            let m = choose|m: int| 0 <= m < round.found.len() && round.found[m] == out[k];
            assert(leads_from(edges, start, round.found[m]));
        }
    } else if rounds_left > 0 {
        let next = next_round(edges, round, end, tol);
        lemma_next_round_sound(edges, start, end, tol, round);
        if !gives_up(edges, iteration, next.found) {
            lemma_search_answers(
                edges,
                start,
                end,
                tol,
                next,
                iteration + 1,
                (rounds_left - 1) as nat,
            );
        }
    }
}

/// Every list of paths that a search returns answers it: the paths lead from
/// `start` to `end`, they stand in ascending order of length, and each is
/// within the tolerance of the shortest of them. A search fails only for a
/// node that the graph does not have, or for want of rounds.
pub proof fn lemma_shortest_paths_answer(
    edges: Seq<UnEdge>,
    start: i32,
    end: i32,
    tol: Tolerance,
    max_rounds: nat,
)
    requires
        tol.den() > 0,
    ensures
        match shortest_paths(edges, start, end, tol, max_rounds) {
            Ok(out) => answers(edges, start, end, tol, out),
            Err(e) => e == PathError::RoundLimit || (e == PathError::UnknownNode(start)
                && !is_node(edges, start)) || (e == PathError::UnknownNode(end) && !is_node(
                edges,
                end,
            )),
        },
{
    if !tol.below_one() && is_node(edges, start) && is_node(edges, end) {
        lemma_first_round_sound(edges, start, end);
        lemma_search_answers(edges, start, end, tol, first_round(start), 0, max_rounds);
    }
}

/// With a tolerance below one a search returns no path, whatever the graph,
/// the nodes and the number of rounds.
pub proof fn lemma_below_one_gives_nothing(
    edges: Seq<UnEdge>,
    start: i32,
    end: i32,
    tol: Tolerance,
    max_rounds: nat,
)
    requires
        tol.below_one(),
    ensures
        shortest_paths(edges, start, end, tol, max_rounds) == Ok::<Seq<Seq<i32>>, PathError>(
            Seq::empty(),
        ),
{
}

/// Where no walk leads from `start` to `end`, a search returns no path: it
/// ends with an empty list or it fails.
pub proof fn lemma_unconnected_gives_nothing(
    edges: Seq<UnEdge>,
    start: i32,
    end: i32,
    tol: Tolerance,
    max_rounds: nat,
)
    requires
        tol.den() > 0,
        unconnected(edges, start, end),
    ensures
        shortest_paths(edges, start, end, tol, max_rounds) matches Ok(out) ==> out.len() == 0,
{
    lemma_shortest_paths_answer(edges, start, end, tol, max_rounds);
    if let Ok(out) = shortest_paths(edges, start, end, tol, max_rounds) {
        if out.len() > 0 {
            assert(connects(edges, start, end, out[0]));
        }
    }
}

/// Without a limit, a frontier that holds a path leads to one that does: the
/// last node of the path has a neighbour.
pub proof fn lemma_expand_goes_on(edges: Seq<UnEdge>, start: i32, frontier: Seq<Seq<i32>>)
    requires
        frontier.len() > 0,
        leads_from(edges, start, frontier[0]),
    ensures
        expand(edges, frontier, None).len() > 0,
{
    let p = frontier[0];
    let around = neighbors_of(edges, p.last());
    let test = keeps(edges, p, None);
    lemma_neighbors_iff_node(edges, p.last());
    assert(test(around[0]));
    around.lemma_filter_contains(test, 0);
    let chosen = around.filter(test);
    let j = choose|j: int| 0 <= j < chosen.len() && chosen[j] == around[0];
    let further = extensions(edges, p, None);
    assert(further[j] == p.push(around[0]));
    assert(further.contains(further[j]));
    let parts = frontier.map_values(exploring(edges, None));
    assert(parts[0] == further);
    lemma_flatten_contains(parts, 0, further[j]);
}

/// What a search returns that has found nothing and still has a path to
/// extend, where no walk leads from `start` to `end`. Before the round at
/// which it could give up it comes to what `in_vain` says for the rounds it
/// may make in all; once that round is past, it uses up its rounds.
pub proof fn lemma_search_unconnected(
    edges: Seq<UnEdge>,
    start: i32,
    end: i32,
    tol: Tolerance,
    round: Round,
    iteration: nat,
    rounds_left: nat,
)
    requires
        sound(edges, start, end, round),
        round.found.len() == 0,
        round.frontier.len() > 0,
        unconnected(edges, start, end),
    ensures
        iteration <= node_set(edges).len() ==> search(
            edges,
            round,
            end,
            tol,
            iteration,
            rounds_left,
        ) == in_vain(edges, iteration + rounds_left),
        iteration > node_set(edges).len() ==> search(
            edges,
            round,
            end,
            tol,
            iteration,
            rounds_left,
        ) == Err::<Seq<Seq<i32>>, PathError>(PathError::RoundLimit),
    decreases rounds_left,
{
    if rounds_left > 0 {
        let next = next_round(edges, round, end, tol);
        lemma_next_round_sound(edges, start, end, tol, round);
        if next.found.len() > 0 {
            assert(connects(edges, start, end, next.found[0]));
        }
        lemma_expand_goes_on(edges, start, round.frontier);
        if !gives_up(edges, iteration, next.found) {
            lemma_search_unconnected(
                edges,
                start,
                end,
                tol,
                next,
                iteration + 1,
                (rounds_left - 1) as nat,
            );
        }
    }
}

/// Between two nodes of the graph that no walk connects, a search with a
/// tolerance of one or more ends with an empty list where the graph has fewer
/// edges than nodes and the search is given more rounds than the graph has
/// nodes. Everywhere else it goes on until its rounds are used up.
pub proof fn lemma_unconnected_outcome(
    edges: Seq<UnEdge>,
    start: i32,
    end: i32,
    tol: Tolerance,
    max_rounds: nat,
)
    requires
        is_node(edges, start),
        is_node(edges, end),
        !tol.below_one(),
        unconnected(edges, start, end),
    ensures
        shortest_paths(edges, start, end, tol, max_rounds) == in_vain(edges, max_rounds),
{
    lemma_first_round_sound(edges, start, end);
    lemma_search_unconnected(edges, start, end, tol, first_round(start), 0, max_rounds);
}

/// Two searches with the same arguments in the same graph return the same:
/// the same paths in the same order, or the same failure.
pub proof fn lemma_repeatable(
    edges: Seq<UnEdge>,
    start: i32,
    end: i32,
    tol: Tolerance,
    max_rounds: nat,
    first: Result<Vec<UnPath>, PathError>,
    second: Result<Vec<UnPath>, PathError>,
)
    requires
        outcome_view(first) == shortest_paths(edges, start, end, tol, max_rounds),
        outcome_view(second) == shortest_paths(edges, start, end, tol, max_rounds),
    ensures
        outcome_view(first) == outcome_view(second),
{
}

/// All that is proved of what a search returns, in one place: which failures
/// can come, that the paths returned answer the search, that they differ,
/// that they are the walks that qualify, when the rounds are enough, and
/// what comes of a search between nodes that no walk connects.
pub proof fn lemma_search_laws(
    edges: Seq<UnEdge>,
    start: i32,
    end: i32,
    tol: Tolerance,
    max_rounds: nat,
)
    requires
        tol.den() > 0,
    ensures
        match shortest_paths(edges, start, end, tol, max_rounds) {
            Ok(out) => {
                &&& answers(edges, start, end, tol, out)
                &&& out.no_duplicates()
                &&& !tol.below_one() ==> forall|w: Seq<i32>|
                    #![trigger qualifies(edges, start, end, tol, w)]
                    out.contains(w) <==> qualifies(edges, start, end, tol, w)
            },
            Err(e) => {
                &&& e == PathError::RoundLimit || (e == PathError::UnknownNode(start) && !is_node(
                    edges,
                    start,
                )) || (e == PathError::UnknownNode(end) && !is_node(edges, end))
                &&& all_positive(edges) ==> forall|v: Seq<i32>|
                    #![trigger arrives(edges, start, end, v)]
                    arrives(edges, start, end, v) ==> max_rounds <= tol.limit_of(
                        path_length(edges, v),
                    )
            },
        },
        is_node(edges, start) && is_node(edges, end) && !tol.below_one() && unconnected(
            edges,
            start,
            end,
        ) ==> shortest_paths(edges, start, end, tol, max_rounds) == in_vain(edges, max_rounds),
{
    lemma_shortest_paths_answer(edges, start, end, tol, max_rounds);
    lemma_shortest_paths_distinct(edges, start, end, tol, max_rounds);
    if !tol.below_one() {
        assert forall|w: Seq<i32>|
            #![trigger qualifies(edges, start, end, tol, w)]
            shortest_paths(edges, start, end, tol, max_rounds) matches Ok(out) ==> (out.contains(w)
                <==> qualifies(edges, start, end, tol, w)) by {
            lemma_shortest_paths_complete(edges, start, end, tol, max_rounds, w);
        }
        if is_node(edges, start) && is_node(edges, end) && unconnected(edges, start, end) {
            lemma_unconnected_outcome(edges, start, end, tol, max_rounds);
        }
    }
    if all_positive(edges) {
        assert forall|v: Seq<i32>|
            #![trigger arrives(edges, start, end, v)]
            arrives(edges, start, end, v) && max_rounds > tol.limit_of(
                path_length(edges, v),
            ) implies shortest_paths(edges, start, end, tol, max_rounds) is Ok by {
            lemma_enough_rounds(edges, start, end, tol, v, max_rounds);
        }
    }
}

} // verus!
