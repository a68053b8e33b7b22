//! How many rounds are enough: where every edge has a length of one or more,
//! a search between two nodes that a walk connects is over before the number
//! of its rounds exceeds what the tolerance allows beside that walk.

use crate::complete::lemma_reaches_next_frontier;
use crate::distinct::{apart, lemma_next_round_apart};
use crate::edge::UnEdge;
use crate::giving_up::{has_step, lemma_walk_nodes, lemma_walk_steps};
use crate::lists::lemma_flatten_all;
use crate::model::{lemma_length_iff_joined, length_of};
use crate::path::{is_walk, lemma_path_length_prefix, lemma_walk_prefix, path_length};
use crate::search::{
    all_positive, arrives, bound_for, ends_at, exploring, first_round, gives_up, leads_from,
    lemma_extensions_lead, lemma_first_round_sound, lemma_next_round_sound, lemma_shortest,
    next_round, search, shortest, shortest_paths, sound, Round,
};
use crate::tolerance::Tolerance;
use vstd::prelude::*;

verus! {

/// A recorded length is the length of an edge.
pub proof fn lemma_length_of_an_edge(edges: Seq<UnEdge>, u: i32, v: i32)
    requires
        length_of(edges, u, v) is Some,
    ensures
        exists|i: int| 0 <= i < edges.len() && (#[trigger] edges[i]).length == length_of(
            edges,
            u,
            v,
        )->0,
    decreases edges.len(),
{
    if edges.last().joins(u, v) {
        assert(edges[edges.len() - 1].length == length_of(edges, u, v)->0);
    } else {
        let rest = edges.drop_last();
        lemma_length_of_an_edge(rest, u, v);
        let i = choose|i: int|
            0 <= i < rest.len() && (#[trigger] rest[i]).length == length_of(rest, u, v)->0;
        assert(edges[i].length == length_of(edges, u, v)->0);
    }
}

/// Where every edge has a length of one or more, a walk is at least as long
/// as it has steps.
pub proof fn lemma_length_counts_steps(edges: Seq<UnEdge>, nodes: Seq<i32>)
    requires
        all_positive(edges),
        is_walk(edges, nodes),
    ensures
        path_length(edges, nodes) >= nodes.len() - 1,
    decreases nodes.len(),
{
    if nodes.len() >= 2 {
        lemma_length_counts_steps(edges, nodes.drop_last());
        let u = nodes[nodes.len() - 2];
        let v = nodes.last();
        lemma_length_of_an_edge(edges, u, v);
    }
}

/// The search has found a path no longer than `length`.
pub open spec fn caught(edges: Seq<UnEdge>, round: Round, length: nat) -> bool {
    round.found.len() > 0 && shortest(edges, round.found) <= length
}

/// What holds after `steps` rounds of a search for which the walk `v`
/// arrives: a path no longer than `v` is found, or the frontier holds the
/// first `steps` steps of `v`; and once the search has made more rounds than
/// `v` has steps, no path of the frontier is longer than the tolerance allows
/// beside `v`.
pub open spec fn closing(
    edges: Seq<UnEdge>,
    tol: Tolerance,
    v: Seq<i32>,
    round: Round,
    steps: nat,
) -> bool {
    &&& caught(edges, round, path_length(edges, v)) || (steps + 1 < v.len()
        && round.frontier.contains(v.take((steps + 1) as int)))
    &&& steps + 1 > v.len() ==> forall|i: int|
        0 <= i < round.frontier.len() ==> path_length(edges, #[trigger] round.frontier[i])
            <= tol.limit_of(path_length(edges, v))
}

/// More paths have no greater a least length, and it is at most the length
/// of each of them.
pub proof fn lemma_shortest_of_more(
    edges: Seq<UnEdge>,
    had: Seq<Seq<i32>>,
    more: Seq<Seq<i32>>,
)
    ensures
        had.len() > 0 ==> shortest(edges, had + more) <= shortest(edges, had),
        forall|i: int|
            0 <= i < more.len() ==> shortest(edges, had + more) <= path_length(
                edges,
                #[trigger] more[i],
            ),
{
    let all = had + more;
    if all.len() > 0 {
        lemma_shortest(edges, all);
        if had.len() > 0 {
            lemma_shortest(edges, had);
            let m = choose|m: int|
                0 <= m < had.len() && path_length(edges, #[trigger] had[m]) == shortest(
                    edges,
                    had,
                );
            assert(all[m] == had[m]);
        }
        assert forall|i: int| 0 <= i < more.len() implies shortest(edges, all) <= path_length(
            edges,
            #[trigger] more[i],
        ) by {
            assert(all[had.len() + i] == more[i]);
        }
    }
}

/// A round keeps a search closing in.
pub proof fn lemma_next_round_closing(
    edges: Seq<UnEdge>,
    start: i32,
    end: i32,
    tol: Tolerance,
    v: Seq<i32>,
    round: Round,
    steps: nat,
)
    requires
        tol.den() > 0,
        !tol.below_one(),
        arrives(edges, start, end, v),
        sound(edges, start, end, round),
        closing(edges, tol, v, round, steps),
    ensures
        closing(edges, tol, v, next_round(edges, round, end, tol), steps + 1),
{
    let length = path_length(edges, v);
    let limit = bound_for(edges, round.found, tol);
    let next = next_round(edges, round, end, tol);
    let arrived = next.frontier.filter(ends_at(end));
    lemma_shortest_of_more(edges, round.found, arrived);
    if !caught(edges, round, length) {
        let k = (steps + 2) as int;
        let w = v.take(k);
        assert(w.drop_last() =~= v.take((steps + 1) as int));
        lemma_walk_prefix(edges, v, k);
        lemma_path_length_prefix(edges, v, k);
        if round.found.len() > 0 {
            tol.lemma_limit_admits_shortest(shortest(edges, round.found));
        }
        lemma_reaches_next_frontier(edges, round, end, tol, w);
        if k == v.len() {
            assert(w =~= v);
            let m = choose|m: int| 0 <= m < next.frontier.len() && next.frontier[m] == v;
            assert(ends_at(end)(next.frontier[m]));
            next.frontier.lemma_filter_contains(ends_at(end), m);
            let a = choose|a: int| 0 <= a < arrived.len() && arrived[a] == v;
            assert(shortest(edges, next.found) <= path_length(edges, arrived[a]));
        }
    }
    if steps + 2 > v.len() {
        // The search has found a path no longer than `v`, so the limit of
        // this round is at most what the tolerance allows beside `v`.
        assert(caught(edges, round, length));
        tol.lemma_limit_monotone(shortest(edges, round.found), length);
        let parts = round.frontier.map_values(exploring(edges, limit));
        let short = |p: Seq<i32>| path_length(edges, p) <= tol.limit_of(length);
        assert forall|i: int, j: int|
            0 <= i < parts.len() && 0 <= j < parts[i].len() implies short(
            #[trigger] parts[i][j],
        ) by {
            assert(leads_from(edges, start, round.frontier[i]));
            lemma_extensions_lead(edges, start, round.frontier[i], limit, j);
        }
        lemma_flatten_all(parts, short);
        assert forall|i: int| 0 <= i < next.frontier.len() implies path_length(
            edges,
            #[trigger] next.frontier[i],
        ) <= tol.limit_of(length) by {
            assert(short(parts.flatten()[i]));
        }
    }
}

/// A search that is closing in on a walk `v`, in a graph whose edges have a
/// length of one or more, is over when it may make more rounds in all than
/// the tolerance allows beside `v`.
pub proof fn lemma_search_finishes(
    edges: Seq<UnEdge>,
    start: i32,
    end: i32,
    tol: Tolerance,
    v: Seq<i32>,
    round: Round,
    iteration: nat,
    rounds_left: nat,
)
    requires
        tol.den() > 0,
        !tol.below_one(),
        all_positive(edges),
        arrives(edges, start, end, v),
        sound(edges, start, end, round),
        apart(round, iteration),
        closing(edges, tol, v, round, iteration),
        iteration + rounds_left > tol.limit_of(path_length(edges, v)),
    ensures
        search(edges, round, end, tol, iteration, rounds_left) is Ok,
    decreases rounds_left,
{
    if round.frontier.len() > 0 {
        if rounds_left == 0 {
            // A path of the frontier has as many steps as rounds were made,
            // and is no shorter; but it is within what the tolerance allows.
            let p = round.frontier[0];
            assert(leads_from(edges, start, p));
            lemma_length_counts_steps(edges, p);
            lemma_length_counts_steps(edges, v);
            tol.lemma_limit_admits_shortest(path_length(edges, v));
            assert(path_length(edges, p) <= tol.limit_of(path_length(edges, v)));
        } else {
            let next = next_round(edges, round, end, tol);
            if !gives_up(edges, iteration, next.found) {
                lemma_next_round_sound(edges, start, end, tol, round);
                lemma_next_round_apart(edges, round, end, tol, iteration);
                lemma_next_round_closing(edges, start, end, tol, v, round, iteration);
                lemma_search_finishes(
                    edges,
                    start,
                    end,
                    tol,
                    v,
                    next,
                    iteration + 1,
                    (rounds_left - 1) as nat,
                );
            }
        }
    }
}

/// In a graph whose edges all have a length of one or more, a search from
/// `start` to `end` does not fail when a walk leads from the one to the
/// other and the search may make more rounds than the tolerance allows
/// beside the length of that walk.
pub proof fn lemma_enough_rounds(
    edges: Seq<UnEdge>,
    start: i32,
    end: i32,
    tol: Tolerance,
    v: Seq<i32>,
    max_rounds: nat,
)
    requires
        tol.den() > 0,
        all_positive(edges),
        arrives(edges, start, end, v),
        max_rounds > tol.limit_of(path_length(edges, v)),
    ensures
        shortest_paths(edges, start, end, tol, max_rounds) is Ok,
{
    if !tol.below_one() {
        lemma_walk_nodes(edges, v, v.len() - 1);
        lemma_walk_steps(edges, v);
        assert(has_step(edges, v, 0));
        lemma_length_iff_joined(edges, v[0], v[1]);
        let i = choose|i: int| 0 <= i < edges.len() && (#[trigger] edges[i]).joins(v[0], v[1]);
        assert(edges[i].touches(start));
        lemma_first_round_sound(edges, start, end);
        let round = first_round(start);
        assert(round.frontier[0] == v.take(1)) by {
            assert(v.take(1) =~= seq![start]);
        }
        lemma_search_finishes(edges, start, end, tol, v, round, 0, max_rounds);
    }
}

} // verus!
