//! What a search that runs until nothing is left to extend has found: every
//! walk from the start to the target that is within the tolerance of the
//! shortest such walk, and nothing else.

use crate::edge::UnEdge;
use crate::lists::{lemma_flatten_all, lemma_flatten_contains};
use crate::giving_up::{
    lemma_first_round_unpruned, lemma_next_round_unpruned, lemma_nothing_arrives, unpruned,
};
use crate::model::{is_node, lemma_length_iff_joined, lemma_neighbors_joined, neighbors_of};
use crate::path::{
    extensions, is_walk, keeps, lemma_path_length_prefix, lemma_walk_prefix, path_length, within,
};
use crate::ranking::{admitted, by_length, lemma_by_length, lemma_ranked, ranked};
use crate::search::{
    arrives, bound_for, ends_at, exploring, first_round, gives_up, leads_from,
    lemma_extensions_lead, lemma_first_round_sound, lemma_next_round_sound, lemma_shortest,
    next_round, qualifies, search, shortest, shortest_paths, sound, tolerated, Round,
};
use crate::tolerance::Tolerance;
use vstd::prelude::*;

verus! {

/// A walk from `start` of `steps` steps whose length is tolerated. Such a
/// walk may yet grow into one that qualifies.
pub open spec fn promising(
    edges: Seq<UnEdge>,
    start: i32,
    end: i32,
    tol: Tolerance,
    steps: nat,
    nodes: Seq<i32>,
) -> bool {
    is_walk(edges, nodes) && nodes[0] == start && nodes.len() == steps + 1 && tolerated(
        edges,
        start,
        end,
        tol,
        path_length(edges, nodes),
    )
}

/// What a search has missed nothing of after `steps` rounds: the frontier
/// holds every promising walk of `steps` steps, and every walk of up to
/// `steps` steps that qualifies is found.
pub open spec fn covers(
    edges: Seq<UnEdge>,
    start: i32,
    end: i32,
    tol: Tolerance,
    round: Round,
    steps: nat,
) -> bool {
    &&& forall|i: int|
        0 <= i < round.frontier.len() ==> (#[trigger] round.frontier[i]).len() == steps + 1
    &&& forall|i: int| 0 <= i < round.found.len() ==> (#[trigger] round.found[i]).len() >= 2
    &&& forall|w: Seq<i32>| #[trigger]
        promising(edges, start, end, tol, steps, w) ==> round.frontier.contains(w)
    &&& forall|w: Seq<i32>|
        qualifies(edges, start, end, tol, w) && w.len() <= steps + 1
            ==> #[trigger] round.found.contains(w)
}

/// Among the walks that arrive there is a shortest one.
pub proof fn lemma_shortest_walk(edges: Seq<UnEdge>, start: i32, end: i32, v: Seq<i32>) -> (best:
    Seq<i32>)
    requires
        arrives(edges, start, end, v),
    ensures
        arrives(edges, start, end, best),
        forall|u: Seq<i32>| #[trigger]
            arrives(edges, start, end, u) ==> path_length(edges, best) <= path_length(edges, u),
    decreases path_length(edges, v),
{
    if forall|u: Seq<i32>| #[trigger]
        arrives(edges, start, end, u) ==> path_length(edges, v) <= path_length(edges, u) {
        v
    } else {
        let u = choose|u: Seq<i32>| #[trigger]
            arrives(edges, start, end, u) && path_length(edges, u) < path_length(edges, v);
        lemma_shortest_walk(edges, start, end, u)
    }
}

/// A length below a tolerated length is tolerated.
pub proof fn lemma_tolerated_below(
    edges: Seq<UnEdge>,
    start: i32,
    end: i32,
    tol: Tolerance,
    less: nat,
    more: nat,
)
    requires
        less <= more,
        tolerated(edges, start, end, tol, more),
    ensures
        tolerated(edges, start, end, tol, less),
{
}

/// A walk is in the next frontier when the frontier holds it without its
/// last node and it is within the limit of the round.
pub proof fn lemma_reaches_next_frontier(
    edges: Seq<UnEdge>,
    round: Round,
    end: i32,
    tol: Tolerance,
    w: Seq<i32>,
)
    requires
        w.len() >= 2,
        is_walk(edges, w),
        round.frontier.contains(w.drop_last()),
        within(edges, w, bound_for(edges, round.found, tol)),
    ensures
        next_round(edges, round, end, tol).frontier.contains(w),
{
    let u = w.drop_last();
    let n = w.last();
    let limit = bound_for(edges, round.found, tol);
    assert(w =~= u.push(n));
    let i = choose|i: int| 0 <= i < round.frontier.len() && round.frontier[i] == u;
    // The last step of `w` goes to a neighbour of the last node of `u`.
    assert(u.last() == w[w.len() - 2]);
    lemma_length_iff_joined(edges, u.last(), n);
    lemma_neighbors_joined(edges, u.last(), n);
    let around = neighbors_of(edges, u.last());
    let a = choose|a: int| 0 <= a < around.len() && around[a] == n;
    let test = keeps(edges, u, limit);
    assert(test(around[a]));
    around.lemma_filter_contains(test, a);
    let chosen = around.filter(test);
    let j = choose|j: int| 0 <= j < chosen.len() && chosen[j] == n;
    let further = extensions(edges, u, limit);
    assert(further[j] == u.push(n));
    assert(further.contains(w));
    let parts = round.frontier.map_values(exploring(edges, limit));
    assert(parts[i] == further);
    lemma_flatten_contains(parts, i, w);
}

/// The next frontier holds every promising walk of one step more than the
/// frontier has.
pub proof fn lemma_next_frontier_holds(
    edges: Seq<UnEdge>,
    start: i32,
    end: i32,
    tol: Tolerance,
    round: Round,
    steps: nat,
    w: Seq<i32>,
)
    requires
        sound(edges, start, end, round),
        covers(edges, start, end, tol, round, steps),
        promising(edges, start, end, tol, steps + 1, w),
    ensures
        next_round(edges, round, end, tol).frontier.contains(w),
{
    let u = w.drop_last();
    lemma_tolerated_below(edges, start, end, tol, path_length(edges, u), path_length(edges, w));
    assert(promising(edges, start, end, tol, steps, u));
    if round.found.len() > 0 {
        lemma_shortest(edges, round.found);
        let m = choose|m: int|
            0 <= m < round.found.len() && path_length(edges, #[trigger] round.found[m])
                == shortest(edges, round.found);
        assert(leads_from(edges, start, round.found[m]));
        assert(arrives(edges, start, end, round.found[m]));
    }
    lemma_reaches_next_frontier(edges, round, end, tol, w);
}

/// A round keeps a search from missing anything.
pub proof fn lemma_next_round_covers(
    edges: Seq<UnEdge>,
    start: i32,
    end: i32,
    tol: Tolerance,
    round: Round,
    steps: nat,
)
    requires
        sound(edges, start, end, round),
        covers(edges, start, end, tol, round, steps),
    ensures
        covers(edges, start, end, tol, next_round(edges, round, end, tol), steps + 1),
{
    let limit = bound_for(edges, round.found, tol);
    let next = next_round(edges, round, end, tol);
    let arrived = next.frontier.filter(ends_at(end));
    let parts = round.frontier.map_values(exploring(edges, limit));
    let one_more = |p: Seq<i32>| p.len() == steps + 2;
    assert forall|i: int, j: int|
        0 <= i < parts.len() && 0 <= j < parts[i].len() implies one_more(
        #[trigger] parts[i][j],
    ) by {
        assert(leads_from(edges, start, round.frontier[i]));
        lemma_extensions_lead(edges, start, round.frontier[i], limit, j);
    }
    lemma_flatten_all(parts, one_more);
    assert forall|i: int| 0 <= i < next.frontier.len() implies (#[trigger] next.frontier[i]).len()
        == steps + 2 by {
        assert(one_more(parts.flatten()[i]));
    }
    assert forall|i: int| 0 <= i < next.found.len() implies (#[trigger] next.found[i]).len()
        >= 2 by {
        if i >= round.found.len() {
            let k = i - round.found.len();
            assert(next.found[i] == arrived[k]);
            assert(arrived.contains(arrived[k]));
            next.frontier.lemma_filter_contains_rev(ends_at(end), arrived[k]);
            let m = choose|m: int| 0 <= m < next.frontier.len() && next.frontier[m] == arrived[k];
            assert(next.frontier[m].len() == steps + 2);
        } else {
            assert(next.found[i] == round.found[i]);
        }
    }
    assert forall|w: Seq<i32>| #[trigger]
        promising(edges, start, end, tol, steps + 1, w) implies next.frontier.contains(w) by {
        lemma_next_frontier_holds(edges, start, end, tol, round, steps, w);
    }
    assert forall|w: Seq<i32>|
        qualifies(edges, start, end, tol, w) && w.len() <= steps + 2
            implies #[trigger] next.found.contains(w) by {
        if w.len() <= steps + 1 {
            assert(round.found.contains(w));
            let m = choose|m: int| 0 <= m < round.found.len() && round.found[m] == w;
            assert(next.found[m] == w);
        } else {
            assert(promising(edges, start, end, tol, steps + 1, w));
            lemma_next_frontier_holds(edges, start, end, tol, round, steps, w);
            let m = choose|m: int| 0 <= m < next.frontier.len() && next.frontier[m] == w;
            assert(ends_at(end)(next.frontier[m]));
            next.frontier.lemma_filter_contains(ends_at(end), m);
            let k = choose|k: int| 0 <= k < arrived.len() && arrived[k] == w;
            assert(next.found[round.found.len() + k] == w);
        }
    }
}

/// A search misses nothing at its start.
pub proof fn lemma_first_round_covers(edges: Seq<UnEdge>, start: i32, end: i32, tol: Tolerance)
    ensures
        covers(edges, start, end, tol, first_round(start), 0),
{
    let round = first_round(start);
    assert forall|w: Seq<i32>| #[trigger]
        promising(edges, start, end, tol, 0, w) implies round.frontier.contains(w) by {
        assert(w =~= seq![start]);
        assert(round.frontier[0] == w);
    }
}

/// A search that has nothing left to extend has found every walk that
/// qualifies.
pub proof fn lemma_nothing_left(
    edges: Seq<UnEdge>,
    start: i32,
    end: i32,
    tol: Tolerance,
    round: Round,
    steps: nat,
    w: Seq<i32>,
)
    requires
        covers(edges, start, end, tol, round, steps),
        round.frontier.len() == 0,
        qualifies(edges, start, end, tol, w),
    ensures
        round.found.contains(w),
{
    if w.len() > steps + 1 {
        let k = (steps + 1) as int;
        let u = w.take(k);
        lemma_walk_prefix(edges, w, k);
        lemma_path_length_prefix(edges, w, k);
        lemma_tolerated_below(edges, start, end, tol, path_length(edges, u), path_length(edges, w));
        assert(promising(edges, start, end, tol, steps, u));
        assert(round.frontier.contains(u));
    }
}

/// What the last stage makes of the paths found by a search that has
/// nothing left to extend: the walks that qualify, all of them and no others.
pub proof fn lemma_ranked_complete(
    edges: Seq<UnEdge>,
    start: i32,
    end: i32,
    tol: Tolerance,
    round: Round,
    steps: nat,
    w: Seq<i32>,
)
    requires
        tol.den() > 0,
        !tol.below_one(),
        sound(edges, start, end, round),
        covers(edges, start, end, tol, round, steps),
        round.frontier.len() == 0,
    ensures
        ranked(edges, round.found, tol).contains(w) <==> qualifies(edges, start, end, tol, w),
{
    let found = round.found;
    let lined = by_length(edges, found);
    let out = ranked(edges, found, tol);
    lemma_by_length(edges, found);
    lemma_ranked(edges, found, tol);
    if lined.len() > 0 {
        let least = path_length(edges, lined[0]);
        let test = admitted(edges, tol, least);
        // The first in order is a walk that arrives.
        assert(found.contains(lined[0]));
        let f = choose|f: int| 0 <= f < found.len() && found[f] == lined[0];
        assert(leads_from(edges, start, found[f]));
        assert(arrives(edges, start, end, lined[0]));
        if qualifies(edges, start, end, tol, w) {
            lemma_nothing_left(edges, start, end, tol, round, steps, w);
            let m = choose|m: int| 0 <= m < found.len() && found[m] == w;
            assert(lined.contains(found[m]));
            let k = choose|k: int| 0 <= k < lined.len() && lined[k] == w;
            assert(test(lined[k]));
            lined.lemma_filter_contains(test, k);
        }
        if out.contains(w) {
            let k = choose|k: int| 0 <= k < out.len() && out[k] == w;
            assert(found.contains(out[k]));
            let m = choose|m: int| 0 <= m < found.len() && found[m] == w;
            assert(leads_from(edges, start, found[m]));
            assert(arrives(edges, start, end, w));
            lined.lemma_filter_pred(test, k);
            assert(path_length(edges, w) <= tol.limit_of(least));
            // The first in order is as short as the shortest walk there is.
            let best = lemma_shortest_walk(edges, start, end, w);
            let shortest_length = path_length(edges, best);
            assert forall|v: Seq<i32>| #[trigger]
                arrives(edges, start, end, v) implies shortest_length <= tol.limit_of(
                path_length(edges, v),
            ) by {
                tol.lemma_limit_admits_shortest(shortest_length);
                tol.lemma_limit_monotone(shortest_length, path_length(edges, v));
            }
            assert(qualifies(edges, start, end, tol, best));
            lemma_nothing_left(edges, start, end, tol, round, steps, best);
            let b = choose|b: int| 0 <= b < found.len() && found[b] == best;
            assert(lined.contains(found[b]));
            let c = choose|c: int| 0 <= c < lined.len() && lined[c] == best;
            if c > 0 {
                assert(path_length(edges, lined[0]) <= path_length(edges, lined[c]));
            }
            assert forall|v: Seq<i32>| #[trigger]
                arrives(edges, start, end, v) implies path_length(edges, w) <= tol.limit_of(
                path_length(edges, v),
            ) by {
                tol.lemma_limit_monotone(least, path_length(edges, v));
            }
        }
    } else {
        if qualifies(edges, start, end, tol, w) {
            lemma_nothing_left(edges, start, end, tol, round, steps, w);
        }
    }
}

/// A search that has missed nothing returns the walks that qualify, unless
/// it runs out of rounds.
pub proof fn lemma_search_complete(
    edges: Seq<UnEdge>,
    start: i32,
    end: i32,
    tol: Tolerance,
    round: Round,
    iteration: nat,
    rounds_left: nat,
    w: Seq<i32>,
)
    requires
        tol.den() > 0,
        !tol.below_one(),
        sound(edges, start, end, round),
        covers(edges, start, end, tol, round, iteration),
        unpruned(edges, start, end, round, iteration),
    ensures
        search(edges, round, end, tol, iteration, rounds_left) matches Ok(out) ==> (out.contains(
            w,
        ) <==> qualifies(edges, start, end, tol, w)),
    decreases rounds_left,
{
    if round.frontier.len() == 0 {
        lemma_ranked_complete(edges, start, end, tol, round, iteration, w);
    } else if rounds_left > 0 {
        let next = next_round(edges, round, end, tol);
        lemma_next_round_sound(edges, start, end, tol, round);
        lemma_next_round_covers(edges, start, end, tol, round, iteration);
        lemma_next_round_unpruned(edges, start, end, tol, round, iteration);
        if gives_up(edges, iteration, next.found) {
            lemma_nothing_arrives(edges, start, end, next, iteration + 1, w);
        } else {
            lemma_search_complete(
                edges,
                start,
                end,
                tol,
                next,
                iteration + 1,
                (rounds_left - 1) as nat,
                w,
            );
        }
    }
}

/// With a tolerance of one or more, the paths that a search returns are the
/// walks of one step or more from `start` to `end` whose length is within the
/// tolerance of the length of every such walk, and so of the shortest: all of
/// them, and no others. A search that gives up has missed none, because there
/// is none.
pub proof fn lemma_shortest_paths_complete(
    edges: Seq<UnEdge>,
    start: i32,
    end: i32,
    tol: Tolerance,
    max_rounds: nat,
    w: Seq<i32>,
)
    requires
        tol.den() > 0,
        !tol.below_one(),
    ensures
        shortest_paths(edges, start, end, tol, max_rounds) matches Ok(out) ==> (out.contains(w)
            <==> qualifies(edges, start, end, tol, w)),
{
    if is_node(edges, start) && is_node(edges, end) {
        lemma_first_round_sound(edges, start, end);
        lemma_first_round_covers(edges, start, end, tol);
        lemma_first_round_unpruned(edges, start, end);
        lemma_search_complete(edges, start, end, tol, first_round(start), 0, max_rounds, w);
    }
}

} // verus!
