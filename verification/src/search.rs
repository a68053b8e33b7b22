//! The search itself: round by round, every path of the frontier is extended
//! by one step, the paths that arrive at the target are kept, and the limit
//! on the length follows the shortest path kept so far.

use crate::edge::UnEdge;
use crate::error::PathError;
use crate::graph::UnGraph;
use crate::laws::lemma_search_laws;
use crate::lists::lemma_flatten_all;
use crate::model::{is_node, lemma_neighbor_has_length, neighbors_of, node_set};
use crate::path::{
    as_bound, explored, extensions, is_walk, keeps, missing_edge, outcome_view, path_length, views,
    within, UnPath,
};
use crate::ranking::{first_gap, rank, ranked};
use crate::tolerance::Tolerance;
use rayon::iter::{IntoParallelRefIterator, ParallelIterator};
use vstd::prelude::*;

verus! {

/// Where a search stands between two rounds: the paths still to be extended
/// and the paths found so far, in the order in which they were found.
pub struct Round {
    pub frontier: Seq<Seq<i32>>,
    pub found: Seq<Seq<i32>>,
}

/// The least length among the paths; zero where there are none.
pub open spec fn shortest(edges: Seq<UnEdge>, paths: Seq<Seq<i32>>) -> nat
    decreases paths.len(),
{
    if paths.len() == 0 {
        0
    } else if paths.len() == 1 {
        path_length(edges, paths[0])
    } else {
        let among_rest = shortest(edges, paths.drop_last());
        let last = path_length(edges, paths.last());
        if last < among_rest {
            last
        } else {
            among_rest
        }
    }
}

/// The least length is the length of one of the paths, and no path is
/// shorter.
pub proof fn lemma_shortest(edges: Seq<UnEdge>, paths: Seq<Seq<i32>>)
    requires
        paths.len() > 0,
    ensures
        exists|m: int|
            0 <= m < paths.len() && path_length(edges, #[trigger] paths[m]) == shortest(
                edges,
                paths,
            ),
        forall|i: int|
            0 <= i < paths.len() ==> shortest(edges, paths) <= path_length(
                edges,
                #[trigger] paths[i],
            ),
    decreases paths.len(),
{
    if paths.len() == 1 {
        assert(path_length(edges, paths[0]) == shortest(edges, paths));
    } else {
        let rest = paths.drop_last();
        lemma_shortest(edges, rest);
        let m = choose|m: int|
            0 <= m < rest.len() && path_length(edges, #[trigger] rest[m]) == shortest(edges, rest);
        assert(rest[m] == paths[m]);
        if path_length(edges, paths.last()) < shortest(edges, rest) {
            assert(path_length(edges, paths[paths.len() - 1]) == shortest(edges, paths));
        } else {
            assert(path_length(edges, paths[m]) == shortest(edges, paths));
        }
        assert forall|i: int| 0 <= i < paths.len() implies shortest(edges, paths) <= path_length(
            edges,
            #[trigger] paths[i],
        ) by {
            if i < rest.len() {
                assert(rest[i] == paths[i]);
            }
        }
    }
}

/// The limit under which a round extends its paths: none as long as nothing
/// is found, then what the tolerance allows beside the shortest path found.
pub open spec fn bound_for(edges: Seq<UnEdge>, found: Seq<Seq<i32>>, tol: Tolerance) -> Option<
    nat,
> {
    if found.len() == 0 {
        None
    } else {
        Some(tol.limit_of(shortest(edges, found)))
    }
}

/// Exploring under a limit, as a function of the path.
pub open spec fn exploring(edges: Seq<UnEdge>, limit: Option<nat>) -> spec_fn(Seq<i32>) -> Seq<
    Seq<i32>,
> {
    |p: Seq<i32>| extensions(edges, p, limit)
}

/// The next frontier: the extensions of every path of the frontier, those of
/// the first path first.
pub open spec fn expand(edges: Seq<UnEdge>, frontier: Seq<Seq<i32>>, limit: Option<nat>) -> Seq<
    Seq<i32>,
> {
    frontier.flat_map(exploring(edges, limit))
}

/// The test for a path that arrives at `end`.
pub open spec fn ends_at(end: i32) -> spec_fn(Seq<i32>) -> bool {
    |p: Seq<i32>| p.len() > 0 && p.last() == end
}

/// One round: the frontier is expanded under the limit that the paths found
/// so far give, and the new paths that arrive at `end` are found.
pub open spec fn next_round(edges: Seq<UnEdge>, round: Round, end: i32, tol: Tolerance) -> Round {
    let frontier = expand(edges, round.frontier, bound_for(edges, round.found, tol));
    Round { frontier, found: round.found + frontier.filter(ends_at(end)) }
}

/// The start of a search: the path that stays at `start`, and nothing found.
pub open spec fn first_round(start: i32) -> Round {
    Round { frontier: seq![seq![start]], found: Seq::empty() }
}

/// The search gives up after the round with this number (the first round has
/// number zero): the graph has fewer edges than nodes, the number of the
/// round is the number of nodes, and still nothing is found.
pub open spec fn gives_up(edges: Seq<UnEdge>, iteration: nat, found: Seq<Seq<i32>>) -> bool {
    edges.len() < node_set(edges).len() && iteration == node_set(edges).len() && found.len() == 0
}

/// What a search returns that stands at `round` before the round with number
/// `iteration` and may make `rounds_left` more rounds.
pub open spec fn search(
    edges: Seq<UnEdge>,
    round: Round,
    end: i32,
    tol: Tolerance,
    iteration: nat,
    rounds_left: nat,
) -> Result<Seq<Seq<i32>>, PathError>
    decreases rounds_left,
{
    if round.frontier.len() == 0 {
        Ok(ranked(edges, round.found, tol))
    } else if rounds_left == 0 {
        Err(PathError::RoundLimit)
    } else {
        let next = next_round(edges, round, end, tol);
        if gives_up(edges, iteration, next.found) {
            Ok(Seq::empty())
        } else {
            search(edges, next, end, tol, iteration + 1, (rounds_left - 1) as nat)
        }
    }
}

/// What `compute_shortest_paths` returns.
pub open spec fn shortest_paths(
    edges: Seq<UnEdge>,
    start: i32,
    end: i32,
    tol: Tolerance,
    max_rounds: nat,
) -> Result<Seq<Seq<i32>>, PathError> {
    if tol.below_one() {
        Ok(Seq::empty())
    } else if !is_node(edges, start) {
        Err(PathError::UnknownNode(start))
    } else if !is_node(edges, end) {
        Err(PathError::UnknownNode(end))
    } else {
        search(edges, first_round(start), end, tol, 0, max_rounds)
    }
}

/// A walk of the graph that begins at `start` and ends at a node of the
/// graph.
pub open spec fn leads_from(edges: Seq<UnEdge>, start: i32, nodes: Seq<i32>) -> bool {
    is_walk(edges, nodes) && nodes[0] == start && is_node(edges, nodes.last())
}

/// What holds of a search between any two of its rounds: every path of the
/// frontier is a walk from `start`, and every path found is a walk from
/// `start` to `end`.
pub open spec fn sound(edges: Seq<UnEdge>, start: i32, end: i32, round: Round) -> bool {
    &&& forall|i: int|
        0 <= i < round.frontier.len() ==> leads_from(edges, start, #[trigger] round.frontier[i])
    &&& forall|i: int|
        0 <= i < round.found.len() ==> leads_from(edges, start, #[trigger] round.found[i])
            && round.found[i].last() == end
}

/// Every extension of a walk from `start` is a walk from `start`, one step
/// longer and within the limit.
pub proof fn lemma_extensions_lead(
    edges: Seq<UnEdge>,
    start: i32,
    nodes: Seq<i32>,
    limit: Option<nat>,
    j: int,
)
    requires
        leads_from(edges, start, nodes),
        0 <= j < extensions(edges, nodes, limit).len(),
    ensures
        leads_from(edges, start, extensions(edges, nodes, limit)[j]),
        extensions(edges, nodes, limit)[j].len() == nodes.len() + 1,
        extensions(edges, nodes, limit)[j].drop_last() == nodes,
        within(edges, extensions(edges, nodes, limit)[j], limit),
{
    let around = neighbors_of(edges, nodes.last());
    let chosen = around.filter(keeps(edges, nodes, limit));
    let n = chosen[j];
    let longer = nodes.push(n);
    assert(extensions(edges, nodes, limit)[j] == longer);
    around.lemma_filter_pred(keeps(edges, nodes, limit), j);
    assert(chosen.contains(n));
    around.lemma_filter_contains_rev(keeps(edges, nodes, limit), n);
    lemma_neighbor_has_length(edges, nodes.last(), n);
    assert(longer.drop_last() =~= nodes);
}

/// A round keeps a search sound.
pub proof fn lemma_next_round_sound(
    edges: Seq<UnEdge>,
    start: i32,
    end: i32,
    tol: Tolerance,
    round: Round,
)
    requires
        sound(edges, start, end, round),
    ensures
        sound(edges, start, end, next_round(edges, round, end, tol)),
{
    let limit = bound_for(edges, round.found, tol);
    let parts = round.frontier.map_values(exploring(edges, limit));
    let holds = |p: Seq<i32>| leads_from(edges, start, p);
    assert forall|i: int, j: int|
        0 <= i < parts.len() && 0 <= j < parts[i].len() implies holds(#[trigger] parts[i][j]) by {
        lemma_extensions_lead(edges, start, round.frontier[i], limit, j);
    }
    lemma_flatten_all(parts, holds);
    let next = next_round(edges, round, end, tol);
    assert forall|i: int| 0 <= i < next.frontier.len() implies leads_from(
        edges,
        start,
        #[trigger] next.frontier[i],
    ) by {
        assert(holds(parts.flatten()[i]));
    }
    let arrived = next.frontier.filter(ends_at(end));
    assert forall|i: int| 0 <= i < next.found.len() implies leads_from(
        edges,
        start,
        #[trigger] next.found[i],
    ) && next.found[i].last() == end by {
        if i >= round.found.len() {
            let k = i - round.found.len();
            assert(next.found[i] == arrived[k]);
            next.frontier.lemma_filter_pred(ends_at(end), k);
            assert(arrived.contains(arrived[k]));
            next.frontier.lemma_filter_contains_rev(ends_at(end), arrived[k]);
            let m = choose|m: int| 0 <= m < next.frontier.len() && next.frontier[m] == arrived[k];
            assert(leads_from(edges, start, next.frontier[m]));
        } else {
            assert(next.found[i] == round.found[i]);
        }
    }
}

/// A search is sound when it starts at a node of the graph.
pub proof fn lemma_first_round_sound(edges: Seq<UnEdge>, start: i32, end: i32)
    requires
        is_node(edges, start),
    ensures
        sound(edges, start, end, first_round(start)),
{
    let only = seq![start];
    assert(only.len() == 1);
    assert(missing_edge(edges, only) is None);
    assert(first_round(start).frontier[0] == only);
}

/// Paths that are walks have no gap among them.
pub proof fn lemma_walks_have_no_gap(edges: Seq<UnEdge>, paths: Seq<Seq<i32>>)
    requires
        forall|i: int| 0 <= i < paths.len() ==> is_walk(edges, #[trigger] paths[i]),
    ensures
        first_gap(edges, paths) is None,
    decreases paths.len(),
{
    if paths.len() > 0 {
        let rest = paths.drop_last();
        assert forall|i: int| 0 <= i < rest.len() implies is_walk(edges, #[trigger] rest[i]) by {
            assert(rest[i] == paths[i]);
        }
        lemma_walks_have_no_gap(edges, rest);
        assert(is_walk(edges, paths[paths.len() - 1]));
    }
}

/// A walk of the graph from `start` to `end`.
pub open spec fn connects(edges: Seq<UnEdge>, start: i32, end: i32, nodes: Seq<i32>) -> bool {
    is_walk(edges, nodes) && nodes[0] == start && nodes.last() == end
}

/// A walk from `start` to `end` of one step or more.
pub open spec fn arrives(edges: Seq<UnEdge>, start: i32, end: i32, nodes: Seq<i32>) -> bool {
    connects(edges, start, end, nodes) && nodes.len() >= 2
}

/// A length that the tolerance allows beside every walk that arrives, and so
/// beside the shortest of them.
pub open spec fn tolerated(
    edges: Seq<UnEdge>,
    start: i32,
    end: i32,
    tol: Tolerance,
    length: nat,
) -> bool {
    forall|v: Seq<i32>| #[trigger]
        arrives(edges, start, end, v) ==> length <= tol.limit_of(path_length(edges, v))
}

/// A walk that a search is for: it arrives, and its length is within the
/// tolerance of the length of every walk that arrives.
pub open spec fn qualifies(
    edges: Seq<UnEdge>,
    start: i32,
    end: i32,
    tol: Tolerance,
    nodes: Seq<i32>,
) -> bool {
    arrives(edges, start, end, nodes) && tolerated(
        edges,
        start,
        end,
        tol,
        path_length(edges, nodes),
    )
}

/// Every edge has a length of one or more.
pub open spec fn all_positive(edges: Seq<UnEdge>) -> bool {
    forall|i: int| 0 <= i < edges.len() ==> (#[trigger] edges[i]).length >= 1
}

/// No walk of the graph leads from `start` to `end`.
pub open spec fn unconnected(edges: Seq<UnEdge>, start: i32, end: i32) -> bool {
    forall|p: Seq<i32>| !connects(edges, start, end, p)
}

/// What a search between two nodes that no walk connects comes to, with a
/// tolerance of one or more: it ends with nothing if it may give up, which it
/// may in a graph with fewer edges than nodes, and has more rounds than the
/// graph has nodes; and else it uses up its rounds.
pub open spec fn in_vain(edges: Seq<UnEdge>, max_rounds: nat) -> Result<
    Seq<Seq<i32>>,
    PathError,
> {
    if edges.len() < node_set(edges).len() < max_rounds {
        Ok(Seq::empty())
    } else {
        Err(PathError::RoundLimit)
    }
}

/// What a list of paths must be to answer a search: every path is a walk of
/// the graph from `start` to `end`, none stands before a shorter one, and the
/// length of each is at most the tolerance times the length of any other, so
/// also of the shortest among them.
pub open spec fn answers(
    edges: Seq<UnEdge>,
    start: i32,
    end: i32,
    tol: Tolerance,
    out: Seq<Seq<i32>>,
) -> bool {
    &&& forall|k: int| 0 <= k < out.len() ==> connects(edges, start, end, #[trigger] out[k])
    &&& forall|i: int, j: int|
        0 <= i < j < out.len() ==> path_length(edges, #[trigger] out[i]) <= path_length(
            edges,
            #[trigger] out[j],
        )
    &&& forall|i: int, j: int|
        0 <= i < out.len() && 0 <= j < out.len() ==> path_length(edges, #[trigger] out[i])
            * tol.den() <= path_length(edges, #[trigger] out[j]) * tol.num()
}

/// The first failure in a list of results, if there is one.
pub open spec fn first_failure(each: Seq<Result<Vec<UnPath>, PathError>>) -> Option<PathError>
    decreases each.len(),
{
    if each.len() == 0 {
        None
    } else {
        match first_failure(each.drop_last()) {
            Some(e) => Some(e),
            None => match each.last() {
                Ok(_) => None,
                Err(e) => Some(e),
            },
        }
    }
}

/// A failure among the first results of a list is the first failure of the
/// list.
pub proof fn lemma_first_failure_prefix(each: Seq<Result<Vec<UnPath>, PathError>>, k: int)
    requires
        0 <= k <= each.len(),
        first_failure(each.take(k)) is Some,
    ensures
        first_failure(each) == first_failure(each.take(k)),
    decreases each.len(),
{
    if k == each.len() {
        assert(each.take(k) =~= each);
    } else {
        assert(each.drop_last().take(k) =~= each.take(k));
        lemma_first_failure_prefix(each.drop_last(), k);
    }
}

/// The paths of each result, as node sequences; nothing for a failure.
pub open spec fn parts_of(each: Seq<Result<Vec<UnPath>, PathError>>) -> Seq<Seq<Seq<i32>>> {
    each.map_values(
        |r: Result<Vec<UnPath>, PathError>|
            match r {
                Ok(paths) => views(paths@),
                Err(_) => Seq::empty(),
            },
    )
}

/// Joins the paths of all results into one list, those of the first result
/// first; fails with the first failure among the results.
fn merge(each: Vec<Result<Vec<UnPath>, PathError>>) -> (r: Result<Vec<UnPath>, PathError>)
    ensures
        match first_failure(each@) {
            Some(e) => r == Err::<Vec<UnPath>, PathError>(e),
            None => r is Ok && views(r->Ok_0@) == parts_of(each@).flatten(),
        },
{
    let mut all: Vec<UnPath> = Vec::new();
    proof {
        assert(parts_of(each@.take(0)) =~= Seq::<Seq<Seq<i32>>>::empty());
        assert(views(all@) =~= Seq::<Seq<i32>>::empty());
    }
    for r in it: each
        invariant
            it.seq() == each@,
            first_failure(each@.take(it.index())) is None,
            views(all@) == parts_of(each@.take(it.index())).flatten(),
    {
        let ghost seen = each@.take(it.index());
        let ghost now = each@.take(it.index() + 1);
        proof {
            assert(now.drop_last() =~= seen);
            assert(now.last() == r);
        }
        match r {
            Err(e) => {
                proof {
                    lemma_first_failure_prefix(each@, it.index() + 1);
                }
                return Err(e);
            },
            Ok(paths) => {
                let mut paths = paths;
                let ghost before = all@;
                let ghost added = paths@;
                all.append(&mut paths);
                proof {
                    assert(parts_of(now) =~= parts_of(seen).push(views(added)));
                    parts_of(seen).lemma_flatten_push(views(added));
                    assert(views(all@) =~= views(before) + views(added));
                }
            },
        }
    }
    proof {
        assert(each@.take(each@.len() as int) =~= each@);
    }
    Ok(all)
}

/// The results, in order, are without a failure when each of them is.
pub proof fn lemma_no_failure(each: Seq<Result<Vec<UnPath>, PathError>>)
    requires
        forall|i: int| 0 <= i < each.len() ==> (#[trigger] each[i]) is Ok,
    ensures
        first_failure(each) is None,
    decreases each.len(),
{
    if each.len() > 0 {
        let rest = each.drop_last();
        assert forall|i: int| 0 <= i < rest.len() implies (#[trigger] rest[i]) is Ok by {
            assert(rest[i] == each[i]);
        }
        lemma_no_failure(rest);
        assert(each[each.len() - 1] is Ok);
    }
}

/// Explores every path of the frontier, each on its own. This is rayon's
/// `par_iter` over the frontier with `map` and `collect` into a `Vec`: the
/// result holds, for each path and in the order of the frontier, what
/// `UnPath::explore` returned for it.
#[verifier::external_body]
fn explore_all(frontier: &Vec<UnPath>, graph: &UnGraph, limit: Option<u128>) -> (each: Vec<
    Result<Vec<UnPath>, PathError>,
>)
    ensures
        each@.len() == frontier@.len(),
        forall|i: int|
            0 <= i < frontier@.len() ==> outcome_view(#[trigger] each@[i]) == explored(
                graph@,
                frontier@[i]@,
                as_bound(limit),
            ),
{
    frontier.par_iter().map(|p| p.explore(graph, limit)).collect()
}

/// The shortest length so far, as the search keeps it: nothing as long as no
/// path is found, then the least length among the paths found.
pub open spec fn tracks(edges: Seq<UnEdge>, best: Option<u128>, found: Seq<Seq<i32>>) -> bool {
    match best {
        None => found.len() == 0,
        Some(least) => found.len() > 0 && least == shortest(edges, found) && least
            < 0x1_0000_0000_0000_0000_0000_0000,
    }
}

/// Adds to `results` the paths among `new_paths` that end at `end`, in
/// order, and keeps `best` at the least length among the results. Fails only
/// where one of the new paths has a step that no edge makes.
fn collect_arrivals(
    new_paths: &Vec<UnPath>,
    end: i32,
    graph: &UnGraph,
    results: &mut Vec<UnPath>,
    best: &mut Option<u128>,
) -> (r: Result<(), PathError>)
    requires
        tracks(graph@, *old(best), views(old(results)@)),
    ensures
        r is Ok ==> views(final(results)@) == views(old(results)@) + views(new_paths@).filter(
            ends_at(end),
        ),
        r is Ok ==> tracks(graph@, *final(best), views(final(results)@)),
        r is Err ==> exists|i: int|
            0 <= i < new_paths@.len() && !is_walk(graph@, (#[trigger] new_paths@[i])@),
{
    let ghost fresh = views(new_paths@);
    let ghost had = views(results@);
    proof {
        assert(fresh.take(0).filter(ends_at(end)) =~= Seq::<Seq<i32>>::empty()) by {
            reveal(Seq::filter);
        }
        assert(had + Seq::<Seq<i32>>::empty() =~= had);
    }
    let mut i: usize = 0;
    while i < new_paths.len()
        invariant
            fresh == views(new_paths@),
            had == views(old(results)@),
            i <= new_paths.len(),
            views(results@) == had + fresh.take(i as int).filter(ends_at(end)),
            tracks(graph@, *best, views(results@)),
        decreases new_paths.len() - i,
    {
        let path = &new_paths[i];
        let ghost before = views(results@);
        proof {
            fresh.lemma_take_succ_push(i as int);
            fresh.take(i as int).lemma_filter_push(fresh[i as int], ends_at(end));
            assert(fresh[i as int] == path@);
        }
        if path.last_node() == end {
            match path.length(graph) {
                Err(e) => {
                    assert(!is_walk(graph@, new_paths@[i as int]@));
                    return Err(e);
                },
                Ok(l) => {
                    let least = match *best {
                        None => l,
                        Some(m) => if l < m {
                            l
                        } else {
                            m
                        },
                    };
                    *best = Some(least);
                    results.push(path.clone());
                    proof {
                        assert(views(results@) =~= before.push(path@));
                        assert(views(results@).drop_last() =~= before);
                    }
                },
            }
        }
        i += 1;
    }
    proof {
        assert(fresh.take(i as int) =~= fresh);
    }
    Ok(())
}

impl UnGraph {
    /// All paths of one step or more from `start` to `end` whose length is
    /// within the tolerance of the shortest of them, each once, in ascending
    /// order of length. A path may visit a node more than once.
    ///
    /// The search extends all its paths by one step in each round and stops
    /// when none is left to extend. It makes `max_rounds` rounds at most and
    /// fails with `RoundLimit` where that is not enough. With a tolerance
    /// below one nothing is returned, whatever the graph and the nodes.
    pub fn compute_shortest_paths(
        &self,
        start: i32,
        end: i32,
        length_tol: Tolerance,
        max_rounds: usize,
    ) -> (r: Result<Vec<UnPath>, PathError>)
        ensures
            outcome_view(r) == shortest_paths(self@, start, end, length_tol, max_rounds as nat),
            // With a tolerance below one there is nothing to return.
            length_tol.below_one() ==> r is Ok && r->Ok_0@.len() == 0,
            // The failures that can come.
            r matches Err(e) ==> e == PathError::RoundLimit || (e == PathError::UnknownNode(start)
                && !is_node(self@, start)) || (e == PathError::UnknownNode(end) && !is_node(
                self@,
                end,
            )),
            // The paths lead from `start` to `end`, in ascending order of
            // length, each within the tolerance of the shortest.
            r is Ok ==> answers(self@, start, end, length_tol, views(r->Ok_0@)),
            r is Ok ==> views(r->Ok_0@).no_duplicates(),
            // They are the walks that qualify, and all of them.
            r is Ok && !length_tol.below_one() ==> forall|w: Seq<i32>|
                #![trigger qualifies(self@, start, end, length_tol, w)]
                views(r->Ok_0@).contains(w) <==> qualifies(self@, start, end, length_tol, w),
            // Where every edge is one long or more and a walk arrives, the
            // rounds are enough once they are more than the tolerance allows
            // beside that walk.
            all_positive(self@) ==> forall|v: Seq<i32>|
                #![trigger arrives(self@, start, end, v)]
                arrives(self@, start, end, v) && max_rounds > length_tol.limit_of(
                    path_length(self@, v),
                ) ==> r is Ok,
            // Between nodes that no walk connects, the search ends with
            // nothing if it may give up and has the rounds to come so far,
            // and else uses up its rounds.
            is_node(self@, start) && is_node(self@, end) && !length_tol.below_one() && unconnected(
                self@,
                start,
                end,
            ) ==> outcome_view(r) == in_vain(self@, max_rounds as nat),
    {
        let below_one = length_tol.is_below_one();
        proof {
            lemma_search_laws(self@, start, end, length_tol, max_rounds as nat);
        }
        if below_one {
            let nothing: Vec<UnPath> = Vec::new();
            assert(views(nothing@) =~= Seq::<Seq<i32>>::empty());
            return Ok(nothing);
        }
        if !self.has_node(start) {
            return Err(PathError::UnknownNode(start));
        }
        if !self.has_node(end) {
            return Err(PathError::UnknownNode(end));
        }
        let node_count = self.node_count();
        let edge_count = self.edge_count();
        let mut paths_to_explore: Vec<UnPath> = Vec::new();
        paths_to_explore.push(UnPath::new(start));
        let mut results: Vec<UnPath> = Vec::new();
        let mut best: Option<u128> = None;
        let mut count: usize = 0;
        proof {
            assert(views(paths_to_explore@) =~= first_round(start).frontier);
            assert(views(results@) =~= first_round(start).found);
            lemma_first_round_sound(self@, start, end);
        }
        while paths_to_explore.len() > 0 && count < max_rounds
            invariant
                length_tol.den() > 0,
                !length_tol.below_one(),
                node_count == node_set(self@).len(),
                edge_count == self@.len(),
                count <= max_rounds,
                sound(
                    self@,
                    start,
                    end,
                    Round { frontier: views(paths_to_explore@), found: views(results@) },
                ),
                tracks(self@, best, views(results@)),
                search(
                    self@,
                    Round { frontier: views(paths_to_explore@), found: views(results@) },
                    end,
                    length_tol,
                    count as nat,
                    (max_rounds - count) as nat,
                ) == shortest_paths(self@, start, end, length_tol, max_rounds as nat),
            decreases max_rounds - count,
        {
            let ghost round = Round {
                frontier: views(paths_to_explore@),
                found: views(results@),
            };
            let length_limit = match best {
                None => None,
                Some(least) => Some(length_tol.limit(least)),
            };
            assert(as_bound(length_limit) == bound_for(self@, round.found, length_tol));
            let each = explore_all(&paths_to_explore, self, length_limit);
            proof {
                let limit = as_bound(length_limit);
                assert forall|i: int| 0 <= i < each@.len() implies (#[trigger] each@[i]) is Ok
                    && parts_of(each@)[i] == exploring(self@, limit)(round.frontier[i]) by {
                    assert(leads_from(self@, start, round.frontier[i]));
                    assert(outcome_view(each@[i]) == explored(
                        self@,
                        paths_to_explore@[i]@,
                        limit,
                    ));
                }
                lemma_no_failure(each@);
                assert(parts_of(each@) =~= round.frontier.map_values(exploring(self@, limit)));
                lemma_next_round_sound(self@, start, end, length_tol, round);
            }
            let new_paths = match merge(each) {
                Err(e) => {
                    return Err(e);
                },
                Ok(paths) => paths,
            };
            let ghost next = next_round(self@, round, end, length_tol);
            proof {
                assert(views(new_paths@) == next.frontier);
                assert forall|i: int| 0 <= i < new_paths@.len() implies is_walk(
                    self@,
                    (#[trigger] new_paths@[i])@,
                ) by {
                    assert(leads_from(self@, start, next.frontier[i]));
                }
            }
            match collect_arrivals(&new_paths, end, self, &mut results, &mut best) {
                Err(e) => {
                    return Err(e);
                },
                Ok(_) => {},
            }
            paths_to_explore = new_paths;
            assert(views(results@) == next.found);
            if edge_count < node_count && count == node_count && results.len() == 0 {
                let nothing: Vec<UnPath> = Vec::new();
                proof {
                    assert(views(nothing@) =~= Seq::<Seq<i32>>::empty());
                    lemma_search_laws(self@, start, end, length_tol, max_rounds as nat);
                }
                return Ok(nothing);
            }
            count += 1;
        }
        if paths_to_explore.len() > 0 {
            return Err(PathError::RoundLimit);
        }
        proof {
            let found = views(results@);
            assert forall|i: int| 0 <= i < found.len() implies is_walk(
                self@,
                #[trigger] found[i],
            ) by {
                assert(leads_from(self@, start, found[i]));
            }
            lemma_walks_have_no_gap(self@, found);
        }
        rank(&results, self, length_tol)
    }
}

} // verus!
