//! Best-first search over a graph, one expansion per call.

use vstd::prelude::*;
use rustc_hash::FxHashMap;
use rustc_hash::FxHashSet;
use crate::geometry::{
    lemma_crossing_boxes_overlap, lemma_key_bijective, lemma_key_injective, lemma_span_bound,
    lemma_span_self, lemma_span_triangle, point_of_key, LineSegment, Point, COST_SCALE,
};
use crate::graph::{blocked, connected, visible_edges, Edge, Graph};
use crate::next_node_queue::{
    descending, distinct_points, inserted, lemma_inserted_descending, lemma_inserted_distinct,
    lemma_inserted_members, DiscoveredNode, NextNodeQueue,
};
use crate::shortest::{cheapest, lemma_initial_sound, lemma_step_sound, out_of_reach, sound};
use crate::tables::{set_contains, set_insert, table_get, table_insert};

verus! {

/// What one call of `step` found.
#[derive(Clone, Copy)]
pub enum PathfindingResult {
    /// The search goes on: call again.
    Unfinished,
    /// The destination was reached, with this node.
    Path(DiscoveredNode),
    /// The frontier ran out, or the cheapest node in it lies beyond the limit.
    NoPath,
}

/// What every step of a way costs on top of its length, in cost units: the
/// least there is, so that of two ways of equal length the one with fewer
/// waypoints is the cheaper and lengths decide in every other case.
pub const STEP_PENALTY: u64 = 1;

/// The state of a search.
pub struct Search {
    /// The frontier; the node to expand next stands last.
    pub open: Seq<DiscoveredNode>,
    /// The points that were expanded.
    pub closed: Set<Point>,
    /// The node with which each expanded point was reached.
    pub discovered: Map<Point, DiscoveredNode>,
    /// What ended the search; `Unfinished` while it goes on.
    pub found: PathfindingResult,
}

/// The links of `p` in a search for `to`: the waypoints that `p` is connected
/// to, then `to` itself where `p` is connected to it.
pub open spec fn links(nodes: Seq<Point>, walls: Seq<LineSegment>, p: Point, to: Point) -> Seq<
    Edge,
> {
    let seen = visible_edges(nodes, walls, p);
    if connected(p, to, walls) {
        seen.push(Edge { target: to, cost: p.span(to) as u64 })
    } else {
        seen
    }
}

/// The node with which the target of `edge` is reached from `current`.
pub open spec fn reached(current: DiscoveredNode, edge: Edge, to: Point) -> DiscoveredNode {
    DiscoveredNode {
        point: edge.target,
        cost: (current.cost + edge.cost + STEP_PENALTY) as u64,
        estimated: (current.cost + edge.cost + STEP_PENALTY + edge.target.span(to)) as u64,
        previous: Some(current.point),
    }
}

/// The frontier `open` after the links `followed` of `current` were followed
/// in turn: the target of each, unless it is closed, was handed in.
pub open spec fn expanded(
    open: Seq<DiscoveredNode>,
    closed: Set<Point>,
    current: DiscoveredNode,
    followed: Seq<Edge>,
    to: Point,
) -> Seq<DiscoveredNode>
    decreases followed.len(),
{
    if followed.len() == 0 {
        open
    } else {
        let before = expanded(open, closed, current, followed.drop_last(), to);
        let edge = followed.last();
        if closed.contains(edge.target) {
            before
        } else {
            inserted(before, reached(current, edge, to))
        }
    }
}

/// The node of the source of a search from `from` to `to`.
pub open spec fn source_node(from: Point, to: Point) -> DiscoveredNode {
    DiscoveredNode { point: from, cost: 0, estimated: from.span(to) as u64, previous: None }
}

/// The state in which a search from `from` to `to` starts.
pub open spec fn initial_search(from: Point, to: Point) -> Search {
    Search {
        open: seq![source_node(from, to)],
        closed: Set::empty(),
        discovered: Map::empty(),
        found: PathfindingResult::Unfinished,
    }
}

/// The search goes on with the next step: it has not ended, and the last node
/// of its frontier is within the limit and not for the destination.
pub open spec fn goes_on(search: Search, to: Point, max: int) -> bool {
    &&& search.found is Unfinished
    &&& search.open.len() > 0
    &&& search.open.last().cost <= max
    &&& search.open.last().point != to
}

/// One step of a search for `to` with cost limit `max` in cost units, among
/// `nodes` and `walls`: the state after it, and what it found.
///
/// A search that has ended stays as it is and finds again what it found.
/// Otherwise, with an empty frontier there is no path. Otherwise the last
/// node leaves the frontier. If its cost is over the limit there is no path;
/// if its point is the destination it is the path. Otherwise its point is
/// closed, the node is noted for it, and its links are followed.
pub open spec fn step_of(
    search: Search,
    nodes: Seq<Point>,
    walls: Seq<LineSegment>,
    to: Point,
    max: int,
) -> (Search, PathfindingResult) {
    if !(search.found is Unfinished) {
        (search, search.found)
    } else if search.open.len() == 0 {
        (Search { found: PathfindingResult::NoPath, ..search }, PathfindingResult::NoPath)
    } else {
        let current = search.open.last();
        let rest = search.open.drop_last();
        if current.cost > max {
            (
                Search { open: rest, found: PathfindingResult::NoPath, ..search },
                PathfindingResult::NoPath,
            )
        } else if current.point == to {
            (
                Search { open: rest, found: PathfindingResult::Path(current), ..search },
                PathfindingResult::Path(current),
            )
        } else {
            let closed = search.closed.insert(current.point);
            (
                Search {
                    open: expanded(rest, closed, current, links(nodes, walls, current.point, to), to),
                    closed,
                    discovered: search.discovered.insert(current.point, current),
                    found: PathfindingResult::Unfinished,
                },
                PathfindingResult::Unfinished,
            )
        }
    }
}

/// The points that a search from `from` may close: the source and the
/// waypoints.
pub open spec fn places(nodes: Seq<Point>, from: Point) -> Set<Point> {
    nodes.to_set().insert(from)
}

/// How many points the search may still close.
pub open spec fn unclosed(search: Search, nodes: Seq<Point>, from: Point) -> nat {
    places(nodes, from).difference(search.closed).len()
}

/// The step from `before` to `after` closed one point more: the point of the
/// last node of the frontier, which is the source or a waypoint and was not
/// closed before. One point fewer is left to close.
pub open spec fn advanced(before: Search, after: Search, nodes: Seq<Point>, from: Point) -> bool {
    &&& before.open.len() > 0
    &&& places(nodes, from).contains(before.open.last().point)
    &&& !before.closed.contains(before.open.last().point)
    &&& after.closed == before.closed.insert(before.open.last().point)
    &&& unclosed(after, nodes, from) + 1 == unclosed(before, nodes, from)
}

/// Closing a point that was open leaves one point fewer to close.
pub proof fn lemma_closing_counts(closed: Set<Point>, nodes: Seq<Point>, from: Point, p: Point)
    requires
        places(nodes, from).contains(p),
        !closed.contains(p),
    ensures
        places(nodes, from).difference(closed.insert(p)).len() + 1 == places(
            nodes,
            from,
        ).difference(closed).len(),
{
    broadcast use vstd::set::group_set_axioms;

    vstd::seq_lib::seq_to_set_is_finite(nodes);
    let open = places(nodes, from).difference(closed);
    assert(places(nodes, from).difference(closed.insert(p)) =~= open.remove(p));
    assert(open.contains(p));
    assert(open.finite());
}

/// No more points are left to close than there are waypoints, and the source.
pub proof fn lemma_unclosed_bound(search: Search, nodes: Seq<Point>, from: Point)
    ensures
        unclosed(search, nodes, from) <= nodes.len() + 1,
{
    broadcast use vstd::set::group_set_axioms;

    vstd::seq_lib::seq_to_set_is_finite(nodes);
    nodes.lemma_cardinality_of_set();
    vstd::set_lib::lemma_len_subset(
        places(nodes, from).difference(search.closed),
        places(nodes, from),
    );
}

/// The points whose keys are in `keys`.
pub open spec fn points_of(keys: Set<u64>) -> Set<Point> {
    Set::new(|p: Point| keys.contains(p.key()))
}

/// `table`, read by point in place of by key.
pub open spec fn by_point<V>(table: Map<u64, V>) -> Map<Point, V> {
    Map::new(|p: Point| table.contains_key(p.key()), |p: Point| table[p.key()])
}

/// Adding the key of a point adds the point.
pub proof fn lemma_points_of_insert(keys: Set<u64>, p: Point)
    ensures
        points_of(keys.insert(p.key())) == points_of(keys).insert(p),
{
    assert forall|q: Point|
        points_of(keys.insert(p.key())).contains(q) == points_of(keys).insert(p).contains(
            q,
        ) by {
        lemma_key_injective(q, p);
    }
    assert(points_of(keys.insert(p.key())) =~= points_of(keys).insert(p));
}

/// Writing under the key of a point writes under the point.
pub proof fn lemma_by_point_insert<V>(table: Map<u64, V>, p: Point, v: V)
    ensures
        by_point(table.insert(p.key(), v)) == by_point(table).insert(p, v),
{
    assert forall|q: Point|
        by_point(table.insert(p.key(), v)).contains_key(q) == by_point(table).insert(
            p,
            v,
        ).contains_key(q) by {
        lemma_key_injective(q, p);
    }
    assert forall|q: Point| by_point(table.insert(p.key(), v)).contains_key(q) implies by_point(
        table.insert(p.key(), v),
    )[q] == by_point(table).insert(p, v)[q] by {
        lemma_key_injective(q, p);
    }
    assert(by_point(table.insert(p.key(), v)) =~= by_point(table).insert(p, v));
}

/// Every list in `edges` is the list of links of the point of its key.
pub open spec fn cache_ok(
    edges: Map<u64, Vec<Edge>>,
    nodes: Seq<Point>,
    walls: Seq<LineSegment>,
    to: Point,
) -> bool {
    forall|k: u64|
        edges.contains_key(k) ==> (#[trigger] edges[k])@ == links(nodes, walls, point_of_key(k), to)
}

/// What holds of every link that leaves `p` in a search: it costs the length
/// of the straight way, which is free of walls, and it leads to a waypoint or
/// to the destination.
pub open spec fn link_ok(edge: Edge, p: Point, quest: Quest) -> bool {
    &&& edge.cost == p.span(edge.target)
    &&& edge.cost < 0x4_0000_0000_0000
    &&& connected(p, edge.target, quest.walls)
    &&& quest.nodes.contains(edge.target) || edge.target == quest.to
}

/// `later` holds what `earlier` held, unchanged.
pub open spec fn table_grows<V>(earlier: Map<u64, V>, later: Map<u64, V>) -> bool {
    forall|k: u64| #[trigger]
        earlier.contains_key(k) ==> later.contains_key(k) && later[k] == earlier[k]
}

/// Every link of `p` costs the distance to its target, and leads to a point
/// that `p` is connected to.
pub proof fn lemma_visible_costs(nodes: Seq<Point>, walls: Seq<LineSegment>, p: Point, i: int)
    requires
        0 <= i < visible_edges(nodes, walls, p).len(),
    ensures
        visible_edges(nodes, walls, p)[i].cost == p.span(visible_edges(nodes, walls, p)[i].target),
        visible_edges(nodes, walls, p)[i].cost < 0x4_0000_0000_0000,
        connected(p, visible_edges(nodes, walls, p)[i].target, walls),
        nodes.contains(visible_edges(nodes, walls, p)[i].target),
    decreases nodes.len(),
{
    let rest = visible_edges(nodes.drop_last(), walls, p);
    if i < rest.len() {
        lemma_visible_costs(nodes.drop_last(), walls, p, i);
        let k = choose|k: int| 0 <= k < nodes.drop_last().len() && nodes.drop_last()[k] == rest[i].target;
        assert(nodes[k] == rest[i].target);
    } else {
        assert(nodes[nodes.len() - 1] == nodes.last());
        lemma_span_bound(p, nodes.last());
    }
}

/// Every link of `p` in a search costs the distance to its target, and leads
/// to a point that `p` is connected to.
pub proof fn lemma_links_costs(
    nodes: Seq<Point>,
    walls: Seq<LineSegment>,
    p: Point,
    to: Point,
    i: int,
)
    requires
        0 <= i < links(nodes, walls, p, to).len(),
    ensures
        links(nodes, walls, p, to)[i].cost == p.span(links(nodes, walls, p, to)[i].target),
        links(nodes, walls, p, to)[i].cost < 0x4_0000_0000_0000,
        connected(p, links(nodes, walls, p, to)[i].target, walls),
        nodes.contains(links(nodes, walls, p, to)[i].target) || links(nodes, walls, p, to)[i].target
            == to,
{
    if i < visible_edges(nodes, walls, p).len() {
        lemma_visible_costs(nodes, walls, p, i);
    } else {
        lemma_span_bound(p, to);
    }
}

/// The token can go straight from `p` to `q` in a search for `to`: the two are
/// connected, and `q` is a waypoint or the destination.
pub open spec fn joined(
    nodes: Seq<Point>,
    walls: Seq<LineSegment>,
    to: Point,
    p: Point,
    q: Point,
) -> bool {
    connected(p, q, walls) && (nodes.contains(q) || q == to)
}

/// `way` is a way that the token can go: every point of it is joined to the next.
pub open spec fn route(nodes: Seq<Point>, walls: Seq<LineSegment>, to: Point, way: Seq<Point>) -> bool {
    &&& way.len() > 0
    &&& forall|i: int|
        0 <= i < way.len() - 1 ==> joined(nodes, walls, to, #[trigger] way[i], way[i + 1])
}

/// What a search is for: the way from `from` to `to` over `nodes` that crosses
/// none of `walls`.
pub struct Quest {
    pub from: Point,
    pub to: Point,
    pub nodes: Seq<Point>,
    pub walls: Seq<LineSegment>,
}

/// `node` names as the point before it one that `discovered` holds a node
/// for and that its own point is joined to, and it costs what that node costs
/// and the step from it; or it names none, is for the source and costs
/// nothing.
pub open spec fn linked(
    node: DiscoveredNode,
    discovered: Map<u64, DiscoveredNode>,
    quest: Quest,
) -> bool {
    match node.previous {
        Some(q) => {
            &&& discovered.contains_key(q.key())
            &&& discovered[q.key()].point == q
            &&& node.cost == discovered[q.key()].cost + q.span(node.point) + STEP_PENALTY
            &&& joined(quest.nodes, quest.walls, quest.to, q, node.point)
        },
        None => node.cost == 0 && node.point == quest.from,
    }
}

/// What holds of every node of the frontier.
pub open spec fn node_ok(
    node: DiscoveredNode,
    edges: Map<u64, Vec<Edge>>,
    closed: Set<u64>,
    discovered: Map<u64, DiscoveredNode>,
    quest: Quest,
) -> bool {
    &&& node.estimated == node.cost + node.point.span(quest.to)
    &&& edges.contains_key(node.point.key())
    &&& !closed.contains(node.point.key())
    &&& linked(node, discovered, quest)
    &&& places(quest.nodes, quest.from).contains(node.point) || node.point == quest.to
}

/// The frontier is in order, holds each point once, and every node of it is
/// as `node_ok` says.
pub open spec fn frontier_ok(
    open: Seq<DiscoveredNode>,
    edges: Map<u64, Vec<Edge>>,
    closed: Set<u64>,
    discovered: Map<u64, DiscoveredNode>,
    quest: Quest,
) -> bool {
    &&& descending(open)
    &&& distinct_points(open)
    &&& forall|i: int|
        0 <= i < open.len() ==> node_ok(#[trigger] open[i], edges, closed, discovered, quest)
}

/// The closed points are those with a noted node; every noted node is for the
/// point of its key, which is the source or a waypoint and not the
/// destination, and is linked.
pub open spec fn trail_ok(
    closed: Set<u64>,
    discovered: Map<u64, DiscoveredNode>,
    quest: Quest,
) -> bool {
    &&& closed == discovered.dom()
    &&& forall|k: u64|
        discovered.contains_key(k) ==> {
            &&& (#[trigger] discovered[k]).point.key() == k
            &&& linked(discovered[k], discovered, quest)
            &&& places(quest.nodes, quest.from).contains(discovered[k].point)
            &&& discovered[k].point != quest.to
        }
}

/// The closed points are those with a noted node; every noted node is for the
/// point of its key, and the node noted for the point before it costs less.
pub open spec fn costs_fall(closed: Set<u64>, discovered: Map<u64, DiscoveredNode>) -> bool {
    &&& closed == discovered.dom()
    &&& forall|k: u64|
        discovered.contains_key(k) ==> (#[trigger] discovered[k]).point.key() == k && (match discovered[k].previous {
            Some(q) => discovered.contains_key(q.key()) && discovered[q.key()].cost
                < discovered[k].cost,
            None => true,
        })
}

/// What holds of the node that ended a search with a path.
pub open spec fn found_ok(
    found: PathfindingResult,
    closed: Set<u64>,
    discovered: Map<u64, DiscoveredNode>,
    quest: Quest,
    max: int,
) -> bool {
    match found {
        PathfindingResult::Path(node) => {
            &&& linked(node, discovered, quest)
            &&& !closed.contains(node.point.key())
            &&& node.point == quest.to
            &&& node.estimated == node.cost
            &&& node.cost <= max
        },
        _ => true,
    }
}

/// The way from the source to the point of `node`: the point itself, after
/// the way to the node noted for the point before it, where `discovered` holds
/// one.
pub open spec fn way_back(discovered: Map<Point, DiscoveredNode>, node: DiscoveredNode) -> Seq<
    Point,
> {
    match node.previous {
        Some(q) => if discovered.contains_key(q) {
            trail(discovered, discovered[q]).push(node.point)
        } else {
            seq![node.point]
        },
        None => seq![node.point],
    }
}

/// The way from the source to the point of `node`, found by going back from
/// point to point through `discovered` for as long as costs fall.
pub open spec fn trail(discovered: Map<Point, DiscoveredNode>, node: DiscoveredNode) -> Seq<Point>
    decreases node.cost,
{
    match node.previous {
        Some(q) => if discovered.contains_key(q) && discovered[q].cost < node.cost {
            trail(discovered, discovered[q]).push(node.point)
        } else {
            seq![node.point]
        },
        None => seq![node.point],
    }
}

/// The keys under which the searcher holds links after the links `followed`
/// were followed: those it held, and that of every target that is not closed.
pub open spec fn cached_after(cached: Set<u64>, closed: Set<Point>, followed: Seq<Edge>) -> Set<
    u64,
>
    decreases followed.len(),
{
    if followed.len() == 0 {
        cached
    } else {
        let before = cached_after(cached, closed, followed.drop_last());
        let target = followed.last().target;
        if closed.contains(target) {
            before
        } else {
            before.insert(target.key())
        }
    }
}

/// The keys under which the graph holds links after the links `followed` were
/// followed: those it held, and that of every target that is not closed, is
/// not the source, and whose links the searcher did not hold yet.
pub open spec fn shared_after(
    shared: Set<u64>,
    cached: Set<u64>,
    closed: Set<Point>,
    from: Point,
    followed: Seq<Edge>,
) -> Set<u64>
    decreases followed.len(),
{
    if followed.len() == 0 {
        shared
    } else {
        let before = shared_after(shared, cached, closed, from, followed.drop_last());
        let held = cached_after(cached, closed, followed.drop_last());
        let target = followed.last().target;
        if closed.contains(target) || held.contains(target.key()) || target == from {
            before
        } else {
            before.insert(target.key())
        }
    }
}

/// The keys under which the searcher holds links after one step from `search`.
pub open spec fn step_cached(
    search: Search,
    cached: Set<u64>,
    nodes: Seq<Point>,
    walls: Seq<LineSegment>,
    to: Point,
    max: int,
) -> Set<u64> {
    if !goes_on(search, to, max) {
        cached
    } else {
        let current = search.open.last();
        cached_after(
            cached,
            search.closed.insert(current.point),
            links(nodes, walls, current.point, to),
        )
    }
}

/// The keys under which the graph holds links after one step from `search`.
pub open spec fn step_shared(
    search: Search,
    shared: Set<u64>,
    cached: Set<u64>,
    nodes: Seq<Point>,
    walls: Seq<LineSegment>,
    from: Point,
    to: Point,
    max: int,
) -> Set<u64> {
    if !goes_on(search, to, max) {
        shared
    } else {
        let current = search.open.last();
        shared_after(
            shared,
            cached,
            search.closed.insert(current.point),
            from,
            links(nodes, walls, current.point, to),
        )
    }
}

/// A frontier without its last node is still in order.
proof fn lemma_frontier_rest(
    open: Seq<DiscoveredNode>,
    edges: Map<u64, Vec<Edge>>,
    closed: Set<u64>,
    discovered: Map<u64, DiscoveredNode>,
    quest: Quest,
)
    requires
        frontier_ok(open, edges, closed, discovered, quest),
        open.len() > 0,
    ensures
        frontier_ok(open.drop_last(), edges, closed, discovered, quest),
        node_ok(open.last(), edges, closed, discovered, quest),
{
    let rest = open.drop_last();
    assert forall|i: int| 0 <= i < rest.len() implies node_ok(
        #[trigger] rest[i],
        edges,
        closed,
        discovered,
        quest,
    ) by {
        assert(rest[i] == open[i]);
    }
    assert(descending(rest)) by {
        assert forall|i: int, j: int| 0 <= i <= j < rest.len() implies rest[i].estimated
            >= rest[j].estimated by {
            assert(rest[i] == open[i] && rest[j] == open[j]);
        }
    }
    assert(distinct_points(rest)) by {
        assert forall|i: int, j: int| 0 <= i < j < rest.len() implies rest[i].point
            != rest[j].point by {
            assert(rest[i] == open[i] && rest[j] == open[j]);
        }
    }
}

/// Closing the point of the last node of the frontier, and noting the node
/// for it, leaves the rest of the frontier and the notes in order.
proof fn lemma_close(
    open: Seq<DiscoveredNode>,
    edges: Map<u64, Vec<Edge>>,
    closed: Set<u64>,
    discovered: Map<u64, DiscoveredNode>,
    quest: Quest,
)
    requires
        frontier_ok(open, edges, closed, discovered, quest),
        trail_ok(closed, discovered, quest),
        open.len() > 0,
        open.last().point != quest.to,
    ensures
        frontier_ok(
            open.drop_last(),
            edges,
            closed.insert(open.last().point.key()),
            discovered.insert(open.last().point.key(), open.last()),
            quest,
        ),
        trail_ok(
            closed.insert(open.last().point.key()),
            discovered.insert(open.last().point.key(), open.last()),
            quest,
        ),
{
    let current = open.last();
    let key = current.point.key();
    let rest = open.drop_last();
    let closed2 = closed.insert(key);
    let discovered2 = discovered.insert(key, current);
    lemma_frontier_rest(open, edges, closed, discovered, quest);
    assert(!discovered.contains_key(key));
    assert forall|node: DiscoveredNode| linked(node, discovered, quest) implies linked(
        node,
        discovered2,
        quest,
    ) by {}
    assert forall|i: int| 0 <= i < rest.len() implies node_ok(
        #[trigger] rest[i],
        edges,
        closed2,
        discovered2,
        quest,
    ) by {
        assert(rest[i] == open[i]);
        assert(open[i].point != open[open.len() - 1].point);
        lemma_key_injective(rest[i].point, current.point);
    }
    assert(closed2 =~= discovered2.dom());
    assert forall|k: u64| discovered2.contains_key(k) implies {
        &&& (#[trigger] discovered2[k]).point.key() == k
        &&& linked(discovered2[k], discovered2, quest)
        &&& places(quest.nodes, quest.from).contains(discovered2[k].point)
        &&& discovered2[k].point != quest.to
    } by {
        if k != key {
            assert(discovered2[k] == discovered[k]);
        }
    }
}

/// Handing a node that is as `node_ok` says in to a frontier in order leaves
/// the frontier in order.
proof fn lemma_frontier_insert(
    open: Seq<DiscoveredNode>,
    node: DiscoveredNode,
    edges: Map<u64, Vec<Edge>>,
    closed: Set<u64>,
    discovered: Map<u64, DiscoveredNode>,
    quest: Quest,
)
    requires
        frontier_ok(open, edges, closed, discovered, quest),
        node_ok(node, edges, closed, discovered, quest),
    ensures
        frontier_ok(inserted(open, node), edges, closed, discovered, quest),
{
    lemma_inserted_members(open, node);
    lemma_inserted_distinct(open, node);
    lemma_inserted_descending(open, node);
    let after = inserted(open, node);
    assert forall|i: int| 0 <= i < after.len() implies node_ok(
        #[trigger] after[i],
        edges,
        closed,
        discovered,
        quest,
    ) by {
        if after[i] != node {
            assert(open.contains(after[i]));
            let j = choose|j: int| 0 <= j < open.len() && open[j] == after[i];
            assert(node_ok(open[j], edges, closed, discovered, quest));
        }
    }
}

/// A frontier in order stays so when the searcher holds more links.
proof fn lemma_frontier_grows(
    open: Seq<DiscoveredNode>,
    earlier: Map<u64, Vec<Edge>>,
    later: Map<u64, Vec<Edge>>,
    closed: Set<u64>,
    discovered: Map<u64, DiscoveredNode>,
    quest: Quest,
)
    requires
        frontier_ok(open, earlier, closed, discovered, quest),
        table_grows(earlier, later),
    ensures
        frontier_ok(open, later, closed, discovered, quest),
{
    assert forall|i: int| 0 <= i < open.len() implies node_ok(
        #[trigger] open[i],
        later,
        closed,
        discovered,
        quest,
    ) by {
        assert(node_ok(open[i], earlier, closed, discovered, quest));
    }
}

/// A way ends at the point of the node that it was followed back from.
pub proof fn lemma_trail_ends(discovered: Map<Point, DiscoveredNode>, node: DiscoveredNode)
    ensures
        trail(discovered, node).len() > 0,
        trail(discovered, node).last() == node.point,
{
}

/// Going back one point: the way to `current` is the way to the node noted
/// for the point before it, and then the point of `current`; that node costs
/// less and is linked itself.
proof fn lemma_trail_step(
    closed: Set<u64>,
    discovered: Map<u64, DiscoveredNode>,
    current: DiscoveredNode,
    before: Point,
    quest: Quest,
)
    requires
        trail_ok(closed, discovered, quest),
        linked(current, discovered, quest),
        current.previous == Some(before),
    ensures
        discovered.contains_key(before.key()),
        discovered[before.key()].cost < current.cost,
        linked(discovered[before.key()], discovered, quest),
        trail(by_point(discovered), current) == trail(
            by_point(discovered),
            discovered[before.key()],
        ).push(current.point),
        trail(by_point(discovered), discovered[before.key()]).len() > 0,
        trail(by_point(discovered), discovered[before.key()]).last() == before,
{
    lemma_span_bound(before, current.point);
    lemma_trail_ends(by_point(discovered), discovered[before.key()]);
}

/// Moving the last point of the way that lies ahead into `path` leaves the
/// whole way as it was.
proof fn lemma_unroll_step(
    whole: Seq<Point>,
    ahead: Seq<Point>,
    behind: Seq<Point>,
    path: Seq<Point>,
    p: Point,
)
    requires
        whole == ahead.drop_last() + path.reverse(),
        ahead == behind.push(p),
        behind.len() > 0,
    ensures
        whole == behind.drop_last() + path.push(behind.last()).reverse(),
{
    assert(ahead.drop_last() =~= behind);
    assert(path.push(behind.last()).reverse() =~= seq![behind.last()] + path.reverse());
    assert(behind =~= behind.drop_last() + seq![behind.last()]);
    assert(whole =~= behind.drop_last() + (seq![behind.last()] + path.reverse()));
}

/// `points` back to front.
fn reversed(points: &Vec<Point>) -> (back: Vec<Point>)
    ensures
        back@ == points@.reverse(),
{
    let mut back: Vec<Point> = Vec::new();
    let mut i: usize = points.len();
    while i > 0
        invariant
            i <= points.len(),
            back.len() == points.len() - i,
            forall|j: int| 0 <= j < back.len() ==> back@[j] == points@[points.len() - 1 - j],
        decreases i,
    {
        i -= 1;
        back.push(points[i]);
    }
    proof {
        assert(back@ =~= points@.reverse());
    }
    back
}

/// A copy of `edges`.
fn copy_edges(edges: &Vec<Edge>) -> (copy: Vec<Edge>)
    ensures
        copy@ == edges@,
{
    let mut copy: Vec<Edge> = Vec::new();
    let mut i: usize = 0;
    while i < edges.len()
        invariant
            i <= edges.len(),
            copy@ == edges@.take(i as int),
        decreases edges.len() - i,
    {
        copy.push(edges[i]);
        proof {
            assert(edges@.take(i + 1) =~= edges@.take(i as int).push(edges@[i as int]));
        }
        i += 1;
    }
    proof {
        assert(edges@.take(i as int) =~= edges@);
    }
    copy
}

/// The links from `node` to the waypoints of `graph`, computed afresh.
fn compute_edges(graph: &Graph, node: Point) -> (edges: Vec<Edge>)
    ensures
        edges@ == visible_edges(graph.nodes@, graph.walls@, node),
{
    let mut edges: Vec<Edge> = Vec::new();
    let mut i: usize = 0;
    while i < graph.nodes.len()
        invariant
            i <= graph.nodes.len(),
            edges@ == visible_edges(graph.nodes@.take(i as int), graph.walls@, node),
        decreases graph.nodes.len() - i,
    {
        let point: Point = graph.nodes[i];
        proof {
            assert(graph.nodes@.take(i + 1).drop_last() =~= graph.nodes@.take(i as int));
            assert(graph.nodes@.take(i + 1).last() == point);
        }
        if Pathfinder::points_connected(node, point, &graph.walls) {
            edges.push(Edge { target: point, cost: node.span_to(point) });
        }
        i += 1;
    }
    proof {
        assert(graph.nodes@.take(i as int) =~= graph.nodes@);
    }
    edges
}

/// The links from `node` to the waypoints of `graph`: from the table of the
/// graph where it holds them, computed otherwise. Tells which.
fn base_edges(graph: &Graph, node: Point) -> (found: (Vec<Edge>, bool))
    requires
        graph.wf(),
    ensures
        found.0@ == visible_edges(graph.nodes@, graph.walls@, node),
        found.1 == graph.edges@.contains_key(node.key()),
{
    proof {
        lemma_key_bijective(node, 0);
    }
    match table_get(&graph.edges, node.hash_key()) {
        Some(edges) => (copy_edges(edges), true),
        None => (compute_edges(graph, node), false),
    }
}

/// `edges` with the link from `node` to the destination `to`, where the two
/// are connected.
fn with_destination(edges: Vec<Edge>, graph: &Graph, node: Point, to: Point) -> (all: Vec<Edge>)
    requires
        edges@ == visible_edges(graph.nodes@, graph.walls@, node),
    ensures
        all@ == links(graph.nodes@, graph.walls@, node, to),
{
    let mut all: Vec<Edge> = edges;
    if Pathfinder::points_connected(node, to, &graph.walls) {
        all.push(Edge { target: to, cost: node.span_to(to) });
    }
    all
}

/// Where costs fall along the back-pointers, every linked-up set of notes is
/// one.
pub proof fn lemma_trail_costs_fall(
    closed: Set<u64>,
    discovered: Map<u64, DiscoveredNode>,
    quest: Quest,
)
    requires
        trail_ok(closed, discovered, quest),
    ensures
        costs_fall(closed, discovered),
{
    assert forall|k: u64| discovered.contains_key(k) implies (#[trigger] discovered[k]).point.key()
        == k && (match discovered[k].previous {
        Some(q) => discovered.contains_key(q.key()) && discovered[q.key()].cost
            < discovered[k].cost,
        None => true,
    }) by {
        match discovered[k].previous {
            Some(q) => {
                lemma_span_bound(q, discovered[k].point);
            },
            None => {},
        }
    }
}

/// Going back one point from a noted node: the way to it is the way to the
/// node noted for the point before it, and then its own point.
proof fn lemma_fall_step(closed: Set<u64>, discovered: Map<u64, DiscoveredNode>, k: u64, before: Point)
    requires
        costs_fall(closed, discovered),
        discovered.contains_key(k),
        discovered[k].previous == Some(before),
    ensures
        discovered.contains_key(before.key()),
        discovered[before.key()].cost < discovered[k].cost,
        discovered[before.key()].point == before,
        trail(by_point(discovered), discovered[k]) == trail(
            by_point(discovered),
            discovered[before.key()],
        ).push(discovered[k].point),
        trail(by_point(discovered), discovered[before.key()]).len() > 0,
{
    lemma_key_injective(discovered[before.key()].point, before);
    lemma_trail_ends(by_point(discovered), discovered[before.key()]);
}

/// The way to a noted node goes through noted points only, none of which
/// costs more than the node and none of which comes twice.
pub proof fn lemma_trail_simple(closed: Set<u64>, discovered: Map<u64, DiscoveredNode>, k: u64)
    requires
        costs_fall(closed, discovered),
        discovered.contains_key(k),
    ensures
        trail(by_point(discovered), discovered[k]).len() > 0,
        trail(by_point(discovered), discovered[k]).last() == discovered[k].point,
        forall|i: int|
            0 <= i < trail(by_point(discovered), discovered[k]).len() ==> discovered.contains_key(
                (#[trigger] trail(by_point(discovered), discovered[k])[i]).key(),
            ) && discovered[trail(by_point(discovered), discovered[k])[i].key()].cost
                <= discovered[k].cost,
        trail(by_point(discovered), discovered[k]).no_duplicates(),
    decreases discovered[k].cost,
{
    let node = discovered[k];
    let whole = trail(by_point(discovered), node);
    lemma_trail_ends(by_point(discovered), node);
    match node.previous {
        Some(before) => {
            lemma_fall_step(closed, discovered, k, before);
            lemma_trail_simple(closed, discovered, before.key());
            let short = trail(by_point(discovered), discovered[before.key()]);
            assert(whole == short.push(node.point));
            assert forall|i: int| 0 <= i < whole.len() implies discovered.contains_key(
                (#[trigger] whole[i]).key(),
            ) && discovered[whole[i].key()].cost <= node.cost by {
                if i < short.len() {
                    assert(whole[i] == short[i]);
                }
            }
            assert forall|i: int, j: int| 0 <= i < whole.len() && 0 <= j < whole.len() && i
                != j implies whole[i] != whole[j] by {
                if i < short.len() && j < short.len() {
                    assert(whole[i] == short[i] && whole[j] == short[j]);
                } else if i < short.len() {
                    assert(whole[i] == short[i]);
                } else {
                    assert(whole[j] == short[j]);
                }
            }
        },
        None => {},
    }
}

/// The way back from a node whose point is not closed holds no point twice
/// and ends at the point of the node.
pub proof fn lemma_way_back_simple(
    closed: Set<u64>,
    discovered: Map<u64, DiscoveredNode>,
    node: DiscoveredNode,
)
    requires
        costs_fall(closed, discovered),
        !closed.contains(node.point.key()),
    ensures
        way_back(by_point(discovered), node).len() > 0,
        way_back(by_point(discovered), node).last() == node.point,
        way_back(by_point(discovered), node).no_duplicates(),
{
    let whole = way_back(by_point(discovered), node);
    match node.previous {
        Some(before) => {
            if discovered.contains_key(before.key()) {
                lemma_trail_simple(closed, discovered, before.key());
                let short = trail(by_point(discovered), discovered[before.key()]);
                assert(whole == short.push(node.point));
                assert forall|i: int, j: int| 0 <= i < whole.len() && 0 <= j < whole.len() && i
                    != j implies whole[i] != whole[j] by {
                    if i < short.len() && j < short.len() {
                        assert(whole[i] == short[i] && whole[j] == short[j]);
                    } else if i < short.len() {
                        assert(whole[i] == short[i]);
                        assert(discovered.contains_key(short[i].key()));
                    } else {
                        assert(whole[j] == short[j]);
                        assert(discovered.contains_key(short[j].key()));
                    }
                }
            }
        },
        None => {},
    }
}

/// The way back from a linked node is the way that costs fall along.
pub proof fn lemma_way_back_is_trail(
    closed: Set<u64>,
    discovered: Map<u64, DiscoveredNode>,
    node: DiscoveredNode,
    quest: Quest,
)
    requires
        trail_ok(closed, discovered, quest),
        linked(node, discovered, quest),
    ensures
        way_back(by_point(discovered), node) == trail(by_point(discovered), node),
{
    match node.previous {
        Some(before) => {
            lemma_trail_step(closed, discovered, node, before, quest);
        },
        None => {},
    }
}

/// One search from a source to a destination, with a limit on the cost.
pub struct Pathfinder {
    edges: FxHashMap<u64, Vec<Edge>>,
    from: Point,
    to: Point,
    max_distance: i64,
    next_nodes: NextNodeQueue,
    previous_nodes: FxHashSet<u64>,
    discovered_nodes: FxHashMap<u64, DiscoveredNode>,
    found: PathfindingResult,
}

impl Pathfinder {
    /// The state of the search.
    pub closed spec fn search(&self) -> Search {
        Search {
            open: self.next_nodes@,
            closed: points_of(self.previous_nodes@),
            discovered: by_point(self.discovered_nodes@),
            found: self.found,
        }
    }

    /// Where the search starts.
    pub closed spec fn source(&self) -> Point {
        self.from
    }

    /// Where the search is to end.
    pub closed spec fn destination(&self) -> Point {
        self.to
    }

    /// The length beyond which the search gives up, in grid units. Below zero
    /// nothing is within it.
    pub closed spec fn limit(&self) -> i64 {
        self.max_distance
    }

    /// The limit in cost units.
    pub open spec fn limit_cost(&self) -> int {
        self.limit() * COST_SCALE
    }

    /// The keys of the points whose links the searcher holds.
    pub closed spec fn cached(&self) -> Set<u64> {
        self.edges@.dom()
    }

    /// The searcher fits `graph`: the links that either holds are those of the
    /// graph's waypoints and walls, the frontier is in order, the searcher
    /// holds the links of every point in the frontier, no point in the
    /// frontier is closed, and every node leads back to the source.
    pub closed spec fn wf(&self, graph: &Graph) -> bool {
        &&& graph.wf()
        &&& self.max_distance <= 0xffff_ffff
        &&& cache_ok(self.edges@, graph.nodes@, graph.walls@, self.to)
        &&& frontier_ok(
            self.next_nodes@,
            self.edges@,
            self.previous_nodes@,
            self.discovered_nodes@,
            self.quest(graph),
        )
        &&& trail_ok(self.previous_nodes@, self.discovered_nodes@, self.quest(graph))
        &&& found_ok(
            self.found,
            self.previous_nodes@,
            self.discovered_nodes@,
            self.quest(graph),
            self.max_distance * COST_SCALE,
        )
    }

    /// The search has not ended yet and is as it must be to end rightly: see
    /// `sound`. This holds from `initialize` or `reset` on, for as long as
    /// `step` returns `Unfinished`.
    pub closed spec fn on_course(&self, graph: &Graph) -> bool {
        sound(self.search(), graph.nodes@, graph.walls@, self.from, self.to)
    }

    /// What the search is for, in `graph`.
    pub closed spec fn quest(&self, graph: &Graph) -> Quest {
        Quest { from: self.from, to: self.to, nodes: graph.nodes@, walls: graph.walls@ }
    }

    /// The way back from `node` to the source can be followed, no step of it
    /// crosses a wall of `graph`, and the point of `node` is not closed.
    pub closed spec fn traceable(&self, node: DiscoveredNode, graph: &Graph) -> bool {
        &&& trail_ok(self.previous_nodes@, self.discovered_nodes@, self.quest(graph))
        &&& linked(node, self.discovered_nodes@, self.quest(graph))
        &&& !self.previous_nodes@.contains(node.point.key())
    }

    /// The way back from `node` can be followed: the point before it, if it
    /// names one, has a noted node.
    pub closed spec fn resolves(&self, node: DiscoveredNode) -> bool {
        &&& costs_fall(self.previous_nodes@, self.discovered_nodes@)
        &&& match node.previous {
            Some(q) => self.discovered_nodes@.contains_key(q.key()),
            None => true,
        }
    }

    /// With a searcher that fits a graph, the way back from every node can be
    /// followed that names no point before it or one that is closed.
    pub proof fn lemma_wf_resolves(&self, graph: &Graph, node: DiscoveredNode)
        requires
            self.wf(graph),
            match node.previous {
                Some(q) => self.search().closed.contains(q),
                None => true,
            },
        ensures
            self.resolves(node),
    {
        lemma_trail_costs_fall(self.previous_nodes@, self.discovered_nodes@, self.quest(graph));
    }

    /// A searcher that fits a graph fits every graph with the same waypoints
    /// and walls whose table is in order: what other searchers add to the
    /// table of a shared graph does no harm.
    pub proof fn lemma_wf_survives(&self, graph: &Graph, other: &Graph)
        requires
            self.wf(graph),
            other.wf(),
            other.nodes@ == graph.nodes@,
            other.walls@ == graph.walls@,
        ensures
            self.wf(other),
            self.on_course(graph) ==> self.on_course(other),
            forall|node: DiscoveredNode| #[trigger]
                self.traceable(node, graph) ==> self.traceable(node, other),
    {
        assert(self.quest(graph) == self.quest(other));
    }

    /// A searcher for the way from `from` to `to` in `graph` that is no longer
    /// than `max_distance` grid units, ready for its first step. With a limit
    /// below zero no way is within it.
    pub fn initialize(from: Point, to: Point, graph: &Graph, max_distance: i64) -> (pathfinder:
        Pathfinder)
        requires
            graph.wf(),
            max_distance <= 0xffff_ffff,
        ensures
            pathfinder.search() == initial_search(from, to),
            pathfinder.source() == from,
            pathfinder.destination() == to,
            pathfinder.limit() == max_distance,
            pathfinder.cached() == set![from.key()],
            pathfinder.wf(graph),
            pathfinder.on_course(graph),
    {
        let mut pathfinder = Pathfinder {
            edges: FxHashMap::default(),
            from,
            to,
            max_distance,
            next_nodes: NextNodeQueue::new(),
            previous_nodes: FxHashSet::default(),
            discovered_nodes: FxHashMap::default(),
            found: PathfindingResult::Unfinished,
        };
        pathfinder.reset(graph);
        pathfinder
    }

    /// Starts the search over: forgets what was found and puts the source in
    /// the frontier.
    pub fn reset(&mut self, graph: &Graph)
        requires
            graph.wf(),
            old(self).limit() <= 0xffff_ffff,
        ensures
            final(self).search() == initial_search(old(self).source(), old(self).destination()),
            final(self).source() == old(self).source(),
            final(self).destination() == old(self).destination(),
            final(self).limit() == old(self).limit(),
            final(self).cached() == set![old(self).source().key()],
            final(self).wf(graph),
            final(self).on_course(graph),
    {
        self.edges.clear();
        self.next_nodes.clear();
        self.previous_nodes.clear();
        self.discovered_nodes.clear();
        self.found = PathfindingResult::Unfinished;
        let found = base_edges(graph, self.from);
        let all: Vec<Edge> = with_destination(found.0, graph, self.from, self.to);
        table_insert(&mut self.edges, self.from.hash_key(), all);
        let from_node = DiscoveredNode {
            point: self.from,
            cost: 0,
            estimated: self.from.span_to(self.to),
            previous: None,
        };
        self.next_nodes.insert(from_node);
        proof {
            lemma_key_bijective(self.from, 0);
            assert(self.next_nodes@ =~= seq![from_node]);
            assert(points_of(self.previous_nodes@) =~= Set::<Point>::empty());
            assert(by_point(self.discovered_nodes@) =~= Map::<Point, DiscoveredNode>::empty());
            assert(self.edges@.dom() =~= set![self.from.key()]);
            lemma_initial_sound(graph.nodes@, graph.walls@, self.from, self.to);
        }
    }

    /// Makes sure that `edges` holds the links of `node`: takes them from the
    /// table of the graph, or computes them and, unless `node` is the source
    /// `from`, notes them in that table too; then adds the link to the
    /// destination `to`.
    fn initialize_edges(
        edges: &mut FxHashMap<u64, Vec<Edge>>,
        graph: &mut Graph,
        from: Point,
        to: Point,
        node: Point,
    )
        requires
            old(graph).wf(),
            cache_ok(old(edges)@, old(graph).nodes@, old(graph).walls@, to),
        ensures
            final(graph).nodes@ == old(graph).nodes@,
            final(graph).walls@ == old(graph).walls@,
            final(graph).wf(),
            table_grows(old(graph).edges@, final(graph).edges@),
            final(graph).edges@.dom() == (if old(edges)@.contains_key(node.key()) || node == from {
                old(graph).edges@.dom()
            } else {
                old(graph).edges@.dom().insert(node.key())
            }),
            cache_ok(final(edges)@, old(graph).nodes@, old(graph).walls@, to),
            table_grows(old(edges)@, final(edges)@),
            final(edges)@.dom() == old(edges)@.dom().insert(node.key()),
    {
        let key: u64 = node.hash_key();
        proof {
            lemma_key_bijective(node, 0);
        }
        if table_get(edges, key).is_some() {
            proof {
                assert(edges@.dom() =~= old(edges)@.dom().insert(node.key()));
            }
            return ;
        }
        let found = base_edges(graph, node);
        let seen: Vec<Edge> = found.0;
        if !found.1 && node != from {
            table_insert(&mut graph.edges, key, copy_edges(&seen));
        }
        proof {
            assert(graph.edges@.dom() =~= (if node == from {
                old(graph).edges@.dom()
            } else {
                old(graph).edges@.dom().insert(node.key())
            }));
        }
        let all: Vec<Edge> = with_destination(seen, graph, node, to);
        table_insert(edges, key, all);
        proof {
            assert(edges@.dom() =~= old(edges)@.dom().insert(node.key()));
        }
    }

    /// Goes one step on: takes the node with the lowest estimate from the
    /// frontier and, unless the search ends with it, expands it. See `step_of`.
    ///
    /// A search that has ended stays ended: every further step changes
    /// nothing and returns what ended it, until `reset`.
    ///
    /// The graph keeps its waypoints and walls; its table of links stays in
    /// order, keeps what it held and gains the links of the targets that were
    /// newly met.
    ///
    /// A step that returns `Unfinished` has closed a point that was not closed
    /// before, so that no more such steps can follow one another than there
    /// are waypoints, and one for the source.
    ///
    /// As long as the search is on course, it ends rightly: a path that it
    /// finds is a cheapest way from the source to the destination, and where
    /// it finds none, no way is within the limit.
    pub fn step(&mut self, graph: &mut Graph) -> (result: PathfindingResult)
        requires
            old(self).wf(old(graph)),
        ensures
            (final(self).search(), result) == step_of(
                old(self).search(),
                old(graph).nodes@,
                old(graph).walls@,
                old(self).destination(),
                old(self).limit_cost(),
            ),
            final(self).source() == old(self).source(),
            final(self).destination() == old(self).destination(),
            final(self).limit() == old(self).limit(),
            final(self).wf(final(graph)),
            final(graph).wf(),
            final(graph).nodes@ == old(graph).nodes@,
            final(graph).walls@ == old(graph).walls@,
            table_grows(old(graph).edges@, final(graph).edges@),
            final(self).cached() == step_cached(
                old(self).search(),
                old(self).cached(),
                old(graph).nodes@,
                old(graph).walls@,
                old(self).destination(),
                old(self).limit_cost(),
            ),
            final(graph).edges@.dom() == step_shared(
                old(self).search(),
                old(graph).edges@.dom(),
                old(self).cached(),
                old(graph).nodes@,
                old(graph).walls@,
                old(self).source(),
                old(self).destination(),
                old(self).limit_cost(),
            ),
            result matches PathfindingResult::Path(node) ==> final(self).traceable(
                node,
                final(graph),
            ) && final(self).resolves(node) && node.point == old(self).destination()
                && node.estimated == node.cost && node.cost <= old(self).limit_cost(),
            result is Unfinished ==> advanced(
                old(self).search(),
                final(self).search(),
                old(graph).nodes@,
                old(self).source(),
            ),
            old(self).on_course(old(graph)) && result is Unfinished
                ==> final(self).on_course(final(graph)),
            old(self).on_course(old(graph)) ==> (result matches PathfindingResult::Path(node)
                ==> cheapest(
                node.cost as int,
                old(graph).nodes@,
                old(graph).walls@,
                old(self).source(),
                old(self).destination(),
                old(self).destination(),
            )),
            old(self).on_course(old(graph)) && result is NoPath ==> out_of_reach(
                old(self).limit_cost(),
                old(graph).nodes@,
                old(graph).walls@,
                old(self).source(),
                old(self).destination(),
            ),
    {
        let ghost nodes = graph.nodes@;
        let ghost walls = graph.walls@;
        let ghost quest = self.quest(graph);
        let ghost max = self.max_distance * COST_SCALE;
        proof {
            if self.on_course(graph) {
                lemma_step_sound(self.search(), nodes, walls, self.from, self.to, max);
            }
            lemma_trail_costs_fall(self.previous_nodes@, self.discovered_nodes@, quest);
        }
        match self.found {
            PathfindingResult::Unfinished => {},
            PathfindingResult::Path(node) => {
                return PathfindingResult::Path(node);
            },
            PathfindingResult::NoPath => {
                return PathfindingResult::NoPath;
            },
        }
        if self.next_nodes.is_empty() {
            self.found = PathfindingResult::NoPath;
            return PathfindingResult::NoPath;
        }
        let ghost open0 = self.next_nodes@;
        let ghost closed0 = self.previous_nodes@;
        let ghost noted0 = self.discovered_nodes@;
        let ghost local0 = self.edges@;
        let ghost shared0 = graph.edges@;
        proof {
            lemma_frontier_rest(open0, local0, closed0, noted0, quest);
        }
        let current: DiscoveredNode = match self.next_nodes.pop() {
            Some(node) => node,
            None => {
                return PathfindingResult::NoPath;
            },
        };
        if self.max_distance < 0 || current.cost > (self.max_distance as u64) * COST_SCALE {
            self.found = PathfindingResult::NoPath;
            return PathfindingResult::NoPath;
        }
        if current.point == self.to {
            proof {
                lemma_span_self(self.to);
            }
            self.found = PathfindingResult::Path(current);
            return PathfindingResult::Path(current);
        }
        let key: u64 = current.point.hash_key();
        set_insert(&mut self.previous_nodes, key);
        table_insert(&mut self.discovered_nodes, key, current);
        let ghost closed1 = self.previous_nodes@;
        let ghost noted1 = self.discovered_nodes@;
        let ghost rest = open0.drop_last();
        let ghost to = self.to;
        let ghost from = self.from;
        proof {
            lemma_close(open0, local0, closed0, noted0, quest);
            lemma_points_of_insert(closed0, current.point);
            lemma_by_point_insert(noted0, current.point, current);
            lemma_key_bijective(current.point, 0);
            lemma_closing_counts(points_of(closed0), nodes, from, current.point);
        }
        let followed: Vec<Edge> = match table_get(&self.edges, key) {
            Some(list) => copy_edges(list),
            None => Vec::new(),
        };
        proof {
            assert(followed@ == links(nodes, walls, current.point, to));
            assert forall|j: int| 0 <= j < followed.len() implies link_ok(
                #[trigger] followed[j],
                current.point,
                quest,
            ) by {
                lemma_links_costs(nodes, walls, current.point, to, j);
            }
        }
        let mut i: usize = 0;
        while i < followed.len()
            invariant
                i <= followed.len(),
                self.from == from,
                self.to == to,
                self.max_distance == old(self).max_distance,
                self.found == old(self).found,
                self.found is Unfinished,
                self.previous_nodes@ == closed1,
                self.discovered_nodes@ == noted1,
                graph.nodes@ == nodes,
                graph.walls@ == walls,
                graph.wf(),
                cache_ok(self.edges@, nodes, walls, to),
                table_grows(shared0, graph.edges@),
                table_grows(local0, self.edges@),
                self.edges@.dom() == cached_after(
                    local0.dom(),
                    points_of(closed1),
                    followed@.take(i as int),
                ),
                graph.edges@.dom() == shared_after(
                    shared0.dom(),
                    local0.dom(),
                    points_of(closed1),
                    from,
                    followed@.take(i as int),
                ),
                self.next_nodes@ == expanded(
                    rest,
                    points_of(closed1),
                    current,
                    followed@.take(i as int),
                    to,
                ),
                quest == (Quest { from, to, nodes, walls }),
                frontier_ok(self.next_nodes@, self.edges@, closed1, noted1, quest),
                trail_ok(closed1, noted1, quest),
                current.cost <= 0xffff_ffff * 100_000,
                noted1.contains_key(current.point.key()),
                noted1[current.point.key()] == current,
                forall|j: int|
                    0 <= j < followed.len() ==> link_ok(#[trigger] followed[j], current.point, quest),
            decreases followed.len() - i,
        {
            let edge: Edge = followed[i];
            let neighbor: Point = edge.target;
            proof {
                assert(followed@.take(i + 1).drop_last() =~= followed@.take(i as int));
                assert(followed@.take(i + 1).last() == edge);
                assert(link_ok(followed[i as int], current.point, quest));
            }
            if !set_contains(&self.previous_nodes, neighbor.hash_key()) {
                let ghost held = self.edges@;
                let ghost open = self.next_nodes@;
                Self::initialize_edges(&mut self.edges, graph, self.from, self.to, neighbor);
                let cost: u64 = current.cost + edge.cost + STEP_PENALTY;
                let discovered_neighbor = DiscoveredNode {
                    point: neighbor,
                    cost,
                    estimated: cost + neighbor.span_to(self.to),
                    previous: Some(current.point),
                };
                proof {
                    assert(discovered_neighbor == reached(current, edge, to));
                    lemma_frontier_grows(open, held, self.edges@, closed1, noted1, quest);
                    lemma_frontier_insert(
                        open,
                        discovered_neighbor,
                        self.edges@,
                        closed1,
                        noted1,
                        quest,
                    );
                    assert(graph.edges@.dom() =~= shared_after(
                        shared0.dom(),
                        local0.dom(),
                        points_of(closed1),
                        from,
                        followed@.take(i + 1),
                    ));
                }
                self.next_nodes.insert(discovered_neighbor);
            }
            i += 1;
        }
        proof {
            assert(followed@.take(i as int) =~= followed@);
            if old(self).on_course(old(graph)) {
                lemma_step_sound(old(self).search(), nodes, walls, from, to, max);
            }
        }
        PathfindingResult::Unfinished
    }

    /// The way from the source to the point of `first_node`, the source first:
    /// see `way_back`. Where the point of `first_node` is not closed, as with
    /// a node that `step` returned, no point comes twice in it.
    pub fn unroll_path(&self, first_node: DiscoveredNode) -> (path: Vec<Point>)
        requires
            self.resolves(first_node),
        ensures
            path@ == way_back(self.search().discovered, first_node),
            path@.len() > 0,
            path@.last() == first_node.point,
            !self.search().closed.contains(first_node.point) ==> path@.no_duplicates(),
    {
        let ghost noted = by_point(self.discovered_nodes@);
        let ghost whole = way_back(noted, first_node);
        let mut path: Vec<Point> = Vec::new();
        path.push(first_node.point);
        let start: Option<DiscoveredNode> = match first_node.previous {
            Some(before) => {
                match table_get(&self.discovered_nodes, before.hash_key()) {
                    Some(node) => Some(*node),
                    None => None,
                }
            },
            None => None,
        };
        let mut current: DiscoveredNode = match start {
            Some(node) => node,
            None => {
                proof {
                    assert(path@.reverse() =~= path@);
                    assert(whole =~= path@);
                    assert(path@.no_duplicates());
                }
                return path;
            },
        };
        path.push(current.point);
        let mut previous: Option<Point> = current.previous;
        proof {
            let before = first_node.previous.unwrap();
            lemma_key_injective(current.point, before);
            lemma_trail_simple(self.previous_nodes@, self.discovered_nodes@, before.key());
            assert(path@.reverse() =~= seq![current.point, first_node.point]);
            assert(trail(noted, current) =~= trail(noted, current).drop_last().push(current.point));
            assert(whole =~= trail(noted, current).drop_last() + path@.reverse());
            if !self.previous_nodes@.contains(first_node.point.key()) {
                lemma_way_back_simple(self.previous_nodes@, self.discovered_nodes@, first_node);
            }
        }
        while previous.is_some()
            invariant
                noted == by_point(self.discovered_nodes@),
                costs_fall(self.previous_nodes@, self.discovered_nodes@),
                self.discovered_nodes@.contains_key(current.point.key()),
                self.discovered_nodes@[current.point.key()] == current,
                previous == current.previous,
                trail(noted, current).len() > 0,
                whole == trail(noted, current).drop_last() + path@.reverse(),
            decreases current.cost,
        {
            let before: Point = previous.unwrap();
            proof {
                lemma_fall_step(
                    self.previous_nodes@,
                    self.discovered_nodes@,
                    current.point.key(),
                    before,
                );
            }
            match table_get(&self.discovered_nodes, before.hash_key()) {
                Some(node) => {
                    proof {
                        lemma_unroll_step(
                            whole,
                            trail(noted, current),
                            trail(noted, *node),
                            path@,
                            current.point,
                        );
                    }
                    current = *node;
                    path.push(current.point);
                    previous = current.previous;
                },
                None => {
                    previous = None;
                },
            }
        }
        proof {
            assert(trail(noted, current) =~= seq![current.point]);
            assert(trail(noted, current).drop_last() + path@.reverse() =~= path@.reverse());
            assert(whole.last() == first_node.point);
        }
        reversed(&path)
    }

    /// Whether the straight way from `p1` to `p2` is free of `walls`.
    pub fn points_connected(p1: Point, p2: Point, walls: &Vec<LineSegment>) -> (r: bool)
        ensures
            r == connected(p1, p2, walls@),
    {
        !Self::collides_with_any_wall(&LineSegment::new(p1, p2), walls)
    }

    /// Whether one of `walls` crosses `line`.
    pub fn collides_with_any_wall(line: &LineSegment, walls: &Vec<LineSegment>) -> (r: bool)
        ensures
            r == blocked(*line, walls@),
    {
        let mut i: usize = 0;
        while i < walls.len()
            invariant
                i <= walls.len(),
                forall|j: int| 0 <= j < i ==> !line.crosses(#[trigger] walls@[j]),
            decreases walls.len() - i,
        {
            if Self::collides_with_wall(line, &walls[i]) {
                return true;
            }
            i += 1;
        }
        false
    }

    /// Whether `wall` crosses `line`. The bounding boxes are compared first;
    /// this changes nothing in the answer.
    pub fn collides_with_wall(line: &LineSegment, wall: &LineSegment) -> (r: bool)
        ensures
            r == line.crosses(*wall),
    {
        if !line.bounding_rect().intersects(&wall.bounding_rect()) {
            proof {
                if line.crosses(*wall) {
                    lemma_crossing_boxes_overlap(*line, *wall);
                }
            }
            return false;
        }
        line.intersects(wall)
    }
}

/// What a way costs, in cost units: for every step its length, rounded down,
/// and the penalty.
pub open spec fn way_cost(way: Seq<Point>) -> int
    decreases way.len(),
{
    if way.len() <= 1 {
        0
    } else {
        way_cost(way.drop_last()) + way[way.len() - 2].span(way.last()) + STEP_PENALTY
    }
}

/// The estimate never overshoots: the straight distance from the first point
/// of a way to its last is at most what the way costs. This holds of every way,
/// whatever the walls, and so of the cheapest one that avoids them.
pub proof fn lemma_estimate_admissible(way: Seq<Point>)
    requires
        way.len() > 0,
    ensures
        way.first().span(way.last()) <= way_cost(way),
    decreases way.len(),
{
    if way.len() == 1 {
        lemma_span_self(way.first());
    } else {
        let shorter = way.drop_last();
        lemma_estimate_admissible(shorter);
        lemma_span_triangle(way.first(), shorter.last(), way.last());
    }
}

/// The estimate is consistent: it falls by no more along a link than the link
/// costs with its penalty.
pub proof fn lemma_estimate_consistent(p: Point, q: Point, to: Point)
    ensures
        p.span(to) <= p.span(q) + STEP_PENALTY + q.span(to),
{
    lemma_span_triangle(p, q, to);
}

/// The way that leads back from a linked node starts at the source, ends at
/// the point of the node, costs what the node says, and is a way that the
/// token can go: every step of it is free of walls and leads to a waypoint or
/// to the destination.
pub proof fn lemma_trail_sound(
    closed: Set<u64>,
    discovered: Map<u64, DiscoveredNode>,
    node: DiscoveredNode,
    quest: Quest,
)
    requires
        trail_ok(closed, discovered, quest),
        linked(node, discovered, quest),
    ensures
        trail(by_point(discovered), node).first() == quest.from,
        trail(by_point(discovered), node).last() == node.point,
        node.cost == way_cost(trail(by_point(discovered), node)),
        route(quest.nodes, quest.walls, quest.to, trail(by_point(discovered), node)),
    decreases node.cost,
{
    match node.previous {
        Some(before) => {
            lemma_trail_step(closed, discovered, node, before, quest);
            let earlier = discovered[before.key()];
            lemma_trail_sound(closed, discovered, earlier, quest);
            let short = trail(by_point(discovered), earlier);
            let way = trail(by_point(discovered), node);
            assert(way == short.push(node.point));
            assert(way.drop_last() =~= short);
            assert forall|i: int| 0 <= i < way.len() - 1 implies joined(
                quest.nodes,
                quest.walls,
                quest.to,
                #[trigger] way[i],
                way[i + 1],
            ) by {
                if i < short.len() - 1 {
                    assert(way[i] == short[i] && way[i + 1] == short[i + 1]);
                    assert(joined(quest.nodes, quest.walls, quest.to, short[i], short[i + 1]));
                } else {
                    assert(way[i] == short.last() && way[i + 1] == node.point);
                }
            }
        },
        None => {},
    }
}

/// A search that has ended stays ended: a further step changes nothing and
/// finds again what ended the search. And a step that ends the search leaves
/// what was closed and noted as it was.
pub proof fn lemma_ended_stays(
    search: Search,
    nodes: Seq<Point>,
    walls: Seq<LineSegment>,
    to: Point,
    max: int,
)
    ensures
        step_of(search, nodes, walls, to, max).0.found == step_of(search, nodes, walls, to, max).1,
        !(search.found is Unfinished) ==> step_of(search, nodes, walls, to, max) == (
            search,
            search.found,
        ),
        !(step_of(search, nodes, walls, to, max).1 is Unfinished) ==> step_of(
            step_of(search, nodes, walls, to, max).0,
            nodes,
            walls,
            to,
            max,
        ) == step_of(search, nodes, walls, to, max),
        !(step_of(search, nodes, walls, to, max).1 is Unfinished) ==> step_of(
            search,
            nodes,
            walls,
            to,
            max,
        ).0.closed == search.closed && step_of(search, nodes, walls, to, max).0.discovered
            == search.discovered,
        step_of(search, nodes, walls, to, max).1 is Unfinished <==> goes_on(search, to, max),
{
}

/// What a search from `search` finds within `steps` steps: the result of the
/// first step that ends it, or `Unfinished` where none of them does.
pub open spec fn outcome(
    search: Search,
    nodes: Seq<Point>,
    walls: Seq<LineSegment>,
    to: Point,
    max: int,
    steps: nat,
) -> PathfindingResult
    decreases steps,
{
    if steps == 0 {
        PathfindingResult::Unfinished
    } else {
        let next = step_of(search, nodes, walls, to, max);
        if next.1 is Unfinished {
            outcome(next.0, nodes, walls, to, max, (steps - 1) as nat)
        } else {
            next.1
        }
    }
}

/// A search that finds a path under one limit finds the same path under
/// every larger limit.
pub proof fn lemma_larger_limit_keeps_path(
    search: Search,
    nodes: Seq<Point>,
    walls: Seq<LineSegment>,
    to: Point,
    small: int,
    large: int,
    steps: nat,
)
    requires
        small <= large,
        outcome(search, nodes, walls, to, small, steps) is Path,
    ensures
        outcome(search, nodes, walls, to, large, steps) == outcome(
            search,
            nodes,
            walls,
            to,
            small,
            steps,
        ),
    decreases steps,
{
    if steps > 0 {
        let next = step_of(search, nodes, walls, to, small);
        if next.1 is Unfinished {
            assert(step_of(search, nodes, walls, to, large) == next);
            lemma_larger_limit_keeps_path(
                next.0,
                nodes,
                walls,
                to,
                small,
                large,
                (steps - 1) as nat,
            );
        }
    }
}

/// What the table of a graph holds for a point is what would be computed for
/// it afresh.
pub proof fn lemma_table_is_faithful(graph: &Graph, p: Point)
    requires
        graph.wf(),
        graph.edges@.contains_key(p.key()),
    ensures
        graph.edges@[p.key()]@ == visible_edges(graph.nodes@, graph.walls@, p),
{
    lemma_key_bijective(p, 0);
}

impl Pathfinder {
    /// The way that `unroll_path` returns for a node that the search ended
    /// with starts at the source, ends at the point of the node, costs what the
    /// node says, holds no point twice, and is a way that the token can go in
    /// `graph`: every step of it is free of walls and leads to a waypoint or to
    /// the destination.
    pub proof fn lemma_path_sound(&self, node: DiscoveredNode, graph: &Graph)
        requires
            self.traceable(node, graph),
        ensures
            self.resolves(node),
            way_back(self.search().discovered, node).first() == self.source(),
            way_back(self.search().discovered, node).last() == node.point,
            node.cost == way_cost(way_back(self.search().discovered, node)),
            way_back(self.search().discovered, node).no_duplicates(),
            route(
                graph.nodes@,
                graph.walls@,
                self.destination(),
                way_back(self.search().discovered, node),
            ),
    {
        let closed = self.previous_nodes@;
        let noted = self.discovered_nodes@;
        lemma_trail_sound(closed, noted, node, self.quest(graph));
        lemma_way_back_is_trail(closed, noted, node, self.quest(graph));
        lemma_trail_costs_fall(closed, noted, self.quest(graph));
        lemma_way_back_simple(closed, noted, node);
    }
}

} // verus!
