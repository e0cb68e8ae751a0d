//! Why the search is right: the first way it finds is a cheapest one, and it
//! gives up only where no way within the limit exists.

use vstd::prelude::*;
use crate::geometry::{lemma_span_bound, lemma_span_self, lemma_span_triangle, LineSegment, Point};
use crate::graph::{connected, visible_edges, Edge};
use crate::next_node_queue::{
    descending, distinct_points, first_not_above, inserted, lemma_first_not_above,
    lemma_inserted_descending, lemma_inserted_distinct, lemma_inserted_members, lemma_moved,
    lemma_position_of, moved, position_of, DiscoveredNode,
};
use crate::pathfinder::{
    expanded, joined, route, initial_search, lemma_links_costs, links, reached, source_node, step_of, way_cost,
    PathfindingResult, Search, STEP_PENALTY,
};

verus! {

/// No way from `from` to `p` costs less than `cost`.
pub open spec fn cheapest(
    cost: int,
    nodes: Seq<Point>,
    walls: Seq<LineSegment>,
    from: Point,
    to: Point,
    p: Point,
) -> bool {
    forall|way: Seq<Point>|
        route(nodes, walls, to, way) && way.first() == from && way.last() == p ==> cost
            <= #[trigger] way_cost(way)
}

/// The frontier holds a node for `q` that costs at most `bound`.
pub open spec fn holds_within(open: Seq<DiscoveredNode>, q: Point, bound: int) -> bool {
    exists|i: int| 0 <= i < open.len() && (#[trigger] open[i]).point == q && open[i].cost <= bound
}

/// Every node of the frontier carries the estimate that belongs to its cost,
/// and is for a point that is not closed.
pub open spec fn tidy(open: Seq<DiscoveredNode>, closed: Set<Point>, to: Point) -> bool {
    forall|i: int|
        0 <= i < open.len() ==> (#[trigger] open[i]).estimated == open[i].cost + open[i].point.span(
            to,
        ) && !closed.contains(open[i].point)
}

/// The state of a search that has not ended yet, as it must be for the search
/// to be right: nothing has ended it; the frontier is in order; every closed point was reached as
/// cheaply as can be; whatever is joined to a closed point is closed or in
/// the frontier, at no more than the cost through that point; and the source is
/// closed or in the frontier at no cost.
pub open spec fn sound(
    search: Search,
    nodes: Seq<Point>,
    walls: Seq<LineSegment>,
    from: Point,
    to: Point,
) -> bool {
    &&& search.found is Unfinished
    &&& distinct_points(search.open)
    &&& descending(search.open)
    &&& tidy(search.open, search.closed, to)
    &&& !search.closed.contains(to)
    &&& forall|p: Point| #[trigger]
        search.closed.contains(p) ==> search.discovered.contains_key(p) && cheapest(
            search.discovered[p].cost as int,
            nodes,
            walls,
            from,
            to,
            p,
        )
    &&& forall|p: Point, q: Point|
        search.closed.contains(p) && #[trigger] joined(nodes, walls, to, p, q)
            ==> search.closed.contains(q) || holds_within(
            search.open,
            q,
            search.discovered[p].cost + p.span(q) + STEP_PENALTY,
        )
    &&& search.closed.contains(from) || holds_within(search.open, from, 0)
}

/// A way costs what its first `j + 1` points cost and what is left from
/// there, and the estimate falls along it by no more than that.
proof fn lemma_estimate_along(way: Seq<Point>, j: int, to: Point)
    requires
        0 <= j < way.len(),
    ensures
        way_cost(way.take(j + 1)) + way[j].span(to) <= way_cost(way) + way.last().span(to),
    decreases way.len(),
{
    if j == way.len() - 1 {
        assert(way.take(j + 1) =~= way);
    } else {
        let shorter = way.drop_last();
        lemma_estimate_along(shorter, j, to);
        assert(shorter.take(j + 1) =~= way.take(j + 1));
        lemma_span_triangle(shorter.last(), way.last(), to);
    }
}

/// The frontier of a sound search holds a node for some point on every way
/// from the source to a point that is not closed, at no more than what the way
/// costs up to there.
proof fn lemma_frontier_covers(
    search: Search,
    nodes: Seq<Point>,
    walls: Seq<LineSegment>,
    from: Point,
    to: Point,
    way: Seq<Point>,
) -> (j: int)
    requires
        sound(search, nodes, walls, from, to),
        route(nodes, walls, to, way),
        way.first() == from,
        !search.closed.contains(way.last()),
    ensures
        0 <= j < way.len(),
        holds_within(search.open, way[j], way_cost(way.take(j + 1))),
    decreases way.len(),
{
    if way.len() == 1 {
        assert(way.take(1) =~= way);
        0
    } else {
        let shorter = way.drop_last();
        assert(route(nodes, walls, to, shorter)) by {
            assert forall|i: int| 0 <= i < shorter.len() - 1 implies joined(
                nodes,
                walls,
                to,
                #[trigger] shorter[i],
                shorter[i + 1],
            ) by {
                assert(joined(nodes, walls, to, way[i], way[i + 1]));
            }
        }
        if !search.closed.contains(shorter.last()) {
            let j = lemma_frontier_covers(search, nodes, walls, from, to, shorter);
            assert(shorter.take(j + 1) =~= way.take(j + 1));
            j
        } else {
            let c = shorter.last();
            let q = way.last();
            assert(c == way[way.len() - 2]);
            assert(joined(nodes, walls, to, way[way.len() - 2], way[way.len() - 2 + 1]));
            assert(search.discovered[c].cost <= way_cost(shorter));
            assert(way.take(way.len() as int) =~= way);
            let bound = search.discovered[c].cost + c.span(q) + STEP_PENALTY;
            let i = choose|i: int|
                0 <= i < search.open.len() && (#[trigger] search.open[i]).point == q
                    && search.open[i].cost <= bound;
            assert(search.open[i].cost <= way_cost(way));
            way.len() - 1
        }
    }
}

/// In a sound search, the estimate of the node that is taken next is at most
/// the cost of any way from the source to a point that is not closed, and the
/// estimate from there.
pub proof fn lemma_next_is_least(
    search: Search,
    nodes: Seq<Point>,
    walls: Seq<LineSegment>,
    from: Point,
    to: Point,
    way: Seq<Point>,
)
    requires
        sound(search, nodes, walls, from, to),
        route(nodes, walls, to, way),
        way.first() == from,
        !search.closed.contains(way.last()),
    ensures
        search.open.len() > 0,
        search.open.last().estimated <= way_cost(way) + way.last().span(to),
{
    let j = lemma_frontier_covers(search, nodes, walls, from, to, way);
    let i = choose|i: int|
        0 <= i < search.open.len() && (#[trigger] search.open[i]).point == way[j]
            && search.open[i].cost <= way_cost(way.take(j + 1));
    lemma_estimate_along(way, j, to);
    assert(search.open[i].estimated == search.open[i].cost + way[j].span(to));
}

/// Handing a node in leaves every point that had a node with one that costs
/// no more.
pub proof fn lemma_inserted_keeps(
    s: Seq<DiscoveredNode>,
    node: DiscoveredNode,
    q: Point,
    bound: int,
)
    requires
        holds_within(s, q, bound),
    ensures
        holds_within(inserted(s, node), q, bound),
{
    let r = inserted(s, node);
    let k = choose|k: int| 0 <= k < s.len() && (#[trigger] s[k]).point == q && s[k].cost <= bound;
    let i = position_of(s, node.point, 0);
    lemma_position_of(s, node.point, 0);
    if i < s.len() {
        if node.cost < s[i].cost {
            let end = first_not_above(s, node.estimated as int, i + 1);
            lemma_first_not_above(s, node.estimated as int, i + 1);
            lemma_moved(s, node, i, end);
            assert(r == moved(s, node, i, end));
            if k < i {
                assert(r[k] == s[k]);
            } else if k == i {
                assert(r[end - 1] == node);
            } else if k < end {
                assert(r[k - 1] == s[k]);
            } else {
                assert(r[k] == s[k]);
            }
        } else {
            assert(r[k] == s[k]);
        }
    } else {
        let at = first_not_above(s, node.estimated - 1, 0);
        lemma_first_not_above(s, node.estimated - 1, 0);
        if k < at {
            assert(r[k] == s[k]);
        } else {
            assert(r[k + 1] == s[k]);
        }
    }
}

/// After a node was handed in, its point has a node that costs no more.
pub proof fn lemma_inserted_holds(s: Seq<DiscoveredNode>, node: DiscoveredNode)
    ensures
        holds_within(inserted(s, node), node.point, node.cost as int),
{
    let r = inserted(s, node);
    let i = position_of(s, node.point, 0);
    lemma_position_of(s, node.point, 0);
    if i < s.len() {
        if node.cost < s[i].cost {
            let end = first_not_above(s, node.estimated as int, i + 1);
            lemma_first_not_above(s, node.estimated as int, i + 1);
            lemma_moved(s, node, i, end);
            assert(r == moved(s, node, i, end));
            assert(r[end - 1] == node);
        } else {
            assert(r[i] == s[i]);
        }
    } else {
        let at = first_not_above(s, node.estimated - 1, 0);
        lemma_first_not_above(s, node.estimated - 1, 0);
        assert(r[at] == node);
    }
}

/// Handing a tidy node in to a tidy frontier in order leaves it tidy and in
/// order.
proof fn lemma_inserted_tidy(
    s: Seq<DiscoveredNode>,
    node: DiscoveredNode,
    closed: Set<Point>,
    to: Point,
)
    requires
        distinct_points(s),
        descending(s),
        tidy(s, closed, to),
        node.estimated == node.cost + node.point.span(to),
        !closed.contains(node.point),
    ensures
        distinct_points(inserted(s, node)),
        descending(inserted(s, node)),
        tidy(inserted(s, node), closed, to),
{
    lemma_inserted_distinct(s, node);
    lemma_inserted_descending(s, node);
    lemma_inserted_members(s, node);
    let r = inserted(s, node);
    assert forall|i: int| 0 <= i < r.len() implies (#[trigger] r[i]).estimated == r[i].cost
        + r[i].point.span(to) && !closed.contains(r[i].point) by {
        if r[i] != node {
            assert(s.contains(r[i]));
            let j = choose|j: int| 0 <= j < s.len() && s[j] == r[i];
            assert(s[j].estimated == s[j].cost + s[j].point.span(to));
        }
    }
}

/// What following the links of a node does to a frontier in order: it stays
/// tidy and in order, every point that had a node keeps one that costs no
/// more, and every target that is not closed has a node at no more than the
/// cost through the node.
proof fn lemma_expanded(
    open: Seq<DiscoveredNode>,
    closed: Set<Point>,
    current: DiscoveredNode,
    followed: Seq<Edge>,
    to: Point,
)
    requires
        distinct_points(open),
        descending(open),
        tidy(open, closed, to),
        current.cost <= 0xffff_ffff * 100_000,
        forall|j: int| 0 <= j < followed.len() ==> (#[trigger] followed[j]).cost < 0x4_0000_0000_0000,
    ensures
        distinct_points(expanded(open, closed, current, followed, to)),
        descending(expanded(open, closed, current, followed, to)),
        tidy(expanded(open, closed, current, followed, to), closed, to),
        forall|q: Point, bound: int| #[trigger]
            holds_within(open, q, bound) ==> holds_within(
                expanded(open, closed, current, followed, to),
                q,
                bound,
            ),
        forall|j: int|
            0 <= j < followed.len() && !closed.contains((#[trigger] followed[j]).target)
                ==> holds_within(
                expanded(open, closed, current, followed, to),
                followed[j].target,
                current.cost + followed[j].cost + STEP_PENALTY,
            ),
    decreases followed.len(),
{
    if followed.len() > 0 {
        let shorter = followed.drop_last();
        let before = expanded(open, closed, current, shorter, to);
        let after = expanded(open, closed, current, followed, to);
        lemma_expanded(open, closed, current, shorter, to);
        let edge = followed.last();
        let node = reached(current, edge, to);
        lemma_span_bound(edge.target, to);
        if !closed.contains(edge.target) {
            lemma_inserted_tidy(before, node, closed, to);
            lemma_inserted_holds(before, node);
            assert forall|q: Point, bound: int| #[trigger]
                holds_within(open, q, bound) implies holds_within(after, q, bound) by {
                lemma_inserted_keeps(before, node, q, bound);
            }
            assert forall|j: int|
                0 <= j < followed.len() && !closed.contains(
                    (#[trigger] followed[j]).target,
                ) implies holds_within(
                after,
                followed[j].target,
                current.cost + followed[j].cost + STEP_PENALTY,
            ) by {
                if j < shorter.len() {
                    assert(shorter[j] == followed[j]);
                    lemma_inserted_keeps(
                        before,
                        node,
                        followed[j].target,
                        current.cost + followed[j].cost + STEP_PENALTY,
                    );
                }
            }
        } else {
            assert forall|j: int|
                0 <= j < followed.len() && !closed.contains(
                    (#[trigger] followed[j]).target,
                ) implies holds_within(
                after,
                followed[j].target,
                current.cost + followed[j].cost + STEP_PENALTY,
            ) by {
                assert(shorter[j] == followed[j]);
            }
        }
    }
}

/// A waypoint that `p` is connected to is the target of one of its links.
proof fn lemma_visible_has(nodes: Seq<Point>, walls: Seq<LineSegment>, p: Point, q: Point) -> (j:
    int)
    requires
        nodes.contains(q),
        connected(p, q, walls),
    ensures
        0 <= j < visible_edges(nodes, walls, p).len(),
        visible_edges(nodes, walls, p)[j].target == q,
    decreases nodes.len(),
{
    if nodes.last() == q {
        visible_edges(nodes, walls, p).len() - 1
    } else {
        let k = choose|k: int| 0 <= k < nodes.len() && nodes[k] == q;
        assert(nodes.drop_last()[k] == q);
        lemma_visible_has(nodes.drop_last(), walls, p, q)
    }
}

/// What `p` is joined to is the target of one of its links.
proof fn lemma_joined_has_link(
    nodes: Seq<Point>,
    walls: Seq<LineSegment>,
    p: Point,
    to: Point,
    q: Point,
) -> (j: int)
    requires
        joined(nodes, walls, to, p, q),
    ensures
        0 <= j < links(nodes, walls, p, to).len(),
        links(nodes, walls, p, to)[j].target == q,
        links(nodes, walls, p, to)[j].cost == p.span(q),
{
    let j = if nodes.contains(q) {
        lemma_visible_has(nodes, walls, p, q)
    } else {
        links(nodes, walls, p, to).len() - 1
    };
    lemma_links_costs(nodes, walls, p, to, j);
    j
}

/// No way from `from` to `to` costs `max` or less.
pub open spec fn out_of_reach(
    max: int,
    nodes: Seq<Point>,
    walls: Seq<LineSegment>,
    from: Point,
    to: Point,
) -> bool {
    forall|way: Seq<Point>|
        route(nodes, walls, to, way) && way.first() == from && way.last() == to ==> max
            < #[trigger] way_cost(way)
}

/// A search starts out sound.
pub proof fn lemma_initial_sound(
    nodes: Seq<Point>,
    walls: Seq<LineSegment>,
    from: Point,
    to: Point,
)
    ensures
        sound(initial_search(from, to), nodes, walls, from, to),
{
    lemma_span_bound(from, to);
    let search = initial_search(from, to);
    assert(search.open[0] == source_node(from, to));
    assert(holds_within(search.open, from, 0));
}

/// The rest of a tidy frontier in order, once the point of its last node is
/// closed, is tidy and in order.
proof fn lemma_rest_tidy(open: Seq<DiscoveredNode>, closed: Set<Point>, to: Point)
    requires
        open.len() > 0,
        distinct_points(open),
        descending(open),
        tidy(open, closed, to),
    ensures
        distinct_points(open.drop_last()),
        descending(open.drop_last()),
        tidy(open.drop_last(), closed.insert(open.last().point), to),
{
    let rest = open.drop_last();
    assert forall|i: int, j: int| 0 <= i <= j < rest.len() implies rest[i].estimated
        >= rest[j].estimated by {
        assert(rest[i] == open[i] && rest[j] == open[j]);
    }
    assert forall|i: int, j: int| 0 <= i < j < rest.len() implies rest[i].point
        != rest[j].point by {
        assert(rest[i] == open[i] && rest[j] == open[j]);
    }
    assert forall|i: int| 0 <= i < rest.len() implies (#[trigger] rest[i]).estimated
        == rest[i].cost + rest[i].point.span(to) && !closed.insert(open.last().point).contains(
        rest[i].point,
    ) by {
        assert(rest[i] == open[i]);
        assert(open[i].point != open[open.len() - 1].point);
    }
}

/// What the frontier held for a point other than that of its last node, the
/// rest of it holds.
proof fn lemma_rest_holds(open: Seq<DiscoveredNode>, q: Point, bound: int)
    requires
        open.len() > 0,
        holds_within(open, q, bound),
        q != open.last().point,
    ensures
        holds_within(open.drop_last(), q, bound),
{
    let i = choose|i: int|
        0 <= i < open.len() && (#[trigger] open[i]).point == q && open[i].cost <= bound;
    assert(open.drop_last()[i] == open[i]);
}

/// One step of a sound search: where the search goes on, it stays sound;
/// where it finds a path, the path ends at the destination, is within the
/// limit, and no way costs less; where it finds none, no way is within the
/// limit.
pub proof fn lemma_step_sound(
    search: Search,
    nodes: Seq<Point>,
    walls: Seq<LineSegment>,
    from: Point,
    to: Point,
    max: int,
)
    requires
        sound(search, nodes, walls, from, to),
        max <= 0xffff_ffff * 100_000,
    ensures
        step_of(search, nodes, walls, to, max).1 is Unfinished ==> sound(
            step_of(search, nodes, walls, to, max).0,
            nodes,
            walls,
            from,
            to,
        ),
        step_of(search, nodes, walls, to, max).1 matches PathfindingResult::Path(node)
            ==> node.point == to && node.cost <= max && node.estimated == node.cost && cheapest(
            node.cost as int,
            nodes,
            walls,
            from,
            to,
            to,
        ),
        step_of(search, nodes, walls, to, max).1 is NoPath ==> out_of_reach(
            max,
            nodes,
            walls,
            from,
            to,
        ),
{
    lemma_span_self(to);
    assert forall|way: Seq<Point>|
        route(nodes, walls, to, way) && way.first() == from && way.last() == to implies search.open.len()
        > 0 && search.open.last().estimated <= #[trigger] way_cost(way) by {
        lemma_next_is_least(search, nodes, walls, from, to, way);
    }
    if search.open.len() > 0 {
        let current = search.open.last();
        let p = current.point;
        lemma_span_bound(p, to);
        if current.cost <= max && p != to {
            let rest = search.open.drop_last();
            let closed = search.closed.insert(p);
            let noted = search.discovered.insert(p, current);
            let followed = links(nodes, walls, p, to);
            let open = expanded(rest, closed, current, followed, to);
            let after = step_of(search, nodes, walls, to, max).0;
            assert(after.open == open && after.closed == closed && after.discovered == noted);
            lemma_rest_tidy(search.open, search.closed, to);
            assert forall|j: int| 0 <= j < followed.len() implies (#[trigger] followed[j]).cost
                < 0x4_0000_0000_0000 by {
                lemma_links_costs(nodes, walls, p, to, j);
            }
            lemma_expanded(rest, closed, current, followed, to);
            // the point that was closed was reached as cheaply as can be
            assert(cheapest(current.cost as int, nodes, walls, from, to, p)) by {
                assert forall|way: Seq<Point>|
                    route(nodes, walls, to, way) && way.first() == from && way.last()
                        == p implies current.cost <= #[trigger] way_cost(way) by {
                    lemma_next_is_least(search, nodes, walls, from, to, way);
                }
            }
            assert forall|c: Point| #[trigger] closed.contains(c) implies noted.contains_key(c)
                && cheapest(noted[c].cost as int, nodes, walls, from, to, c) by {
                if c != p {
                    assert(search.closed.contains(c));
                }
            }
            // whatever is joined to a closed point is closed or in the frontier
            assert forall|c: Point, q: Point|
                closed.contains(c) && #[trigger] joined(
                    nodes,
                    walls,
                    to,
                    c,
                    q,
                ) implies closed.contains(q) || holds_within(
                open,
                q,
                noted[c].cost + c.span(q) + STEP_PENALTY,
            ) by {
                if !closed.contains(q) {
                    if c == p {
                        let j = lemma_joined_has_link(nodes, walls, p, to, q);
                        assert(!closed.contains(followed[j].target));
                    } else {
                        assert(search.closed.contains(c));
                        let bound = search.discovered[c].cost + c.span(q) + STEP_PENALTY;
                        assert(holds_within(search.open, q, bound));
                        lemma_rest_holds(search.open, q, bound);
                        assert(holds_within(rest, q, bound));
                    }
                }
            }
            // the source is closed or in the frontier
            if !closed.contains(from) {
                lemma_rest_holds(search.open, from, 0);
                assert(holds_within(rest, from, 0));
            }
        }
    }
}

/// A sound search that goes on for `steps` steps ends rightly: where it finds
/// a path, the path ends at the destination, is within the limit, and no way
/// from the source to the destination costs less; where it finds none, no
/// way is within the limit.
pub proof fn lemma_outcome_right(
    search: Search,
    nodes: Seq<Point>,
    walls: Seq<LineSegment>,
    from: Point,
    to: Point,
    max: int,
    steps: nat,
)
    requires
        sound(search, nodes, walls, from, to),
        max <= 0xffff_ffff * 100_000,
    ensures
        crate::pathfinder::outcome(search, nodes, walls, to, max, steps) matches PathfindingResult::Path(
            node,
        ) ==> node.point == to && node.cost <= max && cheapest(
            node.cost as int,
            nodes,
            walls,
            from,
            to,
            to,
        ),
        crate::pathfinder::outcome(search, nodes, walls, to, max, steps) is NoPath ==> out_of_reach(
            max,
            nodes,
            walls,
            from,
            to,
        ),
    decreases steps,
{
    if steps > 0 {
        lemma_step_sound(search, nodes, walls, from, to, max);
        let next = step_of(search, nodes, walls, to, max);
        if next.1 is Unfinished {
            lemma_outcome_right(next.0, nodes, walls, from, to, max, (steps - 1) as nat);
        }
    }
}

} // verus!
