//! The navigation graph: waypoints round the corners of the blocking walls, the
//! segments that block, and a table of links that fills as searches run.

use vstd::prelude::*;
use rustc_hash::FxHashMap;
use crate::direction::{
    all_bounded, all_nonzero, lemma_bisector, lemma_offset, lemma_sorted_members, lemma_up_div,
    magnitude, nearly, sort_by_angle, sorted_by_angle, up_div, Direction,
};
use crate::geometry::{lemma_dist_bound, lemma_key_injective, point_of_key, LineSegment, Point};
use crate::math::lemma_square_monotone;
use crate::tables::{table_insert, table_remove};
use crate::wall::Wall;

verus! {

/// A link to `target`, with the length of the straight way there in cost units.
#[derive(Clone, Copy, Debug, PartialEq, Eq, Structural)]
pub struct Edge {
    pub target: Point,
    pub cost: u64,
}

/// A point and a direction that leaves it.
#[derive(Clone, Copy, Debug, PartialEq, Eq, Structural)]
pub struct Ray {
    pub origin: Point,
    pub direction: Direction,
}

/// The graph of one scene, for one token size and elevation.
pub struct Graph {
    /// The waypoints.
    pub nodes: Vec<Point>,
    /// The links found so far, under the key of the point they leave.
    pub edges: FxHashMap<u64, Vec<Edge>>,
    /// The segments that block: the walls, then one short fence per waypoint.
    pub walls: Vec<LineSegment>,
}

/// The radius of a token of diameter `token_size`: half the diameter, rounded
/// up to whole grid units, so that the token never has less room than it needs.
pub open spec fn radius_of(token_size: u32) -> int {
    (token_size + 1) / 2
}

/// A circle of radius `r` round `p` lies within the grid.
pub open spec fn roomy(p: Point, r: int) -> bool {
    &&& i32::MIN <= p.x - r
    &&& p.x + r <= i32::MAX
    &&& i32::MIN <= p.y - r
    &&& p.y + r <= i32::MAX
}

/// The walls that block a token at `elevation`, as segments, in their order.
pub open spec fn blocking_segments(walls: Seq<Wall>, elevation: i64) -> Seq<LineSegment>
    decreases walls.len(),
{
    if walls.len() == 0 {
        Seq::empty()
    } else {
        let rest = blocking_segments(walls.drop_last(), elevation);
        let wall = walls.last();
        if wall.blocks(elevation) {
            rest.push(LineSegment { p1: wall.p1, p2: wall.p2 })
        } else {
            rest
        }
    }
}

/// For each segment in turn, its first end with the direction to the second,
/// then its second end with the direction to the first.
pub open spec fn rays_of(segments: Seq<LineSegment>) -> Seq<Ray> {
    Seq::new(
        2 * segments.len(),
        |k: int|
            if k % 2 == 0 {
                Ray {
                    origin: segments[k / 2].p1,
                    direction: Direction::between(segments[k / 2].p1, segments[k / 2].p2),
                }
            } else {
                Ray {
                    origin: segments[k / 2].p2,
                    direction: Direction::between(segments[k / 2].p2, segments[k / 2].p1),
                }
            },
    )
}

/// The directions of the rays that leave `corner`, in their order.
pub open spec fn directions_at(rays: Seq<Ray>, corner: Point) -> Seq<Direction>
    decreases rays.len(),
{
    if rays.len() == 0 {
        Seq::empty()
    } else {
        let rest = directions_at(rays.drop_last(), corner);
        if rays.last().origin == corner {
            rest.push(rays.last().direction)
        } else {
            rest
        }
    }
}

/// No ray before the `k`-th leaves the point that the `k`-th leaves.
pub open spec fn first_seen(rays: Seq<Ray>, k: int) -> bool {
    forall|j: int| 0 <= j < k ==> (#[trigger] rays[j]).origin != rays[k].origin
}

/// The three waypoints of a gap of more than a half turn that opens at `corner`
/// from direction `u` on to direction `v`: half way through the gap, and at a
/// right angle to either side of it.
pub open spec fn gap_rays(corner: Point, u: Direction, v: Direction, r: int) -> Seq<Ray> {
    seq![
        Ray { origin: corner, direction: u.bisector(v, r) },
        Ray { origin: corner, direction: u.left() },
        Ray { origin: corner, direction: v.right() },
    ]
}

/// The waypoints of the gaps between the first `i + 1` of the directions of a
/// corner, which are in the order of angles.
pub open spec fn inner_rays(corner: Point, sorted: Seq<Direction>, r: int, i: int) -> Seq<Ray>
    decreases i,
{
    if i <= 0 {
        Seq::empty()
    } else {
        let rest = inner_rays(corner, sorted, r, i - 1);
        if sorted[i - 1].wide_gap(sorted[i]) {
            rest + gap_rays(corner, sorted[i - 1], sorted[i], r)
        } else {
            rest
        }
    }
}

/// The waypoints of a corner whose directions, in the order of angles, are
/// `sorted`: those of the gaps between neighbours, then those of the gap from
/// the last direction round to the first.
pub open spec fn corner_rays(corner: Point, sorted: Seq<Direction>, r: int) -> Seq<Ray> {
    if sorted.len() == 0 {
        Seq::empty()
    } else {
        let inner = inner_rays(corner, sorted, r, sorted.len() - 1);
        if sorted.last().wide_wrap(sorted[0]) {
            inner + gap_rays(corner, sorted.last(), sorted[0], r)
        } else {
            inner
        }
    }
}

/// The waypoints of the corners that the first `k` rays leave, each corner
/// taken where it is first met.
pub open spec fn waypoint_rays_upto(rays: Seq<Ray>, r: int, k: int) -> Seq<Ray>
    decreases k,
{
    if k <= 0 {
        Seq::empty()
    } else {
        let rest = waypoint_rays_upto(rays, r, k - 1);
        let corner = rays[k - 1].origin;
        if first_seen(rays, k - 1) {
            rest + corner_rays(corner, sorted_by_angle(directions_at(rays, corner)), r)
        } else {
            rest
        }
    }
}

/// Every waypoint of the segments, as the corner it belongs to and the
/// direction in which it lies from there.
pub open spec fn waypoint_rays(segments: Seq<LineSegment>, r: int) -> Seq<Ray> {
    waypoint_rays_upto(rays_of(segments), r, 2 * segments.len() as int)
}

impl Ray {
    /// The waypoint: the point at distance `r` from the origin along the direction.
    pub open spec fn node(self, r: int) -> Point {
        let offset = self.direction.offset(r);
        Point { x: (self.origin.x + offset.dx) as i32, y: (self.origin.y + offset.dy) as i32 }
    }

    /// The fence of the waypoint: the segment from the origin to 99 hundredths
    /// of the way to the waypoint.
    pub open spec fn stub(self, r: int) -> LineSegment {
        let offset = self.direction.offset(r);
        LineSegment {
            p1: self.origin,
            p2: Point {
                x: (self.origin.x + nearly(offset.dx as int)) as i32,
                y: (self.origin.y + nearly(offset.dy as int)) as i32,
            },
        }
    }
}

/// The waypoints of `rays`.
pub open spec fn nodes_of(rays: Seq<Ray>, r: int) -> Seq<Point> {
    Seq::new(rays.len(), |i: int| rays[i].node(r))
}

/// The fences of `rays`.
pub open spec fn stubs_of(rays: Seq<Ray>, r: int) -> Seq<LineSegment> {
    Seq::new(rays.len(), |i: int| rays[i].stub(r))
}

/// The waypoints and fences of two runs of rays are those of the first run,
/// then those of the second.
pub proof fn lemma_nodes_of_concat(a: Seq<Ray>, b: Seq<Ray>, r: int)
    ensures
        nodes_of(a + b, r) == nodes_of(a, r) + nodes_of(b, r),
        stubs_of(a + b, r) == stubs_of(a, r) + stubs_of(b, r),
{
    assert(nodes_of(a + b, r) =~= nodes_of(a, r) + nodes_of(b, r));
    assert(stubs_of(a + b, r) =~= stubs_of(a, r) + stubs_of(b, r));
}

/// A waypoint lies within the square of half-width `r` round its corner.
/// Where it has a direction, it lies at distance `r` from the corner, up to
/// rounding: never nearer, and further by no more than two units; and for a
/// radius of at least one unit it is not the corner, and its fence has a length.
pub proof fn lemma_waypoint_distance(ray: Ray, r: int)
    requires
        ray.direction.bounded(),
        roomy(ray.origin, r),
        0 <= r <= 0x8000_0000,
    ensures
        ray.origin.x - r <= ray.node(r).x <= ray.origin.x + r,
        ray.origin.y - r <= ray.node(r).y <= ray.origin.y + r,
        ray.origin.dist(ray.node(r)) <= r + 2,
        !ray.direction.is_zero() ==> r <= ray.origin.dist(ray.node(r)),
        !ray.direction.is_zero() && r >= 1 ==> ray.node(r) != ray.origin && ray.stub(r).p2
            != ray.stub(r).p1,
{
    let offset = ray.direction.offset(r);
    let node = ray.node(r);
    lemma_offset(ray.direction, r);
    lemma_dist_bound(ray.origin, node);
    let far = ray.origin.dist(node);
    let square = ray.origin.dist_sq(node);
    assert(square == offset.dx * offset.dx + offset.dy * offset.dy) by (nonlinear_arith)
        requires
            square == (ray.origin.x - node.x) * (ray.origin.x - node.x) + (ray.origin.y - node.y)
                * (ray.origin.y - node.y),
            ray.origin.x - node.x == -offset.dx,
            ray.origin.y - node.y == -offset.dy,
    ;
    if far >= r + 3 {
        lemma_square_monotone(r + 3, far);
    }
    if !ray.direction.is_zero() {
        if far < r {
            lemma_square_monotone(far + 1, r);
        }
    }
    lemma_up_div(magnitude(offset.dx as int) * 99, 100);
    lemma_up_div(magnitude(offset.dy as int) * 99, 100);
    lemma_nearly(offset.dx as int);
    lemma_nearly(offset.dy as int);
}

/// 99 hundredths of `c`, rounded away from zero, lie between zero and `c`, and
/// are zero only for zero.
pub proof fn lemma_nearly(c: int)
    ensures
        c >= 0 ==> 0 <= nearly(c) <= c,
        c <= 0 ==> c <= nearly(c) <= 0,
        c != 0 ==> nearly(c) != 0,
{
    let m = magnitude(c);
    lemma_up_div(m * 99, 100);
    assert(up_div(m * 99, 100) <= m) by (nonlinear_arith)
        requires
            m >= 0,
    ;
}

/// 99 hundredths of `c`, rounded away from zero.
fn nearly_of(c: i64) -> (n: i64)
    requires
        -0x8000_0000 <= c <= 0x8000_0000,
    ensures
        n == nearly(c as int),
        c >= 0 ==> 0 <= n <= c,
        c <= 0 ==> c <= n <= 0,
{
    proof {
        lemma_nearly(c as int);
    }
    if c < 0 {
        -(((-c) * 99 + 99) / 100)
    } else {
        (c * 99 + 99) / 100
    }
}

/// Makes the waypoint that lies at distance `radius` from `p` along
/// `direction`, and adds its fence to `line_segments`. With a radius of at least
/// one unit and a direction that is one, the waypoint is not `p` and the fence
/// has a length.
pub fn calc_pathfinding_node(
    p: Point,
    direction: Direction,
    radius: u32,
    line_segments: &mut Vec<LineSegment>,
) -> (node: Point)
    requires
        direction.bounded(),
        radius <= 0x8000_0000,
        roomy(p, radius as int),
    ensures
        node == (Ray { origin: p, direction }).node(radius as int),
        final(line_segments)@ == old(line_segments)@.push(
            (Ray { origin: p, direction }).stub(radius as int),
        ),
        p.dist(node) <= radius + 2,
        !direction.is_zero() ==> radius <= p.dist(node),
        !direction.is_zero() && radius >= 1 ==> node != p && final(line_segments)@.last().p2 != p,
{
    proof {
        lemma_waypoint_distance(Ray { origin: p, direction }, radius as int);
    }
    let offset: Direction = direction.offset_along(radius);
    let near_x: i64 = nearly_of(offset.dx);
    let near_y: i64 = nearly_of(offset.dy);
    line_segments.push(
        LineSegment::new(
            p,
            Point { x: (p.x as i64 + near_x) as i32, y: (p.y as i64 + near_y) as i32 },
        ),
    );
    Point { x: (p.x as i64 + offset.dx) as i32, y: (p.y as i64 + offset.dy) as i32 }
}

/// Adds the three waypoints of the gap from `u` on to `v` at `corner`.
fn add_gap(
    corner: Point,
    u: &Direction,
    v: &Direction,
    radius: u32,
    nodes: &mut Vec<Point>,
    line_segments: &mut Vec<LineSegment>,
)
    requires
        u.bounded(),
        v.bounded(),
        radius <= 0x8000_0000,
        roomy(corner, radius as int),
    ensures
        final(nodes)@ == old(nodes)@ + nodes_of(gap_rays(corner, *u, *v, radius as int), radius as int),
        final(line_segments)@ == old(line_segments)@ + stubs_of(
            gap_rays(corner, *u, *v, radius as int),
            radius as int,
        ),
{
    let middle: Direction = u.bisecting(v, radius);
    let first: Point = calc_pathfinding_node(corner, middle, radius, line_segments);
    nodes.push(first);
    let second: Point = calc_pathfinding_node(corner, u.turned_left(), radius, line_segments);
    nodes.push(second);
    let third: Point = calc_pathfinding_node(corner, v.turned_right(), radius, line_segments);
    nodes.push(third);
    proof {
        let rays = gap_rays(corner, *u, *v, radius as int);
        assert(final(nodes)@ =~= old(nodes)@ + nodes_of(rays, radius as int));
        assert(final(line_segments)@ =~= old(line_segments)@ + stubs_of(rays, radius as int));
    }
}

/// Adds the waypoints of a corner whose directions, in the order of angles,
/// are `sorted`.
fn add_corner(
    corner: Point,
    sorted: &Vec<Direction>,
    radius: u32,
    nodes: &mut Vec<Point>,
    line_segments: &mut Vec<LineSegment>,
)
    requires
        all_bounded(sorted@),
        radius <= 0x8000_0000,
        roomy(corner, radius as int),
    ensures
        final(nodes)@ == old(nodes)@ + nodes_of(
            corner_rays(corner, sorted@, radius as int),
            radius as int,
        ),
        final(line_segments)@ == old(line_segments)@ + stubs_of(
            corner_rays(corner, sorted@, radius as int),
            radius as int,
        ),
{
    let ghost r = radius as int;
    if sorted.len() == 0 {
        proof {
            assert(nodes@ =~= old(nodes)@ + nodes_of(corner_rays(corner, sorted@, r), r));
            assert(line_segments@ =~= old(line_segments)@ + stubs_of(
                corner_rays(corner, sorted@, r),
                r,
            ));
        }
        return ;
    }
    let mut i: usize = 1;
    proof {
        assert(nodes@ =~= old(nodes)@ + nodes_of(inner_rays(corner, sorted@, r, 0), r));
        assert(line_segments@ =~= old(line_segments)@ + stubs_of(
            inner_rays(corner, sorted@, r, 0),
            r,
        ));
    }
    while i < sorted.len()
        invariant
            1 <= i <= sorted.len(),
            all_bounded(sorted@),
            radius <= 0x8000_0000,
            r == radius as int,
            roomy(corner, r),
            nodes@ == old(nodes)@ + nodes_of(inner_rays(corner, sorted@, r, i - 1), r),
            line_segments@ == old(line_segments)@ + stubs_of(
                inner_rays(corner, sorted@, r, i - 1),
                r,
            ),
        decreases sorted.len() - i,
    {
        let u: Direction = sorted[i - 1];
        let v: Direction = sorted[i];
        if u.cross_with(&v) < 0 {
            add_gap(corner, &u, &v, radius, nodes, line_segments);
            proof {
                lemma_nodes_of_concat(
                    inner_rays(corner, sorted@, r, i - 1),
                    gap_rays(corner, u, v, r),
                    r,
                );
                assert(nodes@ =~= old(nodes)@ + nodes_of(inner_rays(corner, sorted@, r, i as int), r));
                assert(line_segments@ =~= old(line_segments)@ + stubs_of(
                    inner_rays(corner, sorted@, r, i as int),
                    r,
                ));
            }
        }
        i += 1;
    }
    let u: Direction = sorted[sorted.len() - 1];
    let v: Direction = sorted[0];
    let turn: i128 = u.cross_with(&v);
    if turn < 0 || (turn == 0 && u.dot_with(&v) > 0) {
        add_gap(corner, &u, &v, radius, nodes, line_segments);
        proof {
            lemma_nodes_of_concat(
                inner_rays(corner, sorted@, r, sorted.len() - 1),
                gap_rays(corner, u, v, r),
                r,
            );
            assert(nodes@ =~= old(nodes)@ + nodes_of(corner_rays(corner, sorted@, r), r));
            assert(line_segments@ =~= old(line_segments)@ + stubs_of(
                corner_rays(corner, sorted@, r),
                r,
            ));
        }
    }
}

/// Some segment of `walls` crosses `line`.
pub open spec fn blocked(line: LineSegment, walls: Seq<LineSegment>) -> bool {
    exists|i: int| 0 <= i < walls.len() && line.crosses(#[trigger] walls[i])
}

/// No segment of `walls` crosses the straight way from `p` to `q`.
pub open spec fn connected(p: Point, q: Point, walls: Seq<LineSegment>) -> bool {
    !blocked(LineSegment { p1: p, p2: q }, walls)
}

/// The links from `p` to those of `nodes` that it is connected to, in the
/// order of `nodes`, each with the distance in cost units as its cost.
pub open spec fn visible_edges(nodes: Seq<Point>, walls: Seq<LineSegment>, p: Point) -> Seq<Edge>
    decreases nodes.len(),
{
    if nodes.len() == 0 {
        Seq::empty()
    } else {
        let rest = visible_edges(nodes.drop_last(), walls, p);
        let node = nodes.last();
        if connected(p, node, walls) {
            rest.push(Edge { target: node, cost: p.span(node) as u64 })
        } else {
            rest
        }
    }
}

/// The waypoints of the graph that is built from `walls` for a token of
/// diameter `token_size` at `elevation`.
pub open spec fn graph_nodes(walls: Seq<Wall>, token_size: u32, elevation: i64) -> Seq<Point> {
    nodes_of(
        waypoint_rays(blocking_segments(walls, elevation), radius_of(token_size)),
        radius_of(token_size),
    )
}

/// The blocking segments of the graph that is built from `walls` for a token of
/// diameter `token_size` at `elevation`: the walls that block, then the fences
/// of the waypoints.
pub open spec fn graph_walls(walls: Seq<Wall>, token_size: u32, elevation: i64) -> Seq<
    LineSegment,
> {
    blocking_segments(walls, elevation) + stubs_of(
        waypoint_rays(blocking_segments(walls, elevation), radius_of(token_size)),
        radius_of(token_size),
    )
}

/// `groups` holds, under the key of each point that a ray leaves, the
/// directions of the rays that leave it.
pub open spec fn groups_hold(groups: Map<u64, Vec<Direction>>, rays: Seq<Ray>) -> bool {
    forall|p: Point|
        #![trigger directions_at(rays, p)]
        {
            &&& groups.contains_key(p.key()) <==> directions_at(rays, p).len() > 0
            &&& groups.contains_key(p.key()) ==> groups[p.key()]@ == directions_at(rays, p)
        }
}

/// One of the first `k` rays leaves `p`.
pub open spec fn leaves_before(rays: Seq<Ray>, k: int, p: Point) -> bool {
    exists|j: int| 0 <= j < k && (#[trigger] rays[j]).origin == p
}

/// `groups` holds the directions at each point that a ray leaves, but for the
/// points that one of the first `k` rays leaves.
pub open spec fn groups_pending(groups: Map<u64, Vec<Direction>>, rays: Seq<Ray>, k: int) -> bool {
    forall|p: Point|
        #![trigger directions_at(rays, p)]
        {
            &&& groups.contains_key(p.key()) <==> (directions_at(rays, p).len() > 0
                && !leaves_before(rays, k, p))
            &&& groups.contains_key(p.key()) ==> groups[p.key()]@ == directions_at(rays, p)
        }
}

/// Every list of directions in `groups` is bounded.
pub open spec fn groups_bounded(groups: Map<u64, Vec<Direction>>) -> bool {
    forall|k: u64| groups.contains_key(k) ==> all_bounded(#[trigger] groups[k]@)
}

/// A point that a ray leaves has a direction.
pub proof fn lemma_ray_has_direction(rays: Seq<Ray>, j: int)
    requires
        0 <= j < rays.len(),
    ensures
        directions_at(rays, rays[j].origin).len() > 0,
    decreases rays.len(),
{
    if j < rays.len() - 1 {
        lemma_ray_has_direction(rays.drop_last(), j);
    }
}

/// The rays of the segments with one more segment are those of the segments,
/// then the two of the new segment.
pub proof fn lemma_rays_of_push(segments: Seq<LineSegment>, s: LineSegment)
    ensures
        rays_of(segments.push(s)) == rays_of(segments).push(
            Ray { origin: s.p1, direction: Direction::between(s.p1, s.p2) },
        ).push(Ray { origin: s.p2, direction: Direction::between(s.p2, s.p1) }),
{
    assert(rays_of(segments.push(s)) =~= rays_of(segments).push(
        Ray { origin: s.p1, direction: Direction::between(s.p1, s.p2) },
    ).push(Ray { origin: s.p2, direction: Direction::between(s.p2, s.p1) }));
}

/// Notes in `groups` that a ray with direction `d` leaves `origin`.
fn add_direction(
    groups: &mut FxHashMap<u64, Vec<Direction>>,
    origin: Point,
    d: Direction,
    Ghost(rays): Ghost<Seq<Ray>>,
)
    requires
        groups_hold(old(groups)@, rays),
        groups_bounded(old(groups)@),
        d.bounded(),
    ensures
        groups_hold(final(groups)@, rays.push(Ray { origin, direction: d })),
        groups_bounded(final(groups)@),
{
    let key: u64 = origin.hash_key();
    let mut list: Vec<Direction> = match table_remove(groups, key) {
        Some(list) => list,
        None => Vec::new(),
    };
    proof {
        assert(directions_at(rays, origin).len() >= 0);
        assert(list@ =~= directions_at(rays, origin));
    }
    list.push(d);
    table_insert(groups, key, list);
    proof {
        let longer = rays.push(Ray { origin, direction: d });
        assert(longer.drop_last() =~= rays);
        assert forall|p: Point|
            #![trigger directions_at(longer, p)]
            {
                &&& groups@.contains_key(p.key()) <==> directions_at(longer, p).len() > 0
                &&& groups@.contains_key(p.key()) ==> groups@[p.key()]@ == directions_at(
                    longer,
                    p,
                )
            } by {
            lemma_key_injective(p, origin);
            assert(directions_at(rays, p).len() >= 0);
        }
    }
}

/// Adds the waypoints of `corner`, unless they were added before, and marks
/// the corner as done by taking its directions out of `groups`.
fn visit_corner(
    groups: &mut FxHashMap<u64, Vec<Direction>>,
    corner: Point,
    radius: u32,
    nodes: &mut Vec<Point>,
    line_segments: &mut Vec<LineSegment>,
)
    requires
        groups_bounded(old(groups)@),
        radius <= 0x8000_0000,
        roomy(corner, radius as int),
    ensures
        final(groups)@ == old(groups)@.remove(corner.key()),
        final(nodes)@ == old(nodes)@ + nodes_of(
            corner_rays_in(old(groups)@, corner, radius as int),
            radius as int,
        ),
        final(line_segments)@ == old(line_segments)@ + stubs_of(
            corner_rays_in(old(groups)@, corner, radius as int),
            radius as int,
        ),
{
    match table_remove(groups, corner.hash_key()) {
        Some(list) => {
            let sorted: Vec<Direction> = sort_by_angle(&list);
            add_corner(corner, &sorted, radius, nodes, line_segments);
        },
        None => {
            proof {
                assert(nodes@ =~= old(nodes)@ + nodes_of(Seq::<Ray>::empty(), radius as int));
                assert(line_segments@ =~= old(line_segments)@ + stubs_of(
                    Seq::<Ray>::empty(),
                    radius as int,
                ));
            }
        },
    }
}

/// The waypoints of `corner`, from the directions that `groups` holds for it;
/// none where it holds none.
pub open spec fn corner_rays_in(groups: Map<u64, Vec<Direction>>, corner: Point, r: int) -> Seq<
    Ray,
> {
    if groups.contains_key(corner.key()) {
        corner_rays(corner, sorted_by_angle(groups[corner.key()]@), r)
    } else {
        Seq::empty()
    }
}

/// Taking the directions of the point that the `k`-th ray leaves out of
/// `before` accounts for that ray.
proof fn lemma_visit(
    before: Map<u64, Vec<Direction>>,
    rays: Seq<Ray>,
    r: int,
    k: int,
)
    requires
        0 <= k < rays.len(),
        groups_pending(before, rays, k),
    ensures
        groups_pending(before.remove(rays[k].origin.key()), rays, k + 1),
        waypoint_rays_upto(rays, r, k + 1) == waypoint_rays_upto(rays, r, k) + corner_rays_in(
            before,
            rays[k].origin,
            r,
        ),
{
    let corner = rays[k].origin;
    let after = before.remove(corner.key());
    lemma_ray_has_direction(rays, k);
    assert(directions_at(rays, corner).len() > 0);
    assert(first_seen(rays, k) <==> !leaves_before(rays, k, corner));
    assert(waypoint_rays_upto(rays, r, k) + Seq::<Ray>::empty() =~= waypoint_rays_upto(rays, r, k));
    assert forall|p: Point|
        #![trigger directions_at(rays, p)]
        {
            &&& after.contains_key(p.key()) <==> (directions_at(rays, p).len() > 0
                && !leaves_before(rays, k + 1, p))
            &&& after.contains_key(p.key()) ==> after[p.key()]@ == directions_at(rays, p)
        } by {
        lemma_key_injective(p, corner);
        if p == corner {
            assert(rays[k].origin == p);
            assert(leaves_before(rays, k + 1, p));
            assert(!after.contains_key(p.key()));
        } else {
            assert(after.contains_key(p.key()) == before.contains_key(p.key()));
            if leaves_before(rays, k + 1, p) {
                let j = choose|j: int| 0 <= j < k + 1 && (#[trigger] rays[j]).origin == p;
                assert(j < k);
                assert(leaves_before(rays, k, p));
            }
            if leaves_before(rays, k, p) {
                let j = choose|j: int| 0 <= j < k && (#[trigger] rays[j]).origin == p;
                assert(0 <= j < k + 1 && rays[j].origin == p);
                assert(leaves_before(rays, k + 1, p));
            }
            if after.contains_key(p.key()) {
                assert(after[p.key()] == before[p.key()]);
            }
        }
    }
}

/// Taking a wall that does not block out of the list changes nothing in the
/// segments that block.
pub proof fn lemma_idle_wall_leaves_no_segment(walls: Seq<Wall>, i: int, elevation: i64)
    requires
        0 <= i < walls.len(),
        !walls[i].blocks(elevation),
    ensures
        blocking_segments(walls.remove(i), elevation) == blocking_segments(walls, elevation),
    decreases walls.len(),
{
    if i == walls.len() - 1 {
        assert(walls.remove(i) =~= walls.drop_last());
    } else {
        lemma_idle_wall_leaves_no_segment(walls.drop_last(), i, elevation);
        assert(walls.remove(i).drop_last() =~= walls.drop_last().remove(i));
        assert(walls.remove(i).last() == walls.last());
    }
}

/// A wall that does not block leaves no trace in the graph: with it or
/// without it, the waypoints and the blocking segments are the same.
pub proof fn lemma_idle_wall_leaves_no_trace(
    walls: Seq<Wall>,
    i: int,
    token_size: u32,
    elevation: i64,
)
    requires
        0 <= i < walls.len(),
        !walls[i].blocks(elevation),
    ensures
        graph_nodes(walls.remove(i), token_size, elevation) == graph_nodes(
            walls,
            token_size,
            elevation,
        ),
        graph_walls(walls.remove(i), token_size, elevation) == graph_walls(
            walls,
            token_size,
            elevation,
        ),
{
    lemma_idle_wall_leaves_no_segment(walls, i, elevation);
}

/// Where no wall blocks, the graph has no waypoint and no blocking segment.
pub proof fn lemma_no_obstacle_no_graph(walls: Seq<Wall>, token_size: u32, elevation: i64)
    requires
        forall|i: int| 0 <= i < walls.len() ==> !(#[trigger] walls[i]).blocks(elevation),
    ensures
        graph_nodes(walls, token_size, elevation) == Seq::<Point>::empty(),
        graph_walls(walls, token_size, elevation) == Seq::<LineSegment>::empty(),
    decreases walls.len(),
{
    if walls.len() > 0 {
        lemma_no_obstacle_no_graph(walls.drop_last(), token_size, elevation);
    }
    assert(blocking_segments(walls, elevation) =~= Seq::<LineSegment>::empty());
    assert(graph_nodes(walls, token_size, elevation) =~= Seq::<Point>::empty());
    assert(graph_walls(walls, token_size, elevation) =~= Seq::<LineSegment>::empty());
}

/// Every direction that leaves a corner is the direction of a ray.
proof fn lemma_directions_bounded(rays: Seq<Ray>, corner: Point, pointed: bool)
    requires
        forall|k: int|
            0 <= k < rays.len() ==> (#[trigger] rays[k]).direction.bounded() && (pointed
                ==> !rays[k].direction.is_zero()),
    ensures
        all_bounded(directions_at(rays, corner)),
        pointed ==> all_nonzero(directions_at(rays, corner)),
    decreases rays.len(),
{
    if rays.len() > 0 {
        lemma_directions_bounded(rays.drop_last(), corner, pointed);
        assert(rays[rays.len() - 1].direction.bounded());
    }
}

/// Every ray of `rays` leaves `corner` along a bounded direction; where
/// `pointed` is set, along one that is not zero.
pub open spec fn all_from(rays: Seq<Ray>, corner: Point, pointed: bool) -> bool {
    forall|i: int|
        0 <= i < rays.len() ==> (#[trigger] rays[i]).origin == corner
            && rays[i].direction.bounded() && (pointed ==> !rays[i].direction.is_zero())
}

/// The waypoints of a gap lie round its corner along bounded directions.
proof fn lemma_gap_rays(corner: Point, u: Direction, v: Direction, r: int, pointed: bool)
    requires
        u.bounded(),
        v.bounded(),
        pointed ==> !u.is_zero() && !v.is_zero(),
        0 <= r <= 0x8000_0000,
    ensures
        all_from(gap_rays(corner, u, v, r), corner, pointed),
{
    lemma_bisector(u, v, r);
}

/// The waypoints between neighbours lie round the corner along bounded
/// directions.
proof fn lemma_inner_rays(corner: Point, sorted: Seq<Direction>, r: int, i: int, pointed: bool)
    requires
        all_bounded(sorted),
        pointed ==> all_nonzero(sorted),
        0 <= r <= 0x8000_0000,
        0 <= i < sorted.len(),
    ensures
        all_from(inner_rays(corner, sorted, r, i), corner, pointed),
    decreases i,
{
    if i > 0 {
        lemma_inner_rays(corner, sorted, r, i - 1, pointed);
        lemma_gap_rays(corner, sorted[i - 1], sorted[i], r, pointed);
    }
}

/// The waypoints of a corner lie round it along bounded directions.
proof fn lemma_corner_rays(corner: Point, sorted: Seq<Direction>, r: int, pointed: bool)
    requires
        all_bounded(sorted),
        pointed ==> all_nonzero(sorted),
        0 <= r <= 0x8000_0000,
    ensures
        all_from(corner_rays(corner, sorted, r), corner, pointed),
{
    if sorted.len() > 0 {
        lemma_inner_rays(corner, sorted, r, sorted.len() - 1, pointed);
        lemma_gap_rays(corner, sorted.last(), sorted[0], r, pointed);
    }
}

/// Every waypoint that is made for the first `k` rays lies round the point
/// that one of them leaves, along a bounded direction; where no ray has the
/// zero direction, along one that is not zero.
proof fn lemma_waypoint_rays_upto(rays: Seq<Ray>, r: int, k: int, pointed: bool)
    requires
        forall|m: int|
            0 <= m < rays.len() ==> (#[trigger] rays[m]).direction.bounded() && (pointed
                ==> !rays[m].direction.is_zero()),
        0 <= r <= 0x8000_0000,
        0 <= k <= rays.len(),
    ensures
        forall|i: int|
            0 <= i < waypoint_rays_upto(rays, r, k).len() ==> (#[trigger] waypoint_rays_upto(
                rays,
                r,
                k,
            )[i]).direction.bounded() && (pointed ==> !waypoint_rays_upto(
                rays,
                r,
                k,
            )[i].direction.is_zero()) && leaves_before(
                rays,
                k,
                waypoint_rays_upto(rays, r, k)[i].origin,
            ),
    decreases k,
{
    if k > 0 {
        lemma_waypoint_rays_upto(rays, r, k - 1, pointed);
        let rest = waypoint_rays_upto(rays, r, k - 1);
        let all = waypoint_rays_upto(rays, r, k);
        let corner = rays[k - 1].origin;
        let sorted = sorted_by_angle(directions_at(rays, corner));
        lemma_directions_bounded(rays, corner, pointed);
        lemma_sorted_members(directions_at(rays, corner));
        assert forall|i: int| 0 <= i < sorted.len() implies (#[trigger] sorted[i]).bounded() && (
        pointed ==> !sorted[i].is_zero()) by {
            let m = choose|m: int|
                0 <= m < directions_at(rays, corner).len() && directions_at(rays, corner)[m]
                    == sorted[i];
        }
        lemma_corner_rays(corner, sorted, r, pointed);
        assert forall|i: int| 0 <= i < all.len() implies (#[trigger] all[i]).direction.bounded()
            && (pointed ==> !all[i].direction.is_zero()) && leaves_before(
            rays,
            k,
            all[i].origin,
        ) by {
            if i < rest.len() {
                assert(all[i] == rest[i]);
                let m = choose|m: int|
                    0 <= m < k - 1 && (#[trigger] rays[m]).origin == rest[i].origin;
                assert(rays[m].origin == all[i].origin);
            } else {
                assert(all[i] == corner_rays(corner, sorted, r)[i - rest.len()]);
                assert(rays[k - 1].origin == all[i].origin);
            }
        }
    }
}

/// Every segment that blocks is a wall that blocks.
proof fn lemma_blocking_is_wall(walls: Seq<Wall>, elevation: i64, k: int) -> (i: int)
    requires
        0 <= k < blocking_segments(walls, elevation).len(),
    ensures
        0 <= i < walls.len(),
        walls[i].blocks(elevation),
        blocking_segments(walls, elevation)[k] == (LineSegment { p1: walls[i].p1, p2: walls[i].p2 }),
    decreases walls.len(),
{
    let rest = blocking_segments(walls.drop_last(), elevation);
    if k < rest.len() {
        lemma_blocking_is_wall(walls.drop_last(), elevation, k)
    } else {
        walls.len() - 1
    }
}

/// `node` lies at a distance between `low` and `high` from an end of a wall
/// that blocks at `elevation`.
pub open spec fn at_wall_end(
    walls: Seq<Wall>,
    elevation: i64,
    low: int,
    high: int,
    node: Point,
) -> bool {
    exists|i: int|
        0 <= i < walls.len() && (#[trigger] walls[i]).blocks(elevation) && ((low
            <= walls[i].p1.dist(node) <= high) || (low <= walls[i].p2.dist(node) <= high))
}

/// `p` is an end of a wall that blocks at `elevation`.
pub open spec fn is_wall_end(walls: Seq<Wall>, elevation: i64, p: Point) -> bool {
    exists|i: int|
        0 <= i < walls.len() && (#[trigger] walls[i]).blocks(elevation) && (walls[i].p1 == p
            || walls[i].p2 == p)
}

/// No wall that blocks at `elevation` begins where it ends.
pub open spec fn all_walls_long(walls: Seq<Wall>, elevation: i64) -> bool {
    forall|i: int|
        0 <= i < walls.len() && (#[trigger] walls[i]).blocks(elevation) ==> walls[i].p1
            != walls[i].p2
}

/// Every waypoint of the graph lies no further than the radius and two units
/// from an end of a wall that blocks. Where no such wall begins where it ends,
/// it lies no nearer than the radius, so that for a radius of at least one
/// unit it is not that end; and its fence then has a length.
pub proof fn lemma_nodes_near_walls(walls: Seq<Wall>, token_size: u32, elevation: i64, n: int)
    requires
        forall|i: int|
            0 <= i < walls.len() && (#[trigger] walls[i]).blocks(elevation) ==> roomy(
                walls[i].p1,
                radius_of(token_size),
            ) && roomy(walls[i].p2, radius_of(token_size)),
        0 <= n < graph_nodes(walls, token_size, elevation).len(),
    ensures
        at_wall_end(
            walls,
            elevation,
            0,
            radius_of(token_size) + 2,
            graph_nodes(walls, token_size, elevation)[n],
        ),
        all_walls_long(walls, elevation) ==> at_wall_end(
            walls,
            elevation,
            radius_of(token_size),
            radius_of(token_size) + 2,
            graph_nodes(walls, token_size, elevation)[n],
        ),
        all_walls_long(walls, elevation) && token_size >= 1 ==> graph_walls(
            walls,
            token_size,
            elevation,
        )[blocking_segments(walls, elevation).len() + n].p1 != graph_walls(
            walls,
            token_size,
            elevation,
        )[blocking_segments(walls, elevation).len() + n].p2,
        is_wall_end(
            walls,
            elevation,
            graph_walls(walls, token_size, elevation)[blocking_segments(walls, elevation).len()
                + n].p1,
        ),
{
    let r = radius_of(token_size);
    let segments = blocking_segments(walls, elevation);
    let rays = rays_of(segments);
    let made = waypoint_rays(segments, r);
    let pointed = all_walls_long(walls, elevation);
    assert forall|m: int| 0 <= m < rays.len() implies (#[trigger] rays[m]).direction.bounded() && (
    pointed ==> !rays[m].direction.is_zero()) by {
        let i = lemma_blocking_is_wall(walls, elevation, m / 2);
    }
    lemma_waypoint_rays_upto(rays, r, 2 * segments.len() as int, pointed);
    let ray = made[n];
    let node = graph_nodes(walls, token_size, elevation)[n];
    let m = choose|m: int| 0 <= m < 2 * segments.len() && (#[trigger] rays[m]).origin == ray.origin;
    let i = lemma_blocking_is_wall(walls, elevation, m / 2);
    assert(roomy(ray.origin, r));
    lemma_waypoint_distance(ray, r);
    lemma_dist_bound(ray.origin, node);
    assert(node == ray.node(r));
    assert(walls[i].blocks(elevation));
    assert(ray.origin == walls[i].p1 || ray.origin == walls[i].p2);
}

/// How things stand when the corners that the first `k` rays leave are done:
/// `groups` holds the directions of the other corners, and `nodes` and `lines`
/// hold the waypoints and fences of the corners that are done.
pub open spec fn corners_done(
    groups: Map<u64, Vec<Direction>>,
    nodes: Seq<Point>,
    lines: Seq<LineSegment>,
    segments: Seq<LineSegment>,
    r: int,
    k: int,
) -> bool {
    &&& groups_pending(groups, rays_of(segments), k)
    &&& groups_bounded(groups)
    &&& nodes == nodes_of(waypoint_rays_upto(rays_of(segments), r, k), r)
    &&& lines == segments + stubs_of(waypoint_rays_upto(rays_of(segments), r, k), r)
}

/// Does the corner that the `k`-th ray leaves.
fn visit_end(
    groups: &mut FxHashMap<u64, Vec<Direction>>,
    corner: Point,
    radius: u32,
    nodes: &mut Vec<Point>,
    line_segments: &mut Vec<LineSegment>,
    Ghost(segments): Ghost<Seq<LineSegment>>,
    Ghost(k): Ghost<int>,
)
    requires
        0 <= k < 2 * segments.len(),
        rays_of(segments)[k].origin == corner,
        radius <= 0x8000_0000,
        roomy(corner, radius as int),
        corners_done(
            old(groups)@,
            old(nodes)@,
            old(line_segments)@,
            segments,
            radius as int,
            k,
        ),
    ensures
        corners_done(
            final(groups)@,
            final(nodes)@,
            final(line_segments)@,
            segments,
            radius as int,
            k + 1,
        ),
{
    let ghost r = radius as int;
    let ghost rays = rays_of(segments);
    let ghost before = groups@;
    proof {
        lemma_visit(before, rays, r, k);
        lemma_nodes_of_concat(
            waypoint_rays_upto(rays, r, k),
            corner_rays_in(before, corner, r),
            r,
        );
    }
    visit_corner(groups, corner, radius, nodes, line_segments);
    proof {
        assert(nodes@ =~= nodes_of(waypoint_rays_upto(rays, r, k + 1), r));
        assert(line_segments@ =~= segments + stubs_of(waypoint_rays_upto(rays, r, k + 1), r));
    }
}

impl Graph {
    /// Every list of links in the table is the list of the waypoints that
    /// the point of its key is connected to.
    pub open spec fn wf(&self) -> bool {
        forall|k: u64|
            self.edges@.contains_key(k) ==> (#[trigger] self.edges@[k])@ == visible_edges(
                self.nodes@,
                self.walls@,
                point_of_key(k),
            )
    }

    /// Builds the graph of the walls that block a token of diameter
    /// `token_size` at `token_elevation`. The radius at which the waypoints
    /// lie is half the diameter, rounded up to whole grid units. Walls that
    /// do not block leave no trace in it: every blocking segment starts at an
    /// end of a wall that blocks. Every waypoint lies no further than half the diameter and
    /// two units from an end of a wall that blocks; where no such wall begins
    /// where it ends, it lies no nearer than half the diameter, so that with
    /// a diameter of one unit or more no waypoint is the wall's end that it
    /// was made for, and every fence has a length. The table of links starts
    /// empty.
    pub fn initialize(walls: Vec<Wall>, token_size: u32, token_elevation: i64) -> (graph: Graph)
        requires
            forall|i: int|
                0 <= i < walls.len() && (#[trigger] walls[i]).blocks(token_elevation) ==> roomy(
                    walls[i].p1,
                    radius_of(token_size),
                ) && roomy(walls[i].p2, radius_of(token_size)),
        ensures
            graph.nodes@ == graph_nodes(walls@, token_size, token_elevation),
            graph.walls@ == graph_walls(walls@, token_size, token_elevation),
            graph.edges@ == Map::<u64, Vec<Edge>>::empty(),
            graph.wf(),
            forall|n: int|
                0 <= n < graph.nodes@.len() ==> at_wall_end(
                    walls@,
                    token_elevation,
                    0,
                    radius_of(token_size) + 2,
                    #[trigger] graph.nodes@[n],
                ),
            all_walls_long(walls@, token_elevation) ==> forall|n: int|
                0 <= n < graph.nodes@.len() ==> at_wall_end(
                    walls@,
                    token_elevation,
                    radius_of(token_size),
                    radius_of(token_size) + 2,
                    #[trigger] graph.nodes@[n],
                ),
            graph.walls@.len() == blocking_segments(walls@, token_elevation).len()
                + graph.nodes@.len(),
            all_walls_long(walls@, token_elevation) && token_size >= 1 ==> forall|k: int|
                0 <= k < graph.walls@.len() ==> (#[trigger] graph.walls@[k]).p1
                    != graph.walls@[k].p2,
            forall|k: int|
                0 <= k < graph.walls@.len() ==> is_wall_end(
                    walls@,
                    token_elevation,
                    (#[trigger] graph.walls@[k]).p1,
                ),
    {
        proof {
            assert forall|n: int|
                0 <= n < graph_nodes(walls@, token_size, token_elevation).len() implies at_wall_end(
                walls@,
                token_elevation,
                0,
                radius_of(token_size) + 2,
                #[trigger] graph_nodes(walls@, token_size, token_elevation)[n],
            ) && (all_walls_long(walls@, token_elevation) ==> at_wall_end(
                walls@,
                token_elevation,
                radius_of(token_size),
                radius_of(token_size) + 2,
                graph_nodes(walls@, token_size, token_elevation)[n],
            )) by {
                lemma_nodes_near_walls(walls@, token_size, token_elevation, n);
            }
            let held = graph_walls(walls@, token_size, token_elevation);
            let blocking = blocking_segments(walls@, token_elevation);
            assert forall|k: int| 0 <= k < held.len() implies is_wall_end(
                walls@,
                token_elevation,
                (#[trigger] held[k]).p1,
            ) by {
                if k < blocking.len() {
                    let i = lemma_blocking_is_wall(walls@, token_elevation, k);
                    assert(walls@[i].blocks(token_elevation) && walls@[i].p1 == held[k].p1);
                } else {
                    lemma_nodes_near_walls(walls@, token_size, token_elevation, k - blocking.len());
                }
            }
            if all_walls_long(walls@, token_elevation) && token_size >= 1 {
                assert forall|k: int| 0 <= k < held.len() implies (#[trigger] held[k]).p1
                    != held[k].p2 by {
                    if k < blocking.len() {
                        let i = lemma_blocking_is_wall(walls@, token_elevation, k);
                    } else {
                        lemma_nodes_near_walls(
                            walls@,
                            token_size,
                            token_elevation,
                            k - blocking.len(),
                        );
                    }
                }
            }
        }
        let distance_from_walls: u32 = token_size / 2 + token_size % 2;
        let ghost r = distance_from_walls as int;
        let mut endpoints: FxHashMap<u64, Vec<Direction>> = FxHashMap::default();
        let mut line_segments: Vec<LineSegment> = Vec::new();
        let mut w: usize = 0;
        while w < walls.len()
            invariant
                w <= walls.len(),
                r == radius_of(token_size),
                forall|i: int|
                    0 <= i < walls.len() && (#[trigger] walls[i]).blocks(token_elevation)
                        ==> roomy(walls[i].p1, r) && roomy(walls[i].p2, r),
                line_segments@ == blocking_segments(walls@.take(w as int), token_elevation),
                groups_hold(endpoints@, rays_of(line_segments@)),
                groups_bounded(endpoints@),
                forall|i: int|
                    0 <= i < line_segments.len() ==> roomy((#[trigger] line_segments[i]).p1, r)
                        && roomy(line_segments[i].p2, r),
            decreases walls.len() - w,
        {
            let wall: Wall = walls[w];
            proof {
                assert(walls@.take(w + 1).drop_last() =~= walls@.take(w as int));
                assert(walls@.take(w + 1).last() == wall);
            }
            if wall.is_obstacle(token_elevation) {
                let ghost rays = rays_of(line_segments@);
                let toward: Direction = Direction::from_points(wall.p1, wall.p2);
                let back: Direction = Direction::from_points(wall.p2, wall.p1);
                add_direction(&mut endpoints, wall.p1, toward, Ghost(rays));
                add_direction(
                    &mut endpoints,
                    wall.p2,
                    back,
                    Ghost(rays.push(Ray { origin: wall.p1, direction: toward })),
                );
                proof {
                    lemma_rays_of_push(line_segments@, LineSegment { p1: wall.p1, p2: wall.p2 });
                }
                line_segments.push(LineSegment::new(wall.p1, wall.p2));
            }
            w += 1;
        }
        proof {
            assert(walls@.take(w as int) =~= walls@);
        }
        let ghost segments = line_segments@;
        let count: usize = line_segments.len();
        let mut nodes: Vec<Point> = Vec::new();
        let mut i: usize = 0;
        proof {
            let rays = rays_of(segments);
            assert(nodes@ =~= nodes_of(waypoint_rays_upto(rays, r, 0), r));
            assert(line_segments@ =~= segments + stubs_of(waypoint_rays_upto(rays, r, 0), r));
        }
        while i < count
            invariant
                i <= count,
                count == segments.len(),
                distance_from_walls <= 0x8000_0000,
                r == distance_from_walls as int,
                forall|j: int|
                    0 <= j < segments.len() ==> roomy((#[trigger] segments[j]).p1, r) && roomy(
                        segments[j].p2,
                        r,
                    ),
                corners_done(endpoints@, nodes@, line_segments@, segments, r, 2 * i),
            decreases count - i,
        {
            let segment: LineSegment = line_segments[i];
            assert(segment == segments[i as int]);
            visit_end(
                &mut endpoints,
                segment.p1,
                distance_from_walls,
                &mut nodes,
                &mut line_segments,
                Ghost(segments),
                Ghost(2 * i as int),
            );
            visit_end(
                &mut endpoints,
                segment.p2,
                distance_from_walls,
                &mut nodes,
                &mut line_segments,
                Ghost(segments),
                Ghost(2 * i as int + 1),
            );
            i += 1;
        }
        Graph { nodes, edges: FxHashMap::default(), walls: line_segments }
    }
}

} // verus!
