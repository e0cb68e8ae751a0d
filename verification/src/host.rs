//! The operations that a host calls, on plain values.

use vstd::prelude::*;
use crate::geometry::Point;
use crate::graph::{graph_nodes, graph_walls, radius_of, roomy, Edge, Graph};
use crate::pathfinder::{
    advanced, initial_search, route, step_of, table_grows, way_back, way_cost, Pathfinder,
    PathfindingResult,
};
use crate::shortest::{cheapest, out_of_reach};
use crate::wall::{Wall, WallHeight};

verus! {

/// What one step of a search hands to the host.
pub enum StepOutcome {
    /// The search goes on.
    Unfinished,
    /// The way was found: what it costs, and its points from the source to
    /// the destination.
    Path { cost: u64, path: Vec<Point> },
    /// There is no way within the limit.
    NoPath,
}

/// `wall` as it counts: with its own height where heights are heeded, reaching
/// every height where they are not.
pub open spec fn heeded(wall: Wall, enable_height: bool) -> Wall {
    if enable_height {
        wall
    } else {
        Wall { height: WallHeight::unbounded(), ..wall }
    }
}

/// Every wall of `walls` as it counts.
pub open spec fn all_heeded(walls: Seq<Wall>, enable_height: bool) -> Seq<Wall> {
    Seq::new(walls.len(), |i: int| heeded(walls[i], enable_height))
}

/// Builds the graph of `walls` for a token of diameter `token_size` at
/// `token_elevation`. Where `enable_height` is not set, the heights of the
/// walls are left out of account: every wall reaches every height.
pub fn initialize_graph(
    walls: Vec<Wall>,
    token_size: u32,
    token_elevation: i64,
    enable_height: bool,
) -> (graph: Graph)
    requires
        forall|i: int|
            0 <= i < walls.len() && heeded(#[trigger] walls[i], enable_height).blocks(
                token_elevation,
            ) ==> roomy(walls[i].p1, radius_of(token_size)) && roomy(
                walls[i].p2,
                radius_of(token_size),
            ),
    ensures
        graph.nodes@ == graph_nodes(
            all_heeded(walls@, enable_height),
            token_size,
            token_elevation,
        ),
        graph.walls@ == graph_walls(
            all_heeded(walls@, enable_height),
            token_size,
            token_elevation,
        ),
        graph.edges@ == Map::<u64, Vec<Edge>>::empty(),
        graph.wf(),
{
    let mut counted: Vec<Wall> = Vec::new();
    let mut i: usize = 0;
    while i < walls.len()
        invariant
            i <= walls.len(),
            counted@ == all_heeded(walls@.take(i as int), enable_height),
        decreases walls.len() - i,
    {
        let wall: Wall = walls[i];
        let height = if enable_height {
            wall.height
        } else {
            WallHeight::default()
        };
        counted.push(
            Wall::new(wall.p1, wall.p2, wall.door_type, wall.door_state, wall.move_type, height),
        );
        proof {
            assert(counted@ =~= all_heeded(walls@.take(i + 1), enable_height));
        }
        i += 1;
    }
    proof {
        assert(walls@.take(i as int) =~= walls@);
    }
    Graph::initialize(counted, token_size, token_elevation)
}

/// Every wall of `walls` that counts and blocks at `elevation` leaves room
/// for the waypoints round its ends.
pub open spec fn all_roomy(
    walls: Seq<Wall>,
    token_size: u32,
    elevation: i64,
    enable_height: bool,
) -> bool {
    forall|i: int|
        0 <= i < walls.len() && heeded(#[trigger] walls[i], enable_height).blocks(elevation)
            ==> roomy(walls[i].p1, radius_of(token_size)) && roomy(
            walls[i].p2,
            radius_of(token_size),
        )
}

/// Whether a circle of radius `radius` round `p` lies within the grid.
pub fn is_roomy(p: Point, radius: u32) -> (r: bool)
    ensures
        r == roomy(p, radius as int),
{
    let low: i64 = i32::MIN as i64;
    let high: i64 = i32::MAX as i64;
    let reach: i64 = radius as i64;
    p.x as i64 - reach >= low && p.x as i64 + reach <= high && p.y as i64 - reach >= low && p.y as i64
        + reach <= high
}

/// Builds the graph as `initialize_graph` does, where every wall that blocks
/// leaves room for its waypoints on the grid; tells by `None` where one does
/// not.
pub fn checked_initialize_graph(
    walls: Vec<Wall>,
    token_size: u32,
    token_elevation: i64,
    enable_height: bool,
) -> (built: Option<Graph>)
    ensures
        built.is_some() <==> all_roomy(walls@, token_size, token_elevation, enable_height),
        built matches Some(graph) ==> {
            &&& graph.nodes@ == graph_nodes(
                all_heeded(walls@, enable_height),
                token_size,
                token_elevation,
            )
            &&& graph.walls@ == graph_walls(
                all_heeded(walls@, enable_height),
                token_size,
                token_elevation,
            )
            &&& graph.edges@ == Map::<u64, Vec<Edge>>::empty()
            &&& graph.wf()
        },
{
    let radius: u32 = token_size / 2 + token_size % 2;
    let mut i: usize = 0;
    while i < walls.len()
        invariant
            i <= walls.len(),
            radius == radius_of(token_size),
            forall|j: int|
                0 <= j < i && heeded(#[trigger] walls[j], enable_height).blocks(token_elevation)
                    ==> roomy(walls[j].p1, radius_of(token_size)) && roomy(
                    walls[j].p2,
                    radius_of(token_size),
                ),
        decreases walls.len() - i,
    {
        let wall: Wall = walls[i];
        let height = if enable_height {
            wall.height
        } else {
            WallHeight::default()
        };
        let counted = Wall::new(
            wall.p1,
            wall.p2,
            wall.door_type,
            wall.door_state,
            wall.move_type,
            height,
        );
        if counted.is_obstacle(token_elevation) && !(is_roomy(wall.p1, radius) && is_roomy(
            wall.p2,
            radius,
        )) {
            assert(heeded(walls[i as int], enable_height).blocks(token_elevation));
            return None;
        }
        i += 1;
    }
    Some(initialize_graph(walls, token_size, token_elevation, enable_height))
}

/// Lets go of a graph. Nothing else happens.
pub fn free_graph(graph: Graph) {
    let _ = graph;
}

/// A searcher for the way from `from` to `to` in `graph` that is no longer
/// than `max_distance` grid units, ready for its first step. With a limit
/// below zero no way is within it.
pub fn initialize_pathfinder(from: Point, to: Point, graph: &Graph, max_distance: i64) -> (pathfinder:
    Pathfinder)
    requires
        graph.wf(),
        max_distance <= 0xffff_ffff,
    ensures
        pathfinder.search() == initial_search(from, to),
        pathfinder.source() == from,
        pathfinder.destination() == to,
        pathfinder.limit() == max_distance,
        pathfinder.wf(graph),
        pathfinder.on_course(graph),
{
    Pathfinder::initialize(from, to, graph, max_distance)
}

/// Starts the search of `pathfinder` over, between the same two points and
/// with the same limit.
pub fn reset_pathfinder(pathfinder: &mut Pathfinder, graph: &Graph)
    requires
        graph.wf(),
        old(pathfinder).limit() <= 0xffff_ffff,
    ensures
        final(pathfinder).search() == initial_search(
            old(pathfinder).source(),
            old(pathfinder).destination(),
        ),
        final(pathfinder).source() == old(pathfinder).source(),
        final(pathfinder).destination() == old(pathfinder).destination(),
        final(pathfinder).limit() == old(pathfinder).limit(),
        final(pathfinder).wf(graph),
        final(pathfinder).on_course(graph),
{
    pathfinder.reset(graph);
}

/// Lets go of a searcher. Nothing else happens; the graph stays as it is.
pub fn free_pathfinder(pathfinder: Pathfinder) {
    let _ = pathfinder;
}

/// Goes one step on with the search and, where it has found the way, unrolls
/// the way. A search that has ended stays ended: every further step changes
/// nothing and hands out again what ended it.
///
/// The way starts at the source and ends at the destination; it holds no
/// point twice; every step of it leads to a waypoint or to the destination
/// and crosses no blocking segment of the graph; and the cost is that of the
/// way in cost units: for every step its length, rounded down, and the
/// penalty. As long as the search is on course, no such way is cheaper, and
/// there is none within the limit where none is found.
pub fn step(pathfinder: &mut Pathfinder, graph: &mut Graph) -> (outcome: StepOutcome)
    requires
        old(pathfinder).wf(old(graph)),
    ensures
        final(pathfinder).search() == step_of(
            old(pathfinder).search(),
            old(graph).nodes@,
            old(graph).walls@,
            old(pathfinder).destination(),
            old(pathfinder).limit_cost(),
        ).0,
        match step_of(
            old(pathfinder).search(),
            old(graph).nodes@,
            old(graph).walls@,
            old(pathfinder).destination(),
            old(pathfinder).limit_cost(),
        ).1 {
            PathfindingResult::Unfinished => outcome is Unfinished,
            PathfindingResult::NoPath => outcome is NoPath,
            PathfindingResult::Path(node) => outcome matches StepOutcome::Path { cost, path }
                && cost == node.cost && path@ == way_back(
                final(pathfinder).search().discovered,
                node,
            ),
        },
        outcome matches StepOutcome::Path { cost, path } ==> {
            &&& path@.len() > 0
            &&& path@.first() == old(pathfinder).source()
            &&& path@.last() == old(pathfinder).destination()
            &&& path@.no_duplicates()
            &&& cost == way_cost(path@)
            &&& cost <= old(pathfinder).limit_cost()
            &&& route(old(graph).nodes@, old(graph).walls@, old(pathfinder).destination(), path@)
        },
        outcome is Unfinished ==> advanced(
            old(pathfinder).search(),
            final(pathfinder).search(),
            old(graph).nodes@,
            old(pathfinder).source(),
        ),
        final(pathfinder).source() == old(pathfinder).source(),
        final(pathfinder).destination() == old(pathfinder).destination(),
        final(pathfinder).limit() == old(pathfinder).limit(),
        final(pathfinder).wf(final(graph)),
        final(graph).wf(),
        final(graph).nodes@ == old(graph).nodes@,
        final(graph).walls@ == old(graph).walls@,
        table_grows(old(graph).edges@, final(graph).edges@),
        old(pathfinder).on_course(old(graph)) && outcome is Unfinished
            ==> final(pathfinder).on_course(final(graph)),
        old(pathfinder).on_course(old(graph)) ==> (outcome matches StepOutcome::Path { cost, path }
            ==> cheapest(
            cost as int,
            old(graph).nodes@,
            old(graph).walls@,
            old(pathfinder).source(),
            old(pathfinder).destination(),
            old(pathfinder).destination(),
        )),
        old(pathfinder).on_course(old(graph)) && outcome is NoPath ==> out_of_reach(
            old(pathfinder).limit_cost(),
            old(graph).nodes@,
            old(graph).walls@,
            old(pathfinder).source(),
            old(pathfinder).destination(),
        ),
{
    let result = pathfinder.step(graph);
    match result {
        PathfindingResult::Path(first_node) => {
            let cost: u64 = first_node.estimated;
            proof {
                pathfinder.lemma_path_sound(first_node, graph);
            }
            let path: Vec<Point> = pathfinder.unroll_path(first_node);
            StepOutcome::Path { cost, path }
        },
        PathfindingResult::Unfinished => StepOutcome::Unfinished,
        PathfindingResult::NoPath => StepOutcome::NoPath,
    }
}

} // verus!
