use routinglib::geometry::{LineSegment, Point, COST_SCALE};
use routinglib::graph::{Edge, Graph};
use routinglib::next_node_queue::DiscoveredNode;
use routinglib::pathfinder::{Pathfinder, PathfindingResult, STEP_PENALTY};
use routinglib::wall::{DoorState, DoorType, Wall, WallHeight, WallSenseType};

fn plain(x1: i32, y1: i32, x2: i32, y2: i32) -> Wall {
    Wall::new(
        Point::new(x1, y1),
        Point::new(x2, y2),
        DoorType::NONE,
        DoorState::CLOSED,
        WallSenseType::NORMAL,
        WallHeight::default(),
    )
}

fn one_wall() -> Graph {
    Graph::initialize(vec![plain(0, 0, 10_000, 0)], 2000, 0)
}

fn boxed_in() -> Graph {
    Graph::initialize(
        vec![
            plain(4000, 4000, 6000, 4000),
            plain(6000, 4000, 6000, 6000),
            plain(6000, 6000, 4000, 6000),
            plain(4000, 6000, 4000, 4000),
        ],
        2000,
        0,
    )
}

/// Steps until the search ends; the node of the path, if one was found, and the
/// number of steps taken.
fn run(pathfinder: &mut Pathfinder, graph: &mut Graph) -> (Option<DiscoveredNode>, usize) {
    let mut steps = 0;
    loop {
        steps += 1;
        assert!(steps < 10_000);
        match pathfinder.step(graph) {
            PathfindingResult::Unfinished => {}
            PathfindingResult::Path(node) => return (Some(node), steps),
            PathfindingResult::NoPath => return (None, steps),
        }
    }
}

fn crosses_any(graph: &Graph, from: Point, to: Point) -> bool {
    let way = LineSegment::new(from, to);
    graph.walls.iter().any(|wall| way.intersects(wall))
}

fn way_cost(path: &[Point]) -> u64 {
    let mut cost = 0;
    for pair in path.windows(2) {
        cost += pair[0].span_to(pair[1]) + STEP_PENALTY;
    }
    cost
}

#[test]
fn the_penalty_is_one_unit() {
    assert_eq!(STEP_PENALTY, 1);
}

#[test]
fn a_way_round_the_end_of_a_wall() {
    let mut graph = one_wall();
    let from = Point::new(5000, -5000);
    let to = Point::new(5000, 5000);
    let mut pathfinder = Pathfinder::initialize(from, to, &graph, 100_000);
    let (found, _) = run(&mut pathfinder, &mut graph);
    let node = found.expect("a way round the wall");
    assert_eq!(node.point, to);
    assert_eq!(node.cost, 1_563_467_562);
    assert_eq!(node.estimated, node.cost);
    assert!(node.cost > 10_000 * COST_SCALE);
    let path = pathfinder.unroll_path(node);
    assert_eq!(path.len(), 5);
    assert_eq!(path[0], from);
    assert_eq!(path[4], to);
    let near = vec![
        from,
        Point::new(0, -1000),
        Point::new(-1000, 0),
        Point::new(0, 1000),
        to,
    ];
    let far = vec![
        from,
        Point::new(10_000, -1000),
        Point::new(11_000, 0),
        Point::new(10_000, 1000),
        to,
    ];
    assert!(path == near || path == far);
    assert_eq!(way_cost(&path), node.cost);
    for pair in path.windows(2) {
        assert!(!crosses_any(&graph, pair[0], pair[1]));
    }
}

#[test]
fn the_nearer_end_of_the_wall_is_taken() {
    let mut graph = one_wall();
    let from = Point::new(2000, -5000);
    let to = Point::new(2000, 5000);
    let mut pathfinder = Pathfinder::initialize(from, to, &graph, 100_000);
    let (found, _) = run(&mut pathfinder, &mut graph);
    let node = found.expect("a way round the wall");
    let path = pathfinder.unroll_path(node);
    // far enough from the wall, the waypoint beside its end is in plain sight
    assert_eq!(path, vec![from, Point::new(-1000, 0), to]);
    assert_eq!(node.cost, 2 * 583_095_189 + 2);
    let round_the_far_end = way_cost(&[
        from,
        Point::new(10_000, -1000),
        Point::new(11_000, 0),
        Point::new(10_000, 1000),
        to,
    ]);
    assert!(node.cost < round_the_far_end);
    assert_eq!(node.cost, way_cost(&path));
}

#[test]
fn a_straight_way_on_one_side_of_the_wall() {
    let mut graph = one_wall();
    let from = Point::new(5000, -5000);
    let to = Point::new(5000, -1000);
    let mut pathfinder = Pathfinder::initialize(from, to, &graph, 100_000);
    assert!(matches!(pathfinder.step(&mut graph), PathfindingResult::Unfinished));
    match pathfinder.step(&mut graph) {
        PathfindingResult::Path(node) => {
            assert_eq!(node.point, to);
            assert_eq!(node.cost, 4000 * COST_SCALE + 1);
            assert_eq!(node.estimated, node.cost);
            assert_eq!(node.previous, Some(from));
            assert_eq!(pathfinder.unroll_path(node), vec![from, to]);
        }
        _ => panic!("the straight way was not found"),
    }
}

#[test]
fn no_way_into_a_closed_box() {
    let mut graph = boxed_in();
    let mut pathfinder = Pathfinder::initialize(Point::new(0, 0), Point::new(5000, 5000), &graph, 1_000_000);
    let (found, _) = run(&mut pathfinder, &mut graph);
    assert!(found.is_none());
}

#[test]
fn no_way_out_of_a_closed_box() {
    let mut graph = boxed_in();
    let mut pathfinder = Pathfinder::initialize(Point::new(5000, 5200), Point::new(0, 0), &graph, 1_000_000);
    let (found, steps) = run(&mut pathfinder, &mut graph);
    assert!(found.is_none());
    // nothing can be seen from inside: the source is expanded, then the frontier is empty
    assert_eq!(steps, 2);
}

#[test]
fn no_way_through_the_joint_of_two_walls() {
    let mut graph = Graph::initialize(vec![plain(0, 0, 5000, 0), plain(5000, 0, 10_000, 0)], 2000, 0);
    let from = Point::new(5000, -5000);
    let to = Point::new(5000, 5000);
    let mut pathfinder = Pathfinder::initialize(from, to, &graph, 100_000);
    let (found, _) = run(&mut pathfinder, &mut graph);
    let node = found.expect("a way round the walls");
    assert_eq!(node.cost, 1_563_467_562);
    assert_eq!(pathfinder.unroll_path(node).len(), 5);
}

#[test]
fn source_and_destination_in_one_place() {
    let mut graph = one_wall();
    let at = Point::new(5000, -5000);
    let mut pathfinder = Pathfinder::initialize(at, at, &graph, 0);
    match pathfinder.step(&mut graph) {
        PathfindingResult::Path(node) => {
            assert_eq!(node.cost, 0);
            assert_eq!(node.estimated, 0);
            assert_eq!(node.previous, None);
            assert_eq!(pathfinder.unroll_path(node), vec![at]);
        }
        _ => panic!("the source is the destination"),
    }
}

#[test]
fn a_way_over_the_limit_is_no_way() {
    let mut graph = one_wall();
    let from = Point::new(5000, -5000);
    let to = Point::new(5000, -1000);
    let mut tight = Pathfinder::initialize(from, to, &graph, 4000);
    let (found, steps) = run(&mut tight, &mut graph);
    assert!(found.is_none());
    assert_eq!(steps, 2);
    let mut exact = Pathfinder::initialize(from, to, &graph, 4001);
    let (found, _) = run(&mut exact, &mut graph);
    assert_eq!(found.expect("within the limit").cost, 4000 * COST_SCALE + 1);
}

#[test]
fn a_larger_limit_never_loses_the_way() {
    let from = Point::new(5000, -5000);
    let to = Point::new(5000, 5000);
    let limits: [i64; 6] = [-1, 15_634, 15_635, 20_000, 1_000_000, 0xffff_ffff];
    let mut costs = Vec::new();
    for limit in limits {
        let mut graph = one_wall();
        let mut pathfinder = Pathfinder::initialize(from, to, &graph, limit);
        let (found, _) = run(&mut pathfinder, &mut graph);
        costs.push(found.map(|node| node.cost));
    }
    let cost = Some(1_563_467_562);
    assert_eq!(costs, vec![None, None, cost, cost, cost, cost]);
}

#[test]
fn a_step_on_an_empty_frontier_changes_nothing() {
    let mut graph = boxed_in();
    let mut pathfinder = Pathfinder::initialize(Point::new(5000, 5200), Point::new(0, 0), &graph, 1_000_000);
    let (found, _) = run(&mut pathfinder, &mut graph);
    assert!(found.is_none());
    let held = graph.edges.clone();
    for _ in 0..3 {
        assert!(matches!(pathfinder.step(&mut graph), PathfindingResult::NoPath));
    }
    assert_eq!(graph.edges, held);
}

#[test]
fn reset_starts_the_search_over() {
    let mut graph = one_wall();
    let from = Point::new(5000, -5000);
    let to = Point::new(5000, 5000);
    let mut pathfinder = Pathfinder::initialize(from, to, &graph, 100_000);
    let (first, first_steps) = run(&mut pathfinder, &mut graph);
    pathfinder.reset(&graph);
    let (second, second_steps) = run(&mut pathfinder, &mut graph);
    let first = first.expect("a way");
    let second = second.expect("a way again");
    assert_eq!(first.cost, second.cost);
    assert_eq!(first_steps, second_steps);
    assert_eq!(pathfinder.unroll_path(second).len(), 5);
}

#[test]
fn the_graph_notes_links_but_not_those_of_the_source() {
    let mut graph = one_wall();
    let from = Point::new(5000, -5000);
    let to = Point::new(5000, 5000);
    assert!(graph.edges.is_empty());
    let mut pathfinder = Pathfinder::initialize(from, to, &graph, 100_000);
    assert!(graph.edges.is_empty());
    assert!(matches!(pathfinder.step(&mut graph), PathfindingResult::Unfinished));
    // from the source the three waypoints below either end can be seen, and one beside it
    assert!(!graph.edges.contains_key(&from.hash_key()));
    assert!(graph.edges.contains_key(&Point::new(0, -1000).hash_key()));
    assert!(graph.edges.contains_key(&Point::new(10_000, -1000).hash_key()));
    assert!(!graph.edges.contains_key(&Point::new(0, 1000).hash_key()));
    let seen = graph.edges.get(&Point::new(0, -1000).hash_key()).unwrap();
    assert_eq!(
        seen,
        &vec![
            Edge { target: Point::new(-1000, 0), cost: 141_421_356 },
            Edge { target: Point::new(0, -1000), cost: 0 },
            Edge { target: Point::new(10_000, -1000), cost: 1_000_000_000 },
        ]
    );
}

#[test]
fn a_second_search_finds_what_the_first_one_noted() {
    let mut graph = one_wall();
    let to = Point::new(5000, 5000);
    let mut first = Pathfinder::initialize(Point::new(5000, -5000), to, &graph, 100_000);
    let (found, _) = run(&mut first, &mut graph);
    let cost = found.expect("a way").cost;
    let noted = graph.edges.clone();
    assert!(!noted.is_empty());
    // the same search again, on the graph that now holds links
    let mut again = Pathfinder::initialize(Point::new(5000, -5000), to, &graph, 100_000);
    let (found, _) = run(&mut again, &mut graph);
    assert_eq!(found.expect("a way").cost, cost);
    assert_eq!(graph.edges, noted);
    // another search keeps what was noted and may add to it
    let mut other = Pathfinder::initialize(Point::new(3000, -7000), Point::new(12_000, 3000), &graph, 100_000);
    let (found, _) = run(&mut other, &mut graph);
    assert!(found.is_some());
    for (key, links) in noted.iter() {
        assert_eq!(graph.edges.get(key), Some(links));
    }
    // and a fresh graph gives the same answer
    let mut fresh = one_wall();
    let mut same = Pathfinder::initialize(Point::new(3000, -7000), Point::new(12_000, 3000), &fresh, 100_000);
    let (expected, _) = run(&mut same, &mut fresh);
    assert_eq!(found.map(|n| n.cost), expected.map(|n| n.cost));
}

#[test]
fn points_connected_and_collisions() {
    let graph = one_wall();
    assert!(Pathfinder::points_connected(Point::new(5000, -5000), Point::new(5000, -1000), &graph.walls));
    assert!(!Pathfinder::points_connected(Point::new(5000, -5000), Point::new(5000, 5000), &graph.walls));
    // the fence of the waypoint beside the end of the wall is in the way
    assert!(!Pathfinder::points_connected(Point::new(5000, -5000), Point::new(-1000, 0), &graph.walls));
    assert!(Pathfinder::points_connected(Point::new(0, -1000), Point::new(-1000, 0), &graph.walls));
    assert!(!Pathfinder::points_connected(Point::new(0, -1000), Point::new(0, 1000), &graph.walls));
    let way = LineSegment::new(Point::new(5000, -5000), Point::new(5000, 5000));
    assert!(Pathfinder::collides_with_any_wall(&way, &graph.walls));
    assert!(Pathfinder::collides_with_wall(&way, &graph.walls[0]));
    assert!(!Pathfinder::collides_with_wall(&way, &graph.walls[1]));
    assert!(!Pathfinder::collides_with_any_wall(&way, &Vec::new()));
}

#[test]
fn without_walls_the_way_is_straight() {
    let mut graph = Graph::initialize(Vec::new(), 2000, 0);
    let from = Point::new(0, 0);
    let to = Point::new(3, 4);
    let mut pathfinder = Pathfinder::initialize(from, to, &graph, 100);
    assert!(matches!(pathfinder.step(&mut graph), PathfindingResult::Unfinished));
    match pathfinder.step(&mut graph) {
        PathfindingResult::Path(node) => {
            assert_eq!(node.cost, 500_001);
            assert_eq!(pathfinder.unroll_path(node), vec![from, to]);
        }
        _ => panic!("the straight way was not found"),
    }
    // the destination was met as a target: the graph notes that it sees no waypoint
    assert_eq!(graph.edges.len(), 1);
    assert_eq!(graph.edges.get(&to.hash_key()), Some(&Vec::new()));
}

/// The cost of the cheapest way from `from` to `to` over the waypoints of the
/// graph, found by trying every link until nothing gets cheaper.
fn cheapest_by_hand(graph: &Graph, from: Point, to: Point) -> Option<u64> {
    let mut points = vec![from];
    for node in &graph.nodes {
        if !points.contains(node) {
            points.push(*node);
        }
    }
    if !points.contains(&to) {
        points.push(to);
    }
    let mut best: Vec<Option<u64>> = vec![None; points.len()];
    best[0] = Some(0);
    for _ in 0..points.len() {
        for i in 0..points.len() {
            let Some(so_far) = best[i] else { continue };
            for j in 1..points.len() {
                if !Pathfinder::points_connected(points[i], points[j], &graph.walls) {
                    continue;
                }
                let through = so_far + points[i].span_to(points[j]) + STEP_PENALTY;
                if best[j].map_or(true, |known| through < known) {
                    best[j] = Some(through);
                }
            }
        }
    }
    let at = points.iter().position(|p| *p == to).unwrap();
    best[at]
}

fn courtyard() -> Graph {
    Graph::initialize(
        vec![
            plain(0, 0, 4000, 0),
            plain(4000, 0, 4000, 3000),
            plain(4000, 3000, 0, 3000),
            plain(0, 3000, 0, 0),
            plain(6000, -4000, 6000, 2000),
            plain(6000, 2000, 9000, 2000),
            plain(-3000, 5000, 7000, 5000),
        ],
        1000,
        0,
    )
}

#[test]
fn the_search_finds_what_trying_every_way_finds() {
    let places = [
        Point::new(-2000, -2000),
        Point::new(2000, -3000),
        Point::new(8000, 0),
        Point::new(8000, 4000),
        Point::new(2000, 8000),
        Point::new(-2000, 1500),
        Point::new(5000, 1000),
    ];
    for from in places {
        for to in places {
            let mut graph = courtyard();
            let expected = cheapest_by_hand(&graph, from, to);
            let mut pathfinder = Pathfinder::initialize(from, to, &graph, 1_000_000);
            let (found, _) = run(&mut pathfinder, &mut graph);
            assert_eq!(found.map(|node| node.cost), expected);
            let node = found.expect("the places lie in the open");
            // the estimate never overshoots
            assert!(from.span_to(to) <= node.cost);
            let path = pathfinder.unroll_path(node);
            assert_eq!(way_cost(&path), node.cost);
            for pair in path.windows(2) {
                assert!(!crosses_any(&graph, pair[0], pair[1]));
            }
        }
    }
}

#[test]
fn the_search_on_a_shared_graph_finds_what_trying_every_way_finds() {
    let places = [
        Point::new(-2000, -2000),
        Point::new(8000, 0),
        Point::new(2000, 8000),
        Point::new(5000, 1000),
    ];
    let mut graph = courtyard();
    for from in places {
        for to in places {
            let expected = cheapest_by_hand(&graph, from, to);
            let mut pathfinder = Pathfinder::initialize(from, to, &graph, 1_000_000);
            let (found, _) = run(&mut pathfinder, &mut graph);
            assert_eq!(found.map(|node| node.cost), expected);
        }
    }
}

#[test]
fn the_estimate_never_overshoots_the_cost_of_a_way() {
    let way = [
        Point::new(0, 0),
        Point::new(1, 1),
        Point::new(2, 2),
        Point::new(3, 3),
        Point::new(10, 3),
    ];
    assert_eq!(way_cost(&way), 3 * 141_421 + 700_000 + 4);
    assert!(way[0].span_to(way[4]) <= way_cost(&way));
    assert_eq!(way[0].span_to(way[4]), 1_044_030);
}

fn unit_wall() -> Graph {
    Graph::initialize(vec![plain(0, 0, 10, 0)], 2, 0)
}

fn unit_box() -> Graph {
    Graph::initialize(
        vec![plain(0, 0, 10, 0), plain(10, 0, 10, 10), plain(10, 10, 0, 10), plain(0, 10, 0, 0)],
        2,
        0,
    )
}

#[test]
fn in_grid_units_a_way_round_the_end_of_a_wall() {
    let mut graph = unit_wall();
    let from = Point::new(5, -5);
    let to = Point::new(5, 5);
    let mut pathfinder = Pathfinder::initialize(from, to, &graph, 100);
    let (found, _) = run(&mut pathfinder, &mut graph);
    let node = found.expect("a way round the wall");
    // two legs of the root of 41, two of the root of 2, and four penalties
    assert_eq!(node.cost, 2 * 640_312 + 2 * 141_421 + 4);
    assert!(node.cost > 1_414_000 && node.cost < 1_564_000);
    let path = pathfinder.unroll_path(node);
    let near = vec![from, Point::new(0, -1), Point::new(-1, 0), Point::new(0, 1), to];
    let far = vec![from, Point::new(10, -1), Point::new(11, 0), Point::new(10, 1), to];
    assert!(path == near || path == far);
    assert_eq!(cheapest_by_hand(&graph, from, to), Some(node.cost));
}

#[test]
fn in_grid_units_a_straight_way_costs_its_length_and_one_penalty() {
    let mut graph = unit_wall();
    let from = Point::new(5, -5);
    let to = Point::new(5, -1);
    let mut pathfinder = Pathfinder::initialize(from, to, &graph, 100);
    assert!(matches!(pathfinder.step(&mut graph), PathfindingResult::Unfinished));
    match pathfinder.step(&mut graph) {
        PathfindingResult::Path(node) => {
            assert_eq!(node.point, to);
            assert_eq!(node.previous, Some(from));
            assert_eq!(node.cost, 400_001);
        }
        _ => panic!("the straight way was not found"),
    }
}

#[test]
fn in_grid_units_no_way_into_a_closed_box() {
    for from in [Point::new(20, 3), Point::new(-4, -4), Point::new(5, 30), Point::new(11, 0)] {
        for to in [Point::new(5, 3), Point::new(5, 5), Point::new(1, 9), Point::new(9, 1)] {
            let mut graph = unit_box();
            let mut pathfinder = Pathfinder::initialize(from, to, &graph, 1000);
            let (found, steps) = run(&mut pathfinder, &mut graph);
            assert!(found.is_none());
            // the source and the twelve waypoints, and the step that finds the frontier empty
            assert!(steps <= 14);
            assert_eq!(cheapest_by_hand(&graph, from, to), None);
        }
    }
}

#[test]
fn in_grid_units_the_search_finds_what_trying_every_way_finds() {
    let places = [
        Point::new(-2, -2),
        Point::new(5, -3),
        Point::new(14, 0),
        Point::new(12, 12),
        Point::new(-3, 5),
        Point::new(5, 14),
    ];
    let mut graph = unit_box();
    for from in places {
        for to in places {
            let expected = cheapest_by_hand(&graph, from, to);
            let mut pathfinder = Pathfinder::initialize(from, to, &graph, 1000);
            let (found, _) = run(&mut pathfinder, &mut graph);
            assert_eq!(found.map(|node| node.cost), expected);
            assert!(expected.is_some());
        }
    }
}

#[test]
fn no_more_steps_than_points_to_close() {
    let mut graph = courtyard();
    let bound = graph.nodes.len() + 2;
    for to in [Point::new(2000, 1500), Point::new(8000, 4000), Point::new(-2000, -2000)] {
        let mut pathfinder = Pathfinder::initialize(Point::new(2000, -3000), to, &graph, 1_000_000);
        let (_, steps) = run(&mut pathfinder, &mut graph);
        assert!(steps <= bound);
    }
}

#[test]
fn a_search_that_found_the_way_stays_ended() {
    let mut graph = one_wall();
    let from = Point::new(5000, -5000);
    let to = Point::new(5000, -1000);
    let mut pathfinder = Pathfinder::initialize(from, to, &graph, 100_000);
    assert!(matches!(pathfinder.step(&mut graph), PathfindingResult::Unfinished));
    let first = match pathfinder.step(&mut graph) {
        PathfindingResult::Path(node) => node,
        _ => panic!("the straight way was not found"),
    };
    let held = graph.edges.clone();
    for _ in 0..5 {
        match pathfinder.step(&mut graph) {
            PathfindingResult::Path(node) => {
                assert_eq!(node.point, first.point);
                assert_eq!(node.cost, first.cost);
                assert_eq!(node.previous, first.previous);
                assert_eq!(pathfinder.unroll_path(node), vec![from, to]);
            }
            _ => panic!("the search went on after its end"),
        }
        assert_eq!(graph.edges, held);
    }
    pathfinder.reset(&graph);
    assert!(matches!(pathfinder.step(&mut graph), PathfindingResult::Unfinished));
}

#[test]
fn a_search_that_gave_up_stays_ended() {
    let mut graph = one_wall();
    let from = Point::new(5000, -5000);
    let to = Point::new(5000, 5000);
    // the way round the wall is longer than the limit, the waypoints are within it
    let mut pathfinder = Pathfinder::initialize(from, to, &graph, 7000);
    let (found, _) = run(&mut pathfinder, &mut graph);
    assert!(found.is_none());
    let held = graph.edges.clone();
    for _ in 0..5 {
        assert!(matches!(pathfinder.step(&mut graph), PathfindingResult::NoPath));
        assert_eq!(graph.edges, held);
    }
}

#[test]
fn a_limit_below_zero_admits_no_way() {
    let mut graph = one_wall();
    let at = Point::new(5000, -5000);
    let mut pathfinder = Pathfinder::initialize(at, at, &graph, -1);
    assert!(matches!(pathfinder.step(&mut graph), PathfindingResult::NoPath));
    assert!(matches!(pathfinder.step(&mut graph), PathfindingResult::NoPath));
    let mut zero = Pathfinder::initialize(at, at, &graph, 0);
    assert!(matches!(zero.step(&mut graph), PathfindingResult::Path(_)));
}

#[test]
fn two_searches_take_turns_on_one_graph() {
    let mut graph = courtyard();
    let mut first = Pathfinder::initialize(Point::new(-2000, -2000), Point::new(8000, 4000), &graph, 1_000_000);
    let mut second = Pathfinder::initialize(Point::new(2000, 8000), Point::new(5000, 1000), &graph, 1_000_000);
    let mut found_first = None;
    let mut found_second = None;
    for _ in 0..200 {
        if let PathfindingResult::Path(node) = first.step(&mut graph) {
            found_first = Some(node.cost);
        }
        if let PathfindingResult::Path(node) = second.step(&mut graph) {
            found_second = Some(node.cost);
        }
    }
    let fresh = courtyard();
    assert_eq!(found_first, cheapest_by_hand(&fresh, Point::new(-2000, -2000), Point::new(8000, 4000)));
    assert_eq!(found_second, cheapest_by_hand(&fresh, Point::new(2000, 8000), Point::new(5000, 1000)));
    assert!(found_first.is_some() && found_second.is_some());
}

#[test]
fn a_way_holds_no_point_twice() {
    let mut graph = courtyard();
    let from = Point::new(-2000, 1500);
    let to = Point::new(8000, 0);
    let mut pathfinder = Pathfinder::initialize(from, to, &graph, 1_000_000);
    let (found, _) = run(&mut pathfinder, &mut graph);
    let path = pathfinder.unroll_path(found.expect("a way"));
    for (i, p) in path.iter().enumerate() {
        assert!(!path[i + 1..].contains(p));
    }
    // a node that names no point before it unrolls to itself
    let alone = DiscoveredNode { point: Point::new(1, 2), cost: 7, estimated: 9, previous: None };
    assert_eq!(pathfinder.unroll_path(alone), vec![Point::new(1, 2)]);
}

#[test]
fn no_way_through_a_wall_where_another_wall_ends_on_it() {
    // the second wall stands on the first: two of the waypoints round its end lie on the first wall
    for (scale, size) in [(1, 2), (1000, 2000)] {
        let mut graph = Graph::initialize(
            vec![
                plain(-20 * scale, 0, 20 * scale, 0),
                plain(0, 0, 0, 5 * scale),
                plain(-20 * scale, 0, -20 * scale, 30 * scale),
                plain(20 * scale, 0, 20 * scale, 30 * scale),
                plain(-20 * scale, 30 * scale, 20 * scale, 30 * scale),
            ],
            size,
            0,
        );
        let from = Point::new(3 * scale, -6 * scale);
        let to = Point::new(3 * scale, 6 * scale);
        let mut pathfinder = Pathfinder::initialize(from, to, &graph, 1_000_000);
        let (found, _) = run(&mut pathfinder, &mut graph);
        assert!(found.is_none());
        assert_eq!(cheapest_by_hand(&graph, from, to), None);
    }
}

#[test]
fn no_way_into_a_box_by_the_waypoint_of_a_wall_that_ends_before_it() {
    for (scale, size) in [(1, 2), (1000, 2000)] {
        let mut graph = Graph::initialize(
            vec![
                plain(0, 0, 10 * scale, 0),
                plain(10 * scale, 0, 10 * scale, 10 * scale),
                plain(10 * scale, 10 * scale, 0, 10 * scale),
                plain(0, 10 * scale, 0, 0),
                // its end lies one radius below the box: a waypoint falls on the box
                plain(5 * scale, -scale, 5 * scale, -6 * scale),
            ],
            size,
            0,
        );
        assert!(graph.nodes.contains(&Point::new(5 * scale, 0)));
        let from = Point::new(2 * scale, -4 * scale);
        let to = Point::new(5 * scale, 3 * scale);
        let mut pathfinder = Pathfinder::initialize(from, to, &graph, 1_000_000);
        let (found, _) = run(&mut pathfinder, &mut graph);
        assert!(found.is_none());
    }
}
