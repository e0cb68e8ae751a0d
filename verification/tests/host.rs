use routinglib::geometry::{Point, COST_SCALE};
use routinglib::graph::Graph;
use routinglib::host::{
    checked_initialize_graph, free_graph, free_pathfinder, initialize_graph, initialize_pathfinder,
    is_roomy, reset_pathfinder, step, StepOutcome,
};
use routinglib::pathfinder::Pathfinder;
use routinglib::wall::{DoorState, DoorType, Wall, WallHeight, WallSenseType};

fn wall_with_height(top: i64, bottom: i64) -> Wall {
    Wall::new(
        Point::new(0, 0),
        Point::new(10_000, 0),
        DoorType::NONE,
        DoorState::CLOSED,
        WallSenseType::NORMAL,
        WallHeight { top, bottom },
    )
}

fn finish(pathfinder: &mut Pathfinder, graph: &mut Graph) -> StepOutcome {
    let mut steps = 0;
    loop {
        steps += 1;
        assert!(steps < 10_000);
        match step(pathfinder, graph) {
            StepOutcome::Unfinished => {}
            done => return done,
        }
    }
}

#[test]
fn heights_count_only_where_they_are_enabled() {
    let low = wall_with_height(10, 0);
    assert_eq!(initialize_graph(vec![low], 2000, 50, true).nodes.len(), 0);
    assert_eq!(initialize_graph(vec![low], 2000, 50, false).nodes.len(), 6);
    assert_eq!(initialize_graph(vec![low], 2000, 5, true).nodes.len(), 6);
    let plain = Graph::initialize(vec![wall_with_height(i64::MAX, i64::MIN)], 2000, 50);
    let built = initialize_graph(vec![low], 2000, 50, false);
    assert_eq!(built.nodes, plain.nodes);
    assert_eq!(built.walls, plain.walls);
    assert!(built.edges.is_empty());
}

#[test]
fn step_hands_out_the_cost_and_the_way() {
    let mut graph = initialize_graph(vec![wall_with_height(10, 0)], 2000, 5, true);
    let from = Point::new(5000, -5000);
    let to = Point::new(5000, 5000);
    let mut pathfinder = Pathfinder::initialize(from, to, &graph, 100_000);
    match finish(&mut pathfinder, &mut graph) {
        StepOutcome::Path { cost, path } => {
            assert_eq!(cost, 1_563_467_562);
            assert_eq!(path.len(), 5);
            assert_eq!(path[0], from);
            assert_eq!(path[4], to);
        }
        _ => panic!("a way round the wall"),
    }
}

#[test]
fn step_hands_out_the_straight_way() {
    let mut graph = initialize_graph(vec![wall_with_height(10, 0)], 2000, 5, true);
    let from = Point::new(5000, -5000);
    let to = Point::new(5000, -1000);
    let mut pathfinder = Pathfinder::initialize(from, to, &graph, 100_000);
    assert!(matches!(step(&mut pathfinder, &mut graph), StepOutcome::Unfinished));
    match step(&mut pathfinder, &mut graph) {
        StepOutcome::Path { cost, path } => {
            assert_eq!(cost, 4000 * COST_SCALE + 1);
            assert_eq!(path, vec![from, to]);
        }
        _ => panic!("the straight way"),
    }
    // the search has ended: it hands out the same again
    match step(&mut pathfinder, &mut graph) {
        StepOutcome::Path { cost, path } => {
            assert_eq!(cost, 4000 * COST_SCALE + 1);
            assert_eq!(path, vec![from, to]);
        }
        _ => panic!("the search went on after its end"),
    }
}

#[test]
fn step_tells_when_there_is_no_way() {
    let mut graph = initialize_graph(vec![wall_with_height(10, 0)], 2000, 5, true);
    let mut pathfinder = Pathfinder::initialize(Point::new(5000, -5000), Point::new(5000, 5000), &graph, 9000);
    assert!(matches!(finish(&mut pathfinder, &mut graph), StepOutcome::NoPath));
}

#[test]
fn a_searcher_can_be_made_reset_and_let_go() {
    let mut graph = initialize_graph(vec![wall_with_height(10, 0)], 2000, 5, true);
    let from = Point::new(5000, -5000);
    let to = Point::new(5000, -1000);
    let mut pathfinder = initialize_pathfinder(from, to, &graph, 100_000);
    assert!(matches!(step(&mut pathfinder, &mut graph), StepOutcome::Unfinished));
    reset_pathfinder(&mut pathfinder, &graph);
    assert!(matches!(step(&mut pathfinder, &mut graph), StepOutcome::Unfinished));
    match step(&mut pathfinder, &mut graph) {
        StepOutcome::Path { cost, path } => {
            assert_eq!(cost, 4000 * COST_SCALE + 1);
            assert_eq!(path, vec![from, to]);
        }
        _ => panic!("the straight way"),
    }
    free_pathfinder(pathfinder);
    // the graph outlives the searcher and keeps what it noted
    assert!(!graph.edges.is_empty());
    assert_eq!(graph.nodes.len(), 6);
    free_graph(graph);
}

#[test]
fn room_for_the_waypoints() {
    assert!(is_roomy(Point::new(0, 0), 1000));
    assert!(is_roomy(Point::new(i32::MAX - 1000, i32::MIN + 1000), 1000));
    assert!(!is_roomy(Point::new(i32::MAX - 999, 0), 1000));
    assert!(!is_roomy(Point::new(0, i32::MIN + 999), 1000));
    assert!(is_roomy(Point::new(i32::MAX, i32::MIN), 0));
    assert!(!is_roomy(Point::new(0, 0), u32::MAX));
}

#[test]
fn a_graph_is_built_only_where_the_waypoints_have_room() {
    let near_the_edge = Wall::new(
        Point::new(0, 0),
        Point::new(i32::MAX - 10, 0),
        DoorType::NONE,
        DoorState::CLOSED,
        WallSenseType::NORMAL,
        WallHeight { top: 10, bottom: 0 },
    );
    assert!(checked_initialize_graph(vec![near_the_edge], 22, 5, true).is_none());
    assert!(checked_initialize_graph(vec![near_the_edge], 21, 5, true).is_none());
    let built = checked_initialize_graph(vec![near_the_edge], 20, 5, true).expect("room enough");
    assert_eq!(built.nodes.len(), 6);
    assert_eq!(built.nodes[3], Point::new(i32::MAX, 0));
    // a wall that does not block needs no room
    let idle = checked_initialize_graph(vec![near_the_edge], 22, 50, true).expect("nothing blocks");
    assert!(idle.nodes.is_empty());
    // without heights the wall counts at every elevation
    assert!(checked_initialize_graph(vec![near_the_edge], 22, 50, false).is_none());
    let plain = initialize_graph(vec![wall_with_height(10, 0)], 2000, 5, true);
    let checked = checked_initialize_graph(vec![wall_with_height(10, 0)], 2000, 5, true).unwrap();
    assert_eq!(checked.nodes, plain.nodes);
    assert_eq!(checked.walls, plain.walls);
}
