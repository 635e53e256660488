use mapper::agent::{Action, Agent, AgentError, MoveOutcome};
use mapper::door::scan;
use mapper::explore::{next_direction, ExplorationExhausted};
use mapper::grid::{direction_at, is_passable, Coord, Direction, TileKind};
use mapper::store::{MergePolicy, TileStore};

use TileKind::{ClosedDoor, Floor, Void, Wall};

fn filled(radius: u16, t: TileKind) -> Vec<TileKind> {
    let w = 2 * radius as usize + 1;
    vec![t; w * w]
}

fn set(window: &mut Vec<TileKind>, radius: u16, dx: i64, dy: i64, t: TileKind) {
    let w = 2 * radius as i64 + 1;
    let r = radius as i64;
    window[((dy + r) * w + (dx + r)) as usize] = t;
}

#[test]
fn frontier_to_the_north_is_chosen() {
    let mut window = filled(1, Floor);
    set(&mut window, 1, 0, -1, Void);
    let mut store = TileStore::new();
    store.merge(&window, 1, Coord::new(0, 0), MergePolicy::SkipVoid);
    assert_eq!(store.get(Coord::new(0, -1)), None);
    assert_eq!(next_direction(&store, Coord::new(0, 0)), Ok(Direction::North));
}

#[test]
fn all_neighbours_unmapped_prefers_north() {
    let store = TileStore::new();
    assert_eq!(next_direction(&store, Coord::new(5, -7)), Ok(Direction::North));
}

#[test]
fn closed_door_to_the_east_is_opened() {
    let mut window = filled(1, Floor);
    set(&mut window, 1, 1, 0, ClosedDoor);
    assert_eq!(scan(&window, 1), Some(Coord::new(1, 0)));

    let mut agent = Agent::new(MergePolicy::KeepFirst);
    let r = agent.tick(&window, 1, MoveOutcome::Failed);
    assert_eq!(r, Ok(Action::Open { target: Coord::new(1, 0) }));
    assert_eq!(agent.pending, None);
    // the turn ended before the map was touched or a frontier was sought
    assert_eq!(agent.store.get(Coord::new(0, 0)), None);
    assert_eq!(agent.store.get(Coord::new(1, 0)), None);
}

#[test]
fn move_north_succeeded_then_failed() {
    let mut agent = Agent::new(MergePolicy::KeepFirst);
    agent.pending = Some(Direction::North);
    agent.update_position(MoveOutcome::Succeeded);
    assert_eq!(agent.pos, Coord::new(0, -1));
    assert_eq!(agent.pending, None);

    agent.pending = Some(Direction::North);
    agent.update_position(MoveOutcome::Failed);
    assert_eq!(agent.pos, Coord::new(0, -1));
    assert_eq!(agent.pending, None);
}

#[test]
fn each_direction_moves_one_unit() {
    let cases = [
        (Direction::North, Coord::new(3, 2)),
        (Direction::South, Coord::new(3, 4)),
        (Direction::West, Coord::new(2, 3)),
        (Direction::East, Coord::new(4, 3)),
    ];
    for (d, expected) in cases {
        let mut agent = Agent::new(MergePolicy::KeepFirst);
        agent.pos = Coord::new(3, 3);
        agent.pending = Some(d);
        agent.update_position(MoveOutcome::Succeeded);
        assert_eq!(agent.pos, expected);

        agent.pos = Coord::new(3, 3);
        agent.pending = Some(d);
        agent.update_position(MoveOutcome::Blocked);
        assert_eq!(agent.pos, Coord::new(3, 3));
    }
}

#[test]
fn outcome_without_pending_move_is_ignored() {
    let mut agent = Agent::new(MergePolicy::KeepFirst);
    agent.update_position(MoveOutcome::Succeeded);
    assert_eq!(agent.pos, Coord::new(0, 0));
}

#[test]
fn enclosed_room_is_exhausted() {
    let mut window = filled(2, Wall);
    for dy in -1..=1 {
        for dx in -1..=1 {
            set(&mut window, 2, dx, dy, Floor);
        }
    }
    let mut store = TileStore::new();
    store.merge(&window, 2, Coord::new(0, 0), MergePolicy::KeepFirst);
    assert_eq!(next_direction(&store, Coord::new(0, 0)), Err(ExplorationExhausted));
    assert_eq!(next_direction(&store, Coord::new(1, -1)), Err(ExplorationExhausted));

    let mut agent = Agent::new(MergePolicy::KeepFirst);
    assert_eq!(agent.tick(&window, 2, MoveOutcome::Failed), Err(AgentError::ExplorationExhausted));
    assert_eq!(agent.pending, None);
    let mut agent = Agent::new(MergePolicy::KeepFirst);
    assert_eq!(agent.decide(&window, 2, MoveOutcome::Failed), Action::Wait);
}

#[test]
fn corridor_leads_east() {
    let mut window = filled(2, Wall);
    for dx in 0..=2 {
        set(&mut window, 2, dx, 0, Floor);
    }
    let mut agent = Agent::new(MergePolicy::KeepFirst);
    let r = agent.tick(&window, 2, MoveOutcome::Failed);
    assert_eq!(r, Ok(Action::MoveTo { direction: Direction::East, distance: 1 }));
    assert_eq!(agent.pending, Some(Direction::East));
    assert_eq!(agent.store.get(Coord::new(2, 0)), Some(Floor));
    assert_eq!(agent.store.get(Coord::new(-2, -2)), Some(Wall));
    assert_eq!(agent.store.get(Coord::new(3, 0)), None);

    // the host reports success: the next window is centred one cell East
    let r = agent.tick(&window, 2, MoveOutcome::Succeeded);
    assert_eq!(agent.pos, Coord::new(1, 0));
    assert_eq!(r, Ok(Action::MoveTo { direction: Direction::East, distance: 1 }));
}

#[test]
fn route_through_closed_door_is_planned() {
    let mut window = filled(2, Wall);
    set(&mut window, 2, 0, 0, Floor);
    set(&mut window, 2, 0, -1, Floor);
    set(&mut window, 2, 0, -2, ClosedDoor);
    let mut store = TileStore::new();
    store.merge(&window, 2, Coord::new(0, 0), MergePolicy::KeepFirst);
    assert_eq!(next_direction(&store, Coord::new(0, 0)), Ok(Direction::North));
    set(&mut window, 2, 0, -2, Wall);
    let mut store = TileStore::new();
    store.merge(&window, 2, Coord::new(0, 0), MergePolicy::KeepFirst);
    assert_eq!(next_direction(&store, Coord::new(0, 0)), Err(ExplorationExhausted));
}

#[test]
fn first_observation_wins() {
    let mut store = TileStore::new();
    store.merge(&filled(1, Floor), 1, Coord::new(0, 0), MergePolicy::KeepFirst);
    store.merge(&filled(1, Wall), 1, Coord::new(1, 0), MergePolicy::KeepFirst);
    assert_eq!(store.get(Coord::new(1, 1)), Some(Floor));
    assert_eq!(store.get(Coord::new(2, 1)), Some(Wall));
    assert_eq!(store.get(Coord::new(-1, -1)), Some(Floor));
    assert_eq!(store.get(Coord::new(3, 0)), None);
}

#[test]
fn void_is_recorded_by_default() {
    let mut store = TileStore::new();
    store.merge(&filled(1, Void), 1, Coord::new(0, 0), MergePolicy::KeepFirst);
    assert_eq!(store.get(Coord::new(1, 1)), Some(Void));
    store.merge(&filled(1, Floor), 1, Coord::new(0, 0), MergePolicy::KeepFirst);
    assert_eq!(store.get(Coord::new(1, 1)), Some(Void));
}

#[test]
fn void_policies() {
    let mut store = TileStore::new();
    store.merge(&filled(1, Void), 1, Coord::new(0, 0), MergePolicy::SkipVoid);
    assert_eq!(store.get(Coord::new(0, 0)), None);

    let mut store = TileStore::new();
    store.merge(&filled(1, Void), 1, Coord::new(0, 0), MergePolicy::ReplaceVoid);
    assert_eq!(store.get(Coord::new(0, 0)), Some(Void));
    store.merge(&filled(1, Floor), 1, Coord::new(0, 0), MergePolicy::ReplaceVoid);
    assert_eq!(store.get(Coord::new(0, 0)), Some(Floor));
    store.merge(&filled(1, Wall), 1, Coord::new(0, 0), MergePolicy::ReplaceVoid);
    assert_eq!(store.get(Coord::new(0, 0)), Some(Floor));
}

#[test]
fn diagonal_door_never_qualifies() {
    let mut window = filled(1, Floor);
    set(&mut window, 1, 1, 1, ClosedDoor);
    set(&mut window, 1, -1, -1, ClosedDoor);
    assert_eq!(scan(&window, 1), None);
    let mut window = filled(2, Floor);
    set(&mut window, 2, 2, 0, ClosedDoor);
    set(&mut window, 2, 0, 0, ClosedDoor);
    assert_eq!(scan(&window, 2), None);
}

#[test]
fn first_door_in_row_major_order() {
    let mut window = filled(1, Floor);
    set(&mut window, 1, 0, 1, ClosedDoor);
    set(&mut window, 1, -1, 0, ClosedDoor);
    assert_eq!(scan(&window, 1), Some(Coord::new(-1, 0)));
    set(&mut window, 1, 0, -1, ClosedDoor);
    assert_eq!(scan(&window, 1), Some(Coord::new(0, -1)));
}

#[test]
fn open_door_is_not_opened() {
    let mut window = filled(1, Floor);
    set(&mut window, 1, 0, 1, TileKind::OpenDoor);
    assert_eq!(scan(&window, 1), None);
}

#[test]
fn malformed_window_is_rejected() {
    let mut agent = Agent::new(MergePolicy::KeepFirst);
    agent.pending = Some(Direction::South);
    let window = vec![Floor; 8];
    assert_eq!(agent.tick(&window, 1, MoveOutcome::Succeeded), Err(AgentError::MalformedObservation));
    // the confirmed move is still reconciled
    assert_eq!(agent.pos, Coord::new(0, 1));
    assert_eq!(agent.pending, None);
    assert_eq!(agent.store.get(Coord::new(0, 1)), None);
    assert_eq!(agent.decide(&window, 1, MoveOutcome::Succeeded), Action::Wait);
    assert_eq!(agent.pos, Coord::new(0, 1));
}

#[test]
fn confirmed_move_north_survives_malformed_window() {
    let mut agent = Agent::new(MergePolicy::KeepFirst);
    agent.pending = Some(Direction::North);
    let window = vec![Floor; 8];
    assert_eq!(agent.tick(&window, 1, MoveOutcome::Succeeded), Err(AgentError::MalformedObservation));
    assert_eq!(agent.pos, Coord::new(0, -1));
}

#[test]
fn move_north_then_confirmed_next_turn() {
    let mut window = filled(1, Floor);
    set(&mut window, 1, 0, -1, Void);
    let mut agent = Agent::new(MergePolicy::SkipVoid);
    let r = agent.tick(&window, 1, MoveOutcome::Failed);
    assert_eq!(r, Ok(Action::MoveTo { direction: Direction::North, distance: 1 }));
    agent.tick(&filled(1, Floor), 1, MoveOutcome::Succeeded).unwrap();
    assert_eq!(agent.pos, Coord::new(0, -1));
}

#[test]
fn window_beyond_coordinates_is_rejected() {
    let mut agent = Agent::new(MergePolicy::KeepFirst);
    agent.pos = Coord::new(i64::MAX, 0);
    agent.pending = Some(Direction::West);
    assert_eq!(agent.tick(&filled(1, Floor), 1, MoveOutcome::Failed), Err(AgentError::OutOfRange));
    assert_eq!(agent.pending, None);
    assert_eq!(agent.store.get(Coord::new(i64::MAX, 0)), None);
}

#[test]
fn door_is_opened_at_the_edge_of_coordinates() {
    let mut window = filled(1, Floor);
    set(&mut window, 1, -1, 0, ClosedDoor);
    let mut agent = Agent::new(MergePolicy::KeepFirst);
    agent.pos = Coord::new(i64::MAX, 0);
    assert_eq!(agent.tick(&window, 1, MoveOutcome::Failed), Ok(Action::Open { target: Coord::new(-1, 0) }));
}

#[test]
fn move_beyond_coordinates_is_rejected() {
    let mut agent = Agent::new(MergePolicy::KeepFirst);
    agent.pos = Coord::new(i64::MAX, 0);
    agent.pending = Some(Direction::East);
    assert_eq!(agent.tick(&filled(1, Floor), 1, MoveOutcome::Succeeded), Err(AgentError::OutOfRange));
    assert_eq!(agent.pos, Coord::new(i64::MAX, 0));
    assert_eq!(agent.pending, Some(Direction::East));
}

#[test]
fn frontier_at_the_edge_of_coordinates() {
    let mut store = TileStore::new();
    store.merge(&filled(1, Wall), 1, Coord::new(i64::MAX - 1, 0), MergePolicy::KeepFirst);
    let mut window = filled(1, Wall);
    set(&mut window, 1, 1, 0, Floor);
    let mut store2 = TileStore::new();
    store2.merge(&window, 1, Coord::new(i64::MAX - 1, 0), MergePolicy::KeepFirst);
    assert_eq!(next_direction(&store2, Coord::new(i64::MAX - 1, 0)), Ok(Direction::East));
    assert_eq!(next_direction(&store, Coord::new(i64::MAX - 1, 0)), Err(ExplorationExhausted));
}

#[test]
fn initialization_is_always_accepted() {
    let mut agent = Agent::new(MergePolicy::KeepFirst);
    assert!(agent.initialize(true));
    assert!(agent.initialize(false));
}

#[test]
fn helpers() {
    assert!(is_passable(Floor));
    assert!(is_passable(ClosedDoor));
    assert!(is_passable(TileKind::OpenDoor));
    assert!(!is_passable(Wall));
    assert!(!is_passable(Void));
    assert_eq!(direction_at(0), Direction::North);
    assert_eq!(direction_at(1), Direction::South);
    assert_eq!(direction_at(2), Direction::West);
    assert_eq!(direction_at(3), Direction::East);
}

#[test]
fn equal_distance_frontiers_prefer_west_over_east() {
    // a horizontal corridor three cells long, open at both ends
    let mut window = filled(1, Wall);
    set(&mut window, 1, -1, 0, Floor);
    set(&mut window, 1, 0, 0, Floor);
    set(&mut window, 1, 1, 0, Floor);
    let mut store = TileStore::new();
    store.merge(&window, 1, Coord::new(0, 0), MergePolicy::KeepFirst);
    assert_eq!(next_direction(&store, Coord::new(0, 0)), Ok(Direction::West));
}

#[test]
fn equal_distance_frontiers_prefer_south_over_west() {
    let mut window = filled(1, Wall);
    set(&mut window, 1, 0, 0, Floor);
    set(&mut window, 1, 0, 1, Floor);
    set(&mut window, 1, -1, 0, Floor);
    let mut store = TileStore::new();
    store.merge(&window, 1, Coord::new(0, 0), MergePolicy::KeepFirst);
    assert_eq!(next_direction(&store, Coord::new(0, 0)), Ok(Direction::South));
}

#[test]
fn nearer_frontier_beats_priority() {
    // North leads into a long known corridor, East is one step from the unknown
    let mut window = filled(3, Wall);
    for dy in -3..=0 {
        set(&mut window, 3, 0, dy, Floor);
    }
    set(&mut window, 3, 1, 0, Floor);
    set(&mut window, 3, 2, 0, Floor);
    set(&mut window, 3, 3, 0, Floor);
    let mut store = TileStore::new();
    store.merge(&window, 3, Coord::new(0, 0), MergePolicy::KeepFirst);
    // both frontiers lie four steps away: North wins the tie
    assert_eq!(next_direction(&store, Coord::new(0, 0)), Ok(Direction::North));
    set(&mut window, 3, 0, -3, Wall);
    let mut store = TileStore::new();
    store.merge(&window, 3, Coord::new(0, 0), MergePolicy::KeepFirst);
    // North is now a dead end: only East reaches the unknown
    assert_eq!(next_direction(&store, Coord::new(0, 0)), Ok(Direction::East));
}

#[test]
fn shorter_route_wins_over_northern_one() {
    let mut window = filled(3, Wall);
    for dy in -3..=0 {
        set(&mut window, 3, 0, dy, Floor);
    }
    set(&mut window, 3, 1, 0, Floor);
    set(&mut window, 3, 2, 0, Floor);
    set(&mut window, 3, 3, 0, Void);
    let mut store = TileStore::new();
    store.merge(&window, 3, Coord::new(0, 0), MergePolicy::SkipVoid);
    // the unknown (3, 0) is three steps away going East, (0, -4) four going North
    assert_eq!(store.get(Coord::new(3, 0)), None);
    assert_eq!(next_direction(&store, Coord::new(0, 0)), Ok(Direction::East));
}
