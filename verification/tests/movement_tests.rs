use sokoban::components::Position;
use sokoban::events::{EntityMoved, Event};
use sokoban::input_system::{apply_move, resolve_move, InputSystem, Resolution};
use sokoban::resources::{Direction, EventQueue, Gameplay, GameplayState, InputQueue};
use sokoban::spatial::{EntityState, SpatialIndex};

fn entity(id: u64, x: u8, y: u8, movable: bool, immovable: bool, player: bool) -> EntityState {
    EntityState { id, position: Position { x, y, z: 0 }, movable, immovable, player }
}

fn pos_of(entities: &[EntityState], id: u64) -> (u8, u8) {
    let e = entities.iter().find(|e| e.id == id).unwrap();
    (e.position.x, e.position.y)
}

#[test]
fn push_box_into_empty_cell() {
    // player at (5,5) facing right on a 10x10 grid, box at (6,5), (7,5) empty
    let mut entities = vec![
        entity(1, 5, 5, true, false, true),
        entity(2, 6, 5, true, false, false),
    ];
    let mut input = InputQueue::new();
    input.keys_pressed.push(Direction::Right);
    let mut events = EventQueue::new();
    let mut gameplay = Gameplay::new();
    let system = InputSystem {};
    system.run(10, 10, &mut input, &mut events, &mut gameplay, &mut entities);
    assert_eq!(pos_of(&entities, 1), (6, 5));
    assert_eq!(pos_of(&entities, 2), (7, 5));
    assert_eq!(events.events.len(), 2);
    assert_eq!(events.events[0], Event::EntityMoved(EntityMoved { id: 1 }));
    assert_eq!(events.events[1], Event::EntityMoved(EntityMoved { id: 2 }));
    assert_eq!(gameplay.moves_count, 1);
    assert_eq!(gameplay.state, GameplayState::Playing);
    assert_eq!(input.keys_pressed.len(), 0);
}

#[test]
fn push_box_against_wall() {
    // same setup but an immovable wall at (7,5): nothing moves
    let mut entities = vec![
        entity(1, 5, 5, true, false, true),
        entity(2, 6, 5, true, false, false),
        entity(3, 7, 5, false, true, false),
    ];
    let mut input = InputQueue::new();
    input.keys_pressed.push(Direction::Right);
    let mut events = EventQueue::new();
    let mut gameplay = Gameplay::new();
    let system = InputSystem {};
    system.run(10, 10, &mut input, &mut events, &mut gameplay, &mut entities);
    assert_eq!(pos_of(&entities, 1), (5, 5));
    assert_eq!(pos_of(&entities, 2), (6, 5));
    assert_eq!(pos_of(&entities, 3), (7, 5));
    assert_eq!(events.events, vec![Event::PlayerHitObstacle]);
    assert_eq!(gameplay.moves_count, 0);
}

#[test]
fn push_up_at_corner_is_blocked_at_edge() {
    // player at (0,0) facing up: the scan range ends at the boundary at once
    let mut entities = vec![entity(1, 0, 0, true, false, true)];
    let mut input = InputQueue::new();
    input.keys_pressed.push(Direction::Up);
    let mut events = EventQueue::new();
    let mut gameplay = Gameplay::new();
    let system = InputSystem {};
    system.run(10, 10, &mut input, &mut events, &mut gameplay, &mut entities);
    assert_eq!(pos_of(&entities, 1), (0, 0));
    assert_eq!(events.events.len(), 0);
    assert_eq!(gameplay.moves_count, 0);
    assert_eq!(input.keys_pressed.len(), 0);
}

#[test]
fn empty_queue_does_nothing() {
    let mut entities = vec![entity(1, 4, 4, true, false, true)];
    let mut input = InputQueue::new();
    let mut events = EventQueue::new();
    let mut gameplay = Gameplay::new();
    let system = InputSystem {};
    system.run(10, 10, &mut input, &mut events, &mut gameplay, &mut entities);
    assert_eq!(pos_of(&entities, 1), (4, 4));
    assert_eq!(events.events.len(), 0);
    assert_eq!(gameplay.moves_count, 0);
}

#[test]
fn inputs_are_consumed_first_in_first_out() {
    let mut entities = vec![entity(1, 4, 4, true, false, true)];
    let mut input = InputQueue::new();
    input.keys_pressed.push(Direction::Right);
    input.keys_pressed.push(Direction::Up);
    let mut events = EventQueue::new();
    let mut gameplay = Gameplay::new();
    let system = InputSystem {};
    system.run(10, 10, &mut input, &mut events, &mut gameplay, &mut entities);
    // the oldest key (Right) is consumed first
    assert_eq!(pos_of(&entities, 1), (5, 4));
    assert_eq!(input.keys_pressed, vec![Direction::Up]);
    system.run(10, 10, &mut input, &mut events, &mut gameplay, &mut entities);
    assert_eq!(pos_of(&entities, 1), (5, 3));
    assert_eq!(input.keys_pressed.len(), 0);
    assert_eq!(gameplay.moves_count, 2);
}

#[test]
fn long_chain_counts_as_one_move() {
    // player pushes two boxes at once; the counter grows by one, not three
    let mut entities = vec![
        entity(1, 2, 5, true, false, true),
        entity(2, 3, 5, true, false, false),
        entity(3, 4, 5, true, false, false),
    ];
    let mut input = InputQueue::new();
    input.keys_pressed.push(Direction::Right);
    let mut events = EventQueue::new();
    let mut gameplay = Gameplay::new();
    let system = InputSystem {};
    system.run(10, 10, &mut input, &mut events, &mut gameplay, &mut entities);
    assert_eq!(pos_of(&entities, 1), (3, 5));
    assert_eq!(pos_of(&entities, 2), (4, 5));
    assert_eq!(pos_of(&entities, 3), (5, 5));
    assert_eq!(gameplay.moves_count, 1);
    assert_eq!(events.events.len(), 3);
}

#[test]
fn entity_beyond_empty_cell_stays_put() {
    // the chain stops at the first empty cell: the far box never moves
    let mut entities = vec![
        entity(1, 2, 5, true, false, true),
        entity(2, 3, 5, true, false, false),
        entity(3, 6, 5, true, false, false),
    ];
    let mut input = InputQueue::new();
    input.keys_pressed.push(Direction::Right);
    let mut events = EventQueue::new();
    let mut gameplay = Gameplay::new();
    let system = InputSystem {};
    system.run(10, 10, &mut input, &mut events, &mut gameplay, &mut entities);
    assert_eq!(pos_of(&entities, 1), (3, 5));
    assert_eq!(pos_of(&entities, 2), (4, 5));
    assert_eq!(pos_of(&entities, 3), (6, 5));
    assert_eq!(events.events.len(), 2);
}

#[test]
fn boundary_marker_cell_counts_as_empty() {
    // pushing the last box onto the out-of-grid marker cell succeeds: the
    // inclusive scan range ends one past the last column, which no index holds
    let mut entities = vec![
        entity(1, 1, 1, true, false, true),
        entity(2, 2, 1, true, false, false),
    ];
    let mut input = InputQueue::new();
    input.keys_pressed.push(Direction::Right);
    let mut events = EventQueue::new();
    let mut gameplay = Gameplay::new();
    let system = InputSystem {};
    system.run(3, 3, &mut input, &mut events, &mut gameplay, &mut entities);
    assert_eq!(pos_of(&entities, 1), (2, 1));
    assert_eq!(pos_of(&entities, 2), (3, 1));
    assert_eq!(gameplay.moves_count, 1);
}

#[test]
fn wall_of_movables_to_the_edge_blocks_decreasing_push() {
    // movables fill every cell down to column 0: the push runs off the grid
    // edge, nothing moves and no event is raised
    let mut entities = vec![
        entity(1, 2, 4, true, false, true),
        entity(2, 1, 4, true, false, false),
        entity(3, 0, 4, true, false, false),
    ];
    let mut input = InputQueue::new();
    input.keys_pressed.push(Direction::Left);
    let mut events = EventQueue::new();
    let mut gameplay = Gameplay::new();
    let system = InputSystem {};
    system.run(10, 10, &mut input, &mut events, &mut gameplay, &mut entities);
    assert_eq!(pos_of(&entities, 1), (2, 4));
    assert_eq!(pos_of(&entities, 2), (1, 4));
    assert_eq!(pos_of(&entities, 3), (0, 4));
    assert_eq!(events.events.len(), 0);
    assert_eq!(gameplay.moves_count, 0);
}

#[test]
fn resolver_reports_obstruction() {
    let entities = vec![
        entity(1, 0, 0, true, false, true),
        entity(9, 1, 0, false, true, false),
    ];
    let mov = SpatialIndex::build(&entities, true);
    let immov = SpatialIndex::build(&entities, false);
    let r = resolve_move(8, 9, 0, 0, Direction::Right, &mov, &immov);
    assert!(matches!(r, Resolution::Obstructed));
}

#[test]
fn resolver_reports_edge() {
    let entities = vec![entity(1, 0, 3, true, false, true)];
    let mov = SpatialIndex::build(&entities, true);
    let immov = SpatialIndex::build(&entities, false);
    let r = resolve_move(8, 9, 0, 3, Direction::Left, &mov, &immov);
    assert!(matches!(r, Resolution::AtEdge));
}

#[test]
fn spatial_index_last_write_wins() {
    // two movables on one cell: the later entity is indexed
    let entities = vec![
        entity(1, 2, 2, true, false, false),
        entity(2, 2, 2, true, false, false),
        entity(3, 4, 4, false, true, false),
    ];
    let mov = SpatialIndex::build(&entities, true);
    let immov = SpatialIndex::build(&entities, false);
    assert_eq!(mov.get(2, 2), Some(2));
    assert_eq!(mov.get(4, 4), None);
    assert_eq!(immov.get(4, 4), Some(3));
    assert_eq!(immov.get(2, 2), None);
}

#[test]
fn apply_move_skips_missing_entity() {
    // a stale handle in the chain is a no-op skip, not an error
    let mut entities = vec![entity(1, 3, 3, true, false, true)];
    let chain = vec![1u64, 42u64];
    apply_move(&mut entities, &chain, Direction::Down);
    assert_eq!(pos_of(&entities, 1), (3, 4));
    assert_eq!(entities.len(), 1);
}

#[test]
fn non_movable_player_makes_empty_chain() {
    // the player's own cell resolves as empty when the player is not movable:
    // the chain is empty, so nothing moves and the counter stays put
    let mut entities = vec![entity(1, 4, 4, false, false, true)];
    let mut input = InputQueue::new();
    input.keys_pressed.push(Direction::Right);
    let mut events = EventQueue::new();
    let mut gameplay = Gameplay::new();
    let system = InputSystem {};
    system.run(10, 10, &mut input, &mut events, &mut gameplay, &mut entities);
    assert_eq!(pos_of(&entities, 1), (4, 4));
    assert_eq!(events.events.len(), 0);
    assert_eq!(gameplay.moves_count, 0);
}
