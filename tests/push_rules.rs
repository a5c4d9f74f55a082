use sokoban::components::{BoxColour, EntityKind, Position, World};
use sokoban::events::{EntityMoved, EventChannel, MoveEvent};
use sokoban::map::load_map;
use sokoban::movement::{get_direction, push, Direction, KeyState, MovementSystem};
use sokoban::sokoban::{Gameplay, GameplayState};

fn world_of(map: &str) -> World {
    let mut w = World::new();
    load_map(&mut w, map).unwrap();
    w
}

fn player_id(w: &World) -> usize {
    w.entities
        .iter()
        .position(|e| matches!(e.kind, EntityKind::Player(_)))
        .unwrap()
}

fn box_ids(w: &World) -> Vec<usize> {
    (0..w.entities.len())
        .filter(|&i| matches!(w.entities[i].kind, EntityKind::Box(_)))
        .collect()
}

fn xy(w: &World, id: usize) -> (u8, u8) {
    (w.entities[id].position.x, w.entities[id].position.y)
}

fn positions(w: &World) -> Vec<Position> {
    w.entities.iter().map(|e| e.position).collect()
}

fn right() -> KeyState {
    KeyState { up: false, down: false, right: true, left: false }
}

#[test]
fn push_moves_player_and_box_onto_spot() {
    let mut w = world_of("W W W W W\nW P RB RS W\nW W W W W");
    let p = player_id(&w);
    let b = box_ids(&w)[0];
    assert_eq!(xy(&w, p), (1, 1));
    assert_eq!(xy(&w, b), (2, 1));
    let mut gameplay = Gameplay::default();
    let mut channel = EventChannel::new();
    let mut movement = MovementSystem::new();
    movement.run(right(), &mut w, &mut gameplay, &mut channel);
    assert_eq!(xy(&w, p), (2, 1));
    assert_eq!(xy(&w, b), (3, 1));
    assert_eq!(gameplay.moves_count, 1);
    assert_eq!(
        channel.events,
        vec![
            MoveEvent::EntityMoved(EntityMoved { id: p }),
            MoveEvent::EntityMoved(EntityMoved { id: b }),
        ]
    );
}

#[test]
fn box_against_wall_aborts_whole_chain() {
    let mut w = world_of("W W W W\nW P RB W\nW W W W");
    let before = positions(&w);
    let mut gameplay = Gameplay::default();
    let mut channel = EventChannel::new();
    push(&mut w, &mut gameplay, Direction::Right, &mut channel);
    assert_eq!(positions(&w), before);
    assert_eq!(gameplay.moves_count, 0);
    assert_eq!(channel.events, vec![MoveEvent::PlayerHitObstacle]);
}

#[test]
fn push_into_wall_changes_nothing() {
    let mut w = world_of("W W W\nW P W\nW W W");
    let before = positions(&w);
    let mut gameplay = Gameplay::default();
    let mut channel = EventChannel::new();
    for d in [Direction::Up, Direction::Down, Direction::Right, Direction::Left] {
        push(&mut w, &mut gameplay, d, &mut channel);
    }
    assert_eq!(positions(&w), before);
    assert_eq!(gameplay.moves_count, 0);
    assert_eq!(channel.events, vec![MoveEvent::PlayerHitObstacle; 4]);
}

#[test]
fn free_step_moves_only_the_player() {
    let mut w = world_of("W W W W\nW P . W\nW W W W");
    let p = player_id(&w);
    let before = positions(&w);
    let mut gameplay = Gameplay::default();
    let mut channel = EventChannel::new();
    push(&mut w, &mut gameplay, Direction::Right, &mut channel);
    for (i, pos) in positions(&w).iter().enumerate() {
        if i == p {
            assert_eq!((pos.x, pos.y, pos.z), (2, 1, 0));
        } else {
            assert_eq!(*pos, before[i]);
        }
    }
    assert_eq!(gameplay.moves_count, 1);
    assert_eq!(channel.events, vec![MoveEvent::EntityMoved(EntityMoved { id: p })]);
}

#[test]
fn chain_of_two_boxes_moves_as_one() {
    let mut w = world_of("W W W W W W\nW P RB BB . W\nW W W W W W");
    let p = player_id(&w);
    let bs = box_ids(&w);
    let mut gameplay = Gameplay::default();
    let mut channel = EventChannel::new();
    push(&mut w, &mut gameplay, Direction::Right, &mut channel);
    assert_eq!(xy(&w, p), (2, 1));
    assert_eq!(xy(&w, bs[0]), (3, 1));
    assert_eq!(xy(&w, bs[1]), (4, 1));
    assert_eq!(gameplay.moves_count, 1);
    assert_eq!(channel.events.len(), 3);
    assert_eq!(channel.events[0], MoveEvent::EntityMoved(EntityMoved { id: p }));
}

#[test]
fn vertical_pushes_move_along_y() {
    // the last line of the text is row 0, so Up raises y
    let mut w = world_of("W W W\nW . W\nW RB W\nW P W\nW W W");
    let p = player_id(&w);
    let b = box_ids(&w)[0];
    let mut gameplay = Gameplay::default();
    let mut channel = EventChannel::new();
    push(&mut w, &mut gameplay, Direction::Up, &mut channel);
    assert_eq!(xy(&w, p), (1, 2));
    assert_eq!(xy(&w, b), (1, 3));
    push(&mut w, &mut gameplay, Direction::Down, &mut channel);
    assert_eq!(xy(&w, p), (1, 1));
    assert_eq!(xy(&w, b), (1, 3));
    assert_eq!(gameplay.moves_count, 2);
}

#[test]
fn map_edge_blocks_like_a_wall() {
    // past the last column and row lies the edge of the map
    let mut w = world_of(". P");
    assert_eq!((w.bounds.width, w.bounds.height), (2, 1));
    let p = player_id(&w);
    let mut gameplay = Gameplay::default();
    let mut channel = EventChannel::new();
    for d in [Direction::Right, Direction::Up, Direction::Down] {
        push(&mut w, &mut gameplay, d, &mut channel);
        assert_eq!(xy(&w, p), (1, 0));
    }
    assert_eq!(gameplay.moves_count, 0);
    assert_eq!(channel.events, vec![MoveEvent::PlayerHitObstacle; 3]);
    push(&mut w, &mut gameplay, Direction::Left, &mut channel);
    assert_eq!(xy(&w, p), (0, 0));
    push(&mut w, &mut gameplay, Direction::Left, &mut channel);
    assert_eq!(xy(&w, p), (0, 0));
    assert_eq!(gameplay.moves_count, 1);
}

#[test]
fn player_on_last_column_cannot_leave_the_map() {
    let mut w = World::new();
    sokoban::entities::create_player(&mut w, Position { x: 7, y: 0, z: 0 });
    let mut gameplay = Gameplay::default();
    let mut channel = EventChannel::new();
    push(&mut w, &mut gameplay, Direction::Right, &mut channel);
    assert_eq!(xy(&w, 0), (7, 0));
    assert_eq!(gameplay.moves_count, 0);
    assert_eq!(channel.events, vec![MoveEvent::PlayerHitObstacle]);
}

#[test]
fn scan_bound_comes_from_the_loaded_map() {
    let mut w = world_of(". . . . . . . . . P . .\n. . . . . . . . . . . .");
    assert_eq!((w.bounds.width, w.bounds.height), (12, 2));
    let p = player_id(&w);
    assert_eq!(xy(&w, p), (9, 1));
    let mut gameplay = Gameplay::default();
    let mut channel = EventChannel::new();
    push(&mut w, &mut gameplay, Direction::Right, &mut channel);
    push(&mut w, &mut gameplay, Direction::Right, &mut channel);
    assert_eq!(xy(&w, p), (11, 1));
    push(&mut w, &mut gameplay, Direction::Right, &mut channel);
    assert_eq!(xy(&w, p), (11, 1));
    push(&mut w, &mut gameplay, Direction::Up, &mut channel);
    assert_eq!(xy(&w, p), (11, 1));
    push(&mut w, &mut gameplay, Direction::Down, &mut channel);
    assert_eq!(xy(&w, p), (11, 0));
    assert_eq!(gameplay.moves_count, 3);
}

#[test]
fn an_empty_world_uses_the_starting_level_size() {
    let w = World::new();
    assert_eq!((w.bounds.width, w.bounds.height), (8, 9));
}

#[test]
fn no_player_means_no_move() {
    let mut w = world_of("W . RB .");
    let before = positions(&w);
    let mut gameplay = Gameplay::default();
    let mut channel = EventChannel::new();
    push(&mut w, &mut gameplay, Direction::Right, &mut channel);
    assert_eq!(positions(&w), before);
    assert_eq!(gameplay.moves_count, 0);
    assert!(channel.events.is_empty());
}

#[test]
fn moves_count_counts_only_pushes_that_move() {
    let mut w = world_of("W W W W W\nW P . . W\nW W W W W");
    let mut gameplay = Gameplay::default();
    let mut channel = EventChannel::new();
    push(&mut w, &mut gameplay, Direction::Right, &mut channel);
    assert_eq!(gameplay.moves_count, 1);
    push(&mut w, &mut gameplay, Direction::Up, &mut channel);
    assert_eq!(gameplay.moves_count, 1);
    push(&mut w, &mut gameplay, Direction::Right, &mut channel);
    assert_eq!(gameplay.moves_count, 2);
    push(&mut w, &mut gameplay, Direction::Right, &mut channel);
    assert_eq!(gameplay.moves_count, 2);
    push(&mut w, &mut gameplay, Direction::Left, &mut channel);
    assert_eq!(gameplay.moves_count, 3);
    assert_eq!(gameplay.state, GameplayState::Playing);
}

#[test]
fn held_key_pushes_once() {
    let mut w = world_of("W W W W W W\nW P . . . W\nW W W W W W");
    let p = player_id(&w);
    let mut gameplay = Gameplay::default();
    let mut channel = EventChannel::new();
    let mut movement = MovementSystem::new();
    movement.run(right(), &mut w, &mut gameplay, &mut channel);
    movement.run(right(), &mut w, &mut gameplay, &mut channel);
    assert_eq!(xy(&w, p), (2, 1));
    movement.run(KeyState::released(), &mut w, &mut gameplay, &mut channel);
    movement.run(right(), &mut w, &mut gameplay, &mut channel);
    assert_eq!(xy(&w, p), (3, 1));
    assert_eq!(gameplay.moves_count, 2);
}

#[test]
fn direction_comes_from_fresh_presses() {
    let none = KeyState::released();
    let up = KeyState { up: true, down: false, right: false, left: false };
    let all = KeyState { up: true, down: true, right: true, left: true };
    assert_eq!(get_direction(none, up), Some(Direction::Up));
    assert_eq!(get_direction(up, up), None);
    assert_eq!(get_direction(up, all), Some(Direction::Down));
    assert_eq!(get_direction(none, all), Some(Direction::Up));
    assert_eq!(get_direction(all, none), None);
    let left = KeyState { up: false, down: false, right: false, left: true };
    assert_eq!(get_direction(none, left), Some(Direction::Left));
    assert_eq!(get_direction(none, right()), Some(Direction::Right));
}

#[test]
fn box_colour_survives_a_push() {
    let mut w = world_of("W P BB . W");
    let b = box_ids(&w)[0];
    let mut gameplay = Gameplay::default();
    let mut channel = EventChannel::new();
    push(&mut w, &mut gameplay, Direction::Right, &mut channel);
    assert_eq!(xy(&w, b), (3, 0));
    match w.entities[b].kind {
        EntityKind::Box(bx) => assert_eq!(bx.colour, BoxColour::Blue),
        _ => panic!("not a box"),
    }
}

#[test]
fn pushes_never_stack_movables() {
    let mut w = World::new();
    sokoban::sokoban::initialise_level(&mut w).unwrap();
    let mut gameplay = Gameplay::default();
    let mut channel = EventChannel::new();
    let seq = [
        Direction::Right, Direction::Up, Direction::Up, Direction::Right, Direction::Right,
        Direction::Down, Direction::Left, Direction::Left, Direction::Up, Direction::Right,
        Direction::Right, Direction::Right, Direction::Down, Direction::Down, Direction::Down,
        Direction::Left, Direction::Left, Direction::Left, Direction::Left, Direction::Up,
    ];
    for d in seq {
        push(&mut w, &mut gameplay, d, &mut channel);
        let mut tiles: Vec<(u8, u8)> = w
            .entities
            .iter()
            .filter(|e| e.movable.is_some())
            .map(|e| (e.position.x, e.position.y))
            .collect();
        let n = tiles.len();
        tiles.sort();
        tiles.dedup();
        assert_eq!(tiles.len(), n);
        assert!(w.entities.iter().all(|e| e.position.x < 8 && e.position.y < 9));
    }
    assert!(gameplay.moves_count > 0);
}

#[test]
fn long_chain_against_wall_is_blocked() {
    let mut w = world_of("W W W W W W\nW P RB BB W W\nW W W W W W");
    let before = positions(&w);
    let mut gameplay = Gameplay::default();
    let mut channel = EventChannel::new();
    push(&mut w, &mut gameplay, Direction::Right, &mut channel);
    assert_eq!(positions(&w), before);
    assert_eq!(gameplay.moves_count, 0);
    assert_eq!(channel.events, vec![MoveEvent::PlayerHitObstacle]);
}

#[test]
fn chain_that_fills_the_scan_is_blocked_by_the_edge() {
    let mut w = world_of("P RB .");
    let p = player_id(&w);
    let b = box_ids(&w)[0];
    let mut gameplay = Gameplay::default();
    let mut channel = EventChannel::new();
    push(&mut w, &mut gameplay, Direction::Right, &mut channel);
    assert_eq!((xy(&w, p), xy(&w, b)), ((1, 0), (2, 0)));
    let before = positions(&w);
    push(&mut w, &mut gameplay, Direction::Right, &mut channel);
    assert_eq!(positions(&w), before);
    assert_eq!(gameplay.moves_count, 1);
    assert_eq!(channel.events.last(), Some(&MoveEvent::PlayerHitObstacle));
}
