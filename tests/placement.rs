use sokoban::components::{BoxColour, EntityKind, Position, World};
use sokoban::entities::{create_box, create_box_spot, create_floor, create_player, create_wall};
use sokoban::events::{BoxPlacedOnSpot, EntityMoved, EventChannel, MoveEvent};
use sokoban::gameplay_state::{detect_win, GameplayStateSystem};
use sokoban::map::load_map;
use sokoban::movement::{KeyState, MovementSystem};
use sokoban::sokoban::{Gameplay, GameplayState};
use sokoban::sound::{box_placement, find_spot, SoundCue, SoundSystem};

fn world_of(map: &str) -> World {
    let mut w = World::new();
    load_map(&mut w, map).unwrap();
    w
}

fn right() -> KeyState {
    KeyState { up: false, down: false, right: true, left: false }
}

fn pos(x: u8, y: u8) -> Position {
    Position { x, y, z: 0 }
}

/// Plays one push to the right on `map`, then lets the listeners and the win check run.
fn push_right_and_listen(map: &str) -> (Vec<SoundCue>, Vec<MoveEvent>, GameplayState) {
    let mut w = world_of(map);
    let mut gameplay = Gameplay::default();
    let mut channel = EventChannel::new();
    let mut sound = SoundSystem::setup(&channel);
    let mut movement = MovementSystem::new();
    let mut win = GameplayStateSystem {};
    movement.run(right(), &mut w, &mut gameplay, &mut channel);
    let mut cues = sound.run(&mut channel, &w);
    cues.extend(sound.run(&mut channel, &w));
    win.run(&mut gameplay, &w);
    (cues, channel.events.clone(), gameplay.state)
}

#[test]
fn matching_box_on_spot_wins_with_correct_cue() {
    let (cues, events, state) = push_right_and_listen("W W W W W\nW P RB RS W\nW W W W W");
    assert_eq!(events.len(), 3);
    assert_eq!(
        events[2],
        MoveEvent::BoxPlacedOnSpot(BoxPlacedOnSpot { is_correct_spot: true })
    );
    assert_eq!(cues, vec![SoundCue::Correct]);
    assert_eq!(state, GameplayState::Won);
}

#[test]
fn mismatched_box_on_spot_still_wins() {
    let (cues, events, state) = push_right_and_listen("W W W W W\nW P RB BS W\nW W W W W");
    assert_eq!(
        events[2],
        MoveEvent::BoxPlacedOnSpot(BoxPlacedOnSpot { is_correct_spot: false })
    );
    assert_eq!(cues, vec![SoundCue::Incorrect]);
    assert_eq!(state, GameplayState::Won);
}

#[test]
fn blocked_push_asks_for_wall_sound() {
    let (cues, events, state) = push_right_and_listen("W W W W\nW P RB W\nW W W W");
    assert_eq!(events, vec![MoveEvent::PlayerHitObstacle]);
    assert_eq!(cues, vec![SoundCue::Wall]);
    assert_eq!(state, GameplayState::Won);
}

#[test]
fn box_next_to_spot_is_no_placement() {
    let (cues, events, _) = push_right_and_listen("W P RB . RS W");
    assert_eq!(events.len(), 2);
    assert!(cues.is_empty());
}

#[test]
fn win_needs_every_spot_covered_whatever_the_colour() {
    let mut w = World::new();
    create_box_spot(&mut w, pos(1, 1), BoxColour::Red);
    create_box_spot(&mut w, pos(2, 1), BoxColour::Blue);
    assert_eq!(detect_win(&w), GameplayState::Playing);
    create_box(&mut w, pos(1, 1), BoxColour::Blue);
    assert_eq!(detect_win(&w), GameplayState::Playing);
    create_box(&mut w, pos(2, 1), BoxColour::Red);
    assert_eq!(detect_win(&w), GameplayState::Won);
    // the z layer does not matter
    create_box_spot(&mut w, Position { x: 3, y: 1, z: 9 }, BoxColour::Red);
    create_box(&mut w, Position { x: 3, y: 1, z: 2 }, BoxColour::Red);
    assert_eq!(detect_win(&w), GameplayState::Won);
    // a box elsewhere in the same column does not cover a spot
    create_box_spot(&mut w, pos(4, 1), BoxColour::Red);
    create_box(&mut w, pos(4, 2), BoxColour::Red);
    assert_eq!(detect_win(&w), GameplayState::Playing);
}

#[test]
fn world_without_spots_is_won() {
    let mut w = World::new();
    create_floor(&mut w, pos(0, 0));
    create_player(&mut w, pos(0, 0));
    create_wall(&mut w, pos(1, 0));
    assert_eq!(detect_win(&w), GameplayState::Won);
}

#[test]
fn win_check_keeps_the_move_count() {
    let mut w = World::new();
    create_box_spot(&mut w, pos(0, 0), BoxColour::Red);
    let mut gameplay = Gameplay { state: GameplayState::Won, moves_count: 7 };
    GameplayStateSystem {}.run(&mut gameplay, &w);
    assert_eq!(gameplay.state, GameplayState::Playing);
    assert_eq!(gameplay.moves_count, 7);
}

#[test]
fn placement_compares_colours() {
    let mut w = World::new();
    create_box_spot(&mut w, pos(1, 0), BoxColour::Red);
    create_box(&mut w, pos(1, 0), BoxColour::Red);
    create_box(&mut w, pos(2, 0), BoxColour::Red);
    create_box_spot(&mut w, pos(3, 0), BoxColour::Blue);
    create_box(&mut w, pos(3, 0), BoxColour::Red);
    create_player(&mut w, pos(1, 0));
    assert_eq!(box_placement(&w, 1), Some(BoxPlacedOnSpot { is_correct_spot: true }));
    assert_eq!(box_placement(&w, 2), None);
    assert_eq!(box_placement(&w, 4), Some(BoxPlacedOnSpot { is_correct_spot: false }));
    // the player on a spot is no placement, nor is an id past the end
    assert_eq!(box_placement(&w, 5), None);
    assert_eq!(box_placement(&w, 0), None);
    assert_eq!(box_placement(&w, 99), None);
    assert_eq!(find_spot(&w, pos(3, 0)), Some(BoxColour::Blue));
    assert_eq!(find_spot(&w, pos(2, 0)), None);
}

#[test]
fn sound_listener_reads_each_event_once() {
    let mut w = World::new();
    create_box_spot(&mut w, pos(1, 0), BoxColour::Blue);
    create_box(&mut w, pos(1, 0), BoxColour::Blue);
    let mut channel = EventChannel::new();
    let mut sound = SoundSystem::setup(&channel);
    channel.single_write(MoveEvent::PlayerHitObstacle);
    channel.single_write(MoveEvent::EntityMoved(EntityMoved { id: 1 }));
    channel.single_write(MoveEvent::EntityMoved(EntityMoved { id: 0 }));
    let cues = sound.run(&mut channel, &w);
    assert_eq!(cues, vec![SoundCue::Wall]);
    assert_eq!(channel.events.len(), 4);
    assert_eq!(sound.move_reader.cursor, 3);
    let cues = sound.run(&mut channel, &w);
    assert_eq!(cues, vec![SoundCue::Correct]);
    let cues = sound.run(&mut channel, &w);
    assert!(cues.is_empty());
    assert_eq!(channel.events.len(), 4);
}

#[test]
fn kinds_are_kept_by_constructors() {
    let mut w = World::new();
    create_wall(&mut w, pos(0, 0));
    create_player(&mut w, pos(1, 0));
    assert!(matches!(w.entities[0].kind, EntityKind::Wall(_)));
    assert!(w.entities[0].immovable.is_some() && w.entities[0].movable.is_none());
    assert!(w.entities[1].movable.is_some() && w.entities[1].immovable.is_none());
    assert_eq!(w.len(), 2);
    assert_eq!(w.get(1).unwrap().position, pos(1, 0));
    assert!(w.get(2).is_none());
}

#[test]
fn whole_tick_plays_placement_and_decides_the_win() {
    let mut w = world_of("W W W W W\nW P RB RS W\nW W W W W");
    let mut gameplay = Gameplay::default();
    let mut channel = EventChannel::new();
    let mut sound = SoundSystem::setup(&channel);
    let mut movement = MovementSystem::new();
    let mut win = GameplayStateSystem {};
    let cues = sokoban::sokoban::run_tick(
        &mut movement, &mut sound, &mut win, right(), &mut w, &mut gameplay, &mut channel,
    );
    assert_eq!(cues, vec![SoundCue::Correct]);
    assert_eq!(gameplay.state, GameplayState::Won);
    assert_eq!(gameplay.moves_count, 1);
    assert!(channel.events.is_empty());
    assert_eq!(sound.move_reader.cursor, 0);
    // the key is still held: nothing moves, nothing sounds
    let cues = sokoban::sokoban::run_tick(
        &mut movement, &mut sound, &mut win, right(), &mut w, &mut gameplay, &mut channel,
    );
    assert!(cues.is_empty());
    assert_eq!(gameplay.moves_count, 1);
}

#[test]
fn whole_tick_against_a_wall_plays_the_wall_sound() {
    let mut w = world_of("W W W W\nW P RB W\nW W W W");
    let mut gameplay = Gameplay::default();
    let mut channel = EventChannel::new();
    let mut sound = SoundSystem::setup(&channel);
    let mut movement = MovementSystem::new();
    let mut win = GameplayStateSystem {};
    let cues = sokoban::sokoban::run_tick(
        &mut movement, &mut sound, &mut win, right(), &mut w, &mut gameplay, &mut channel,
    );
    assert_eq!(cues, vec![SoundCue::Wall]);
    assert_eq!(gameplay.moves_count, 0);
}
