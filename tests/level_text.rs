use sokoban::components::{BoxColour, EntityKind, Position, World};
use sokoban::events::{EventChannel, MoveEvent, ReaderId};
use sokoban::map::{load_map, MapError};
use sokoban::sokoban::{initialise_level, Gameplay, GameplayState};

fn kinds(w: &World) -> Vec<(EntityKind, u8, u8)> {
    w.entities.iter().map(|e| (e.kind, e.position.x, e.position.y)).collect()
}

#[test]
fn tokens_place_their_entities() {
    let mut w = World::new();
    assert_eq!(load_map(&mut w, "P .\nW N"), Ok(()));
    let floor = EntityKind::Floor;
    let got = kinds(&w);
    assert_eq!(got.len(), 5);
    // the last line is row 0
    assert_eq!(got[0], (floor, 0, 0));
    assert!(matches!(got[1], (EntityKind::Wall(_), 0, 0)));
    assert_eq!(got[2], (floor, 0, 1));
    assert!(matches!(got[3], (EntityKind::Player(_), 0, 1)));
    assert_eq!(got[4], (floor, 1, 1));
    assert_eq!(w.entities[3].position, Position { x: 0, y: 1, z: 0 });
}

#[test]
fn box_and_spot_tokens_carry_colours() {
    let mut w = World::new();
    assert_eq!(load_map(&mut w, "RB BB RS BS"), Ok(()));
    assert_eq!(w.entities.len(), 8);
    match (w.entities[1].kind, w.entities[3].kind, w.entities[5].kind, w.entities[7].kind) {
        (EntityKind::Box(a), EntityKind::Box(b), EntityKind::BoxSpot(c), EntityKind::BoxSpot(d)) => {
            assert_eq!(a.colour, BoxColour::Red);
            assert_eq!(b.colour, BoxColour::Blue);
            assert_eq!(c.colour, BoxColour::Red);
            assert_eq!(d.colour, BoxColour::Blue);
        }
        _ => panic!("wrong kinds"),
    }
    assert_eq!(w.entities[7].position.x, 3);
}

#[test]
fn blanks_around_the_map_and_rows_are_dropped() {
    let mut w = World::new();
    assert_eq!(load_map(&mut w, "\n   P .  \n\t W .\r\n  "), Ok(()));
    let got = kinds(&w);
    assert_eq!(got.len(), 6);
    assert!(matches!(got[1], (EntityKind::Wall(_), 0, 0)));
    assert!(matches!(got[4], (EntityKind::Player(_), 0, 1)));
}

#[test]
fn unknown_token_is_refused_and_nothing_is_added() {
    let mut w = World::new();
    assert_eq!(load_map(&mut w, "P ."), Ok(()));
    let before = w.entities.len();
    assert_eq!(load_map(&mut w, "W W\nW X"), Err(MapError::UnrecognizedToken));
    assert_eq!(w.entities.len(), before);
    assert_eq!(load_map(&mut w, "W  W"), Err(MapError::UnrecognizedToken));
    assert_eq!(load_map(&mut w, "w"), Err(MapError::UnrecognizedToken));
    assert_eq!(load_map(&mut w, "RBB"), Err(MapError::UnrecognizedToken));
    assert_eq!(w.entities.len(), before);
}

#[test]
fn empty_map_is_refused() {
    let mut w = World::new();
    assert_eq!(load_map(&mut w, "   \n "), Err(MapError::UnrecognizedToken));
    assert!(w.entities.is_empty());
}

#[test]
fn oversized_maps_are_refused() {
    let mut w = World::new();
    let wide = vec!["."; 257].join(" ");
    assert_eq!(load_map(&mut w, &wide), Err(MapError::TooLarge));
    let widest = vec!["."; 256].join(" ");
    assert_eq!(load_map(&mut w, &widest), Ok(()));
    assert_eq!(w.entities[255].position.x, 255);
    let mut w = World::new();
    let tall = vec!["N"; 257].join("\n");
    assert_eq!(load_map(&mut w, &tall), Err(MapError::TooLarge));
    let tallest = vec!["N"; 256].join("\n");
    assert_eq!(load_map(&mut w, &tallest), Ok(()));
    assert!(w.entities.is_empty());
}

#[test]
fn starting_level_loads() {
    let mut w = World::new();
    assert_eq!(initialise_level(&mut w), Ok(()));
    let players = w.entities.iter().filter(|e| matches!(e.kind, EntityKind::Player(_))).count();
    let boxes = w.entities.iter().filter(|e| matches!(e.kind, EntityKind::Box(_))).count();
    let spots = w.entities.iter().filter(|e| matches!(e.kind, EntityKind::BoxSpot(_))).count();
    assert_eq!((players, boxes, spots), (1, 2, 2));
    let p = w.entities.iter().find(|e| matches!(e.kind, EntityKind::Player(_))).unwrap();
    assert_eq!((p.position.x, p.position.y), (2, 4));
}

#[test]
fn gameplay_starts_playing_at_zero() {
    let g = Gameplay::default();
    assert_eq!(g.state, GameplayState::Playing);
    assert_eq!(g.moves_count, 0);
    assert_eq!(GameplayState::default(), GameplayState::Playing);
    assert_eq!(GameplayState::Playing.as_text(), "Playing");
    assert_eq!(GameplayState::Won.as_text(), "Won");
}

#[test]
fn every_reader_sees_every_event_once() {
    let mut channel = EventChannel::new();
    channel.single_write(MoveEvent::PlayerHitObstacle);
    let mut late = channel.register_reader();
    let mut early = ReaderId { cursor: 0 };
    channel.iter_write(vec![MoveEvent::PlayerHitObstacle, MoveEvent::PlayerHitObstacle]);
    assert_eq!(channel.read(&mut early).len(), 3);
    assert_eq!(channel.read(&mut late).len(), 2);
    assert!(channel.read(&mut early).is_empty());
    let mut readers = vec![early, late];
    channel.clear(&mut readers);
    assert!(channel.events.is_empty());
    assert!(readers.iter().all(|r| r.cursor == 0));
    let mut stale = ReaderId { cursor: 10 };
    assert!(channel.read(&mut stale).is_empty());
    assert_eq!(stale.cursor, 0);
}

#[test]
fn unicode_white_space_around_map_and_rows_is_dropped() {
    let mut w = World::new();
    assert_eq!(load_map(&mut w, "W\u{A0}"), Ok(()));
    let got = kinds(&w);
    assert_eq!(got.len(), 2);
    assert_eq!(got[0], (EntityKind::Floor, 0, 0));
    assert!(matches!(got[1], (EntityKind::Wall(_), 0, 0)));
    let mut w = World::new();
    let text = "\u{3000}\u{85} P .\u{2028}\u{200A}\n\u{1680}\u{2000}W .\u{202F}\u{205F}\u{2029}\u{A0}";
    assert_eq!(load_map(&mut w, text), Ok(()));
    let got = kinds(&w);
    assert_eq!(got.len(), 6);
    assert!(matches!(got[1], (EntityKind::Wall(_), 0, 0)));
    assert!(matches!(got[4], (EntityKind::Player(_), 0, 1)));
}

#[test]
fn white_space_inside_a_row_is_no_separator() {
    let mut w = World::new();
    assert_eq!(load_map(&mut w, "W\u{A0}W"), Err(MapError::UnrecognizedToken));
    assert_eq!(load_map(&mut w, "W\tW"), Err(MapError::UnrecognizedToken));
    // a character that is not white space stays part of its token
    assert_eq!(load_map(&mut w, "W\u{200B}"), Err(MapError::UnrecognizedToken));
    assert!(w.entities.is_empty());
}

#[test]
fn starting_level_meets_the_data_model() {
    let mut w = World::new();
    initialise_level(&mut w).unwrap();
    assert_eq!((w.bounds.width, w.bounds.height), (8, 9));
    let mut movable_tiles = Vec::new();
    let mut spot_tiles = Vec::new();
    for e in &w.entities {
        let tile = (e.position.x, e.position.y);
        match e.kind {
            EntityKind::Player(_) | EntityKind::Box(_) => assert!(e.movable.is_some()),
            EntityKind::BoxSpot(_) => {
                assert!(e.movable.is_none());
                spot_tiles.push(tile);
            }
            _ => {}
        }
        if e.movable.is_some() {
            assert!((tile.0 as u16) < w.bounds.width && (tile.1 as u16) < w.bounds.height);
            movable_tiles.push(tile);
        }
    }
    for tiles in [&mut movable_tiles, &mut spot_tiles] {
        let n = tiles.len();
        tiles.sort();
        tiles.dedup();
        assert_eq!(tiles.len(), n);
    }
}
