use snek::apple::Apple;
use snek::file::{decode_game_data, encode_game_data, GameData, SnekData};
use snek::game::Game;
use snek::snek::{Direction, Snek};

fn sample_data() -> GameData {
    GameData {
        snek_tick_speed_ms: 50,
        sneks: vec![
            SnekData {
                direction: Direction::Left,
                positions: vec![(0, 300), (15, 300), (30, 300)],
                len: 5,
                tick_speed_ms: 50,
            },
            SnekData {
                direction: Direction::Down,
                positions: vec![(600, 405)],
                len: 3,
                tick_speed_ms: 75,
            },
        ],
        apples: vec![
            Apple { x: 345, y: 120, eaten: false },
            Apple { x: 0, y: 0, eaten: true },
        ],
    }
}

#[test]
fn snapshot_round_trip_is_exact() {
    let bytes = encode_game_data(&sample_data());
    let back = decode_game_data(&bytes).expect("a fresh encoding must decode");
    let orig = sample_data();
    assert_eq!(back.snek_tick_speed_ms, orig.snek_tick_speed_ms);
    assert_eq!(back.sneks.len(), orig.sneks.len());
    for (b, o) in back.sneks.iter().zip(orig.sneks.iter()) {
        assert!(b.direction == o.direction);
        assert_eq!(b.positions, o.positions);
        assert_eq!(b.len, o.len);
        assert_eq!(b.tick_speed_ms, o.tick_speed_ms);
    }
    assert_eq!(back.apples, orig.apples);
}

#[test]
fn empty_rosters_encode_to_sixteen_bytes() {
    let d = GameData { snek_tick_speed_ms: 50, sneks: vec![], apples: vec![] };
    let bytes = encode_game_data(&d);
    assert_eq!(
        bytes,
        vec![0, 0, 0, 0, 0, 0, 0, 50, 0, 0, 0, 0, 0, 0, 0, 0]
    );
    let back = decode_game_data(&bytes).unwrap();
    assert_eq!(back.snek_tick_speed_ms, 50);
    assert!(back.sneks.is_empty());
    assert!(back.apples.is_empty());
}

#[test]
fn truncated_or_padded_bytes_are_rejected() {
    assert!(decode_game_data(&vec![]).is_none());
    let mut bytes = encode_game_data(&sample_data());
    bytes.pop();
    assert!(decode_game_data(&bytes).is_none());
    let mut bytes = encode_game_data(&sample_data());
    bytes.push(0);
    assert!(decode_game_data(&bytes).is_none());
}

#[test]
fn unknown_direction_byte_is_rejected() {
    let mut bytes = encode_game_data(&sample_data());
    // the first direction byte sits right after the tick interval and the
    // snake count
    assert_eq!(bytes[12], 3);
    bytes[12] = 9;
    assert!(decode_game_data(&bytes).is_none());
}

#[test]
fn live_game_survives_a_save_and_load() {
    let s = Snek::load(Direction::Right, vec![(300, 300), (315, 300)], 4, 50);
    let a = Apple { x: 600, y: 405, eaten: false };
    let mut g = Game::load(1200, 800, 15, 50, vec![s], vec![a]);
    g.tick();
    let bytes = encode_game_data(&g.to_data());
    let data = decode_game_data(&bytes).unwrap();
    let g2 = Game::from_data(1200, 800, 15, data).expect("a saved game must load");
    assert!(g2.sneks()[0].direction() == g.sneks()[0].direction());
    assert_eq!(g2.sneks()[0].segments(), g.sneks()[0].segments());
    assert_eq!(g2.sneks()[0].target_len(), g.sneks()[0].target_len());
    assert_eq!(g2.sneks()[0].tick_speed(), g.sneks()[0].tick_speed());
    assert_eq!(g2.apples(), g.apples());
    assert_eq!(g2.game_state().snek_tick_speed_ms, g.game_state().snek_tick_speed_ms);
}

#[test]
fn corrupt_records_do_not_load() {
    // target length below three
    let d = GameData {
        snek_tick_speed_ms: 50,
        sneks: vec![SnekData {
            direction: Direction::Up,
            positions: vec![(0, 0)],
            len: 2,
            tick_speed_ms: 50,
        }],
        apples: vec![],
    };
    assert!(Game::from_data(1200, 800, 15, d).is_none());
    // a segment off the grid
    let d = GameData {
        snek_tick_speed_ms: 50,
        sneks: vec![SnekData {
            direction: Direction::Up,
            positions: vec![(7, 0)],
            len: 3,
            tick_speed_ms: 50,
        }],
        apples: vec![],
    };
    assert!(Game::from_data(1200, 800, 15, d).is_none());
    // an apple off the grid
    let d = GameData {
        snek_tick_speed_ms: 50,
        sneks: vec![],
        apples: vec![Apple { x: 1200, y: 0, eaten: false }],
    };
    assert!(Game::from_data(1200, 800, 15, d).is_none());
    // an empty body
    let d = GameData {
        snek_tick_speed_ms: 50,
        sneks: vec![SnekData {
            direction: Direction::Up,
            positions: vec![],
            len: 3,
            tick_speed_ms: 50,
        }],
        apples: vec![],
    };
    assert!(Game::from_data(1200, 800, 15, d).is_none());
}
