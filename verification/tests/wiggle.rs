use snek::game::GameState;
use snek::snek::{Direction, Snek};

fn gs() -> GameState {
    GameState { window_width: 1200, window_height: 800, box_size: 15, snek_tick_speed_ms: 50 }
}

#[test]
fn offsets_match_segment_count_for_any_length() {
    for n in 1..8usize {
        let positions: Vec<(u32, u32)> = (0..n).map(|i| (600, 405 - 15 * i as u32)).collect();
        let mut s = Snek::load(Direction::Up, positions, 8, 50);
        s.tick_animations();
        assert_eq!(s.offsets().len(), n);
    }
}

#[test]
fn offsets_track_growth_between_ticks() {
    let mut s = Snek::load(Direction::Up, vec![(600, 405), (600, 405), (600, 405)], 3, 50);
    s.tick_animations();
    assert_eq!(s.offsets().len(), 3);
    s.grow_by(1);
    s.tick(&gs());
    s.tick_animations();
    assert_eq!(s.offsets().len(), 4);
}

#[test]
fn vertical_run_wobbles_horizontally() {
    // all segments share an x coordinate, so every non-head segment gets a
    // horizontal offset from the displacement table; the head never wiggles
    let mut s = Snek::load(Direction::Up, vec![(600, 405), (600, 405), (600, 405)], 3, 50);
    s.tick_animations();
    assert_eq!(*s.offsets(), vec![(1, 0), (1, 0), (0, 0)]);
}

#[test]
fn horizontal_run_wobbles_vertically() {
    let mut s = Snek::load(Direction::Right, vec![(300, 300), (315, 300), (330, 300)], 3, 50);
    s.tick_animations();
    assert_eq!(*s.offsets(), vec![(0, 1), (0, 1), (0, 0)]);
}

#[test]
fn corner_segments_do_not_wiggle() {
    let mut s = Snek::load(Direction::Right, vec![(300, 300), (300, 315), (315, 315)], 3, 50);
    s.tick_animations();
    assert_eq!(*s.offsets(), vec![(0, 0), (0, 0), (0, 0)]);
}

#[test]
fn phase_wraps_and_amplitude_goes_negative() {
    // after five animation ticks the phase accumulator stands at 20 of 36;
    // the tail's displacement phase is 23, in the negative half of the table
    let mut s = Snek::load(Direction::Up, vec![(600, 405), (600, 405), (600, 405)], 3, 50);
    for _ in 0..5 {
        s.tick_animations();
    }
    assert_eq!(*s.offsets(), vec![(-2, 0), (-2, 0), (0, 0)]);
}

#[test]
fn two_segment_snake_uses_the_short_tail_test() {
    let mut s = Snek::load(Direction::Up, vec![(600, 405), (600, 390)], 3, 50);
    s.tick_animations();
    assert_eq!(s.offsets().len(), 2);
    // the two cells share an x, so the tail wobbles horizontally
    assert_eq!(s.offsets()[0], (1, 0));
    assert_eq!(s.offsets()[1], (0, 0));
}
