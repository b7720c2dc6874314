use snek::apple::Apple;
use snek::game::{Game, GameState, InputEvent};
use snek::helpers::{frame_wait, timer_due};
use snek::snek::{Direction, Snek};

fn gs(width: u32, height: u32, box_size: u32) -> GameState {
    GameState { window_width: width, window_height: height, box_size, snek_tick_speed_ms: 50 }
}

#[test]
fn initial_state_centered_snake() {
    let g = Game::new(1200, 800, 15);
    let sneks = g.sneks();
    assert_eq!(sneks.len(), 1);
    let s = &sneks[0];
    assert_eq!(s.segments().len(), 3);
    for seg in s.segments() {
        assert_eq!(*seg, (600, 405));
    }
    assert_eq!(s.direction(), Direction::Up);
    assert_eq!(s.target_len(), 3);
    assert_eq!(g.apples().len(), 1);
    let a = g.apples()[0];
    assert!(!a.eaten);
    assert_eq!(a.x % 15, 0);
    assert_eq!(a.y % 15, 0);
    assert!(a.x < 1200);
    assert!(a.y < 800);
    assert_eq!(g.score(), 0);
}

#[test]
fn single_consumption_grows_and_scores() {
    let s = Snek::load(Direction::Up, vec![(300, 300), (300, 300), (300, 300)], 3, 50);
    let a = Apple { x: 300, y: 300, eaten: false };
    let mut g = Game::load(1200, 800, 15, 50, vec![s], vec![a]);
    g.tick();
    assert_eq!(g.sneks()[0].target_len(), 4);
    assert_eq!(g.sneks()[0].segments().len(), 4);
    assert_eq!(g.score(), 1);
    let a2 = g.apples()[0];
    assert!(!a2.eaten);
    assert_eq!(a2.x % 15, 0);
    assert_eq!(a2.y % 15, 0);
    assert!(a2.x < 1200 && a2.y < 800);
}

#[test]
fn edge_wrap_left_lands_on_last_column() {
    let mut s = Snek::load(Direction::Left, vec![(0, 300)], 3, 50);
    s.tick(&gs(1200, 800, 15));
    assert_eq!(s.position(), (1185, 300));
}

#[test]
fn edge_wrap_all_four_edges() {
    // 15 does not divide 800: the last row is the partially visible one at
    // 795, the largest multiple of 15 below 800
    let state = gs(1200, 800, 15);
    let mut s = Snek::load(Direction::Up, vec![(600, 0)], 3, 50);
    s.tick(&state);
    assert_eq!(s.position(), (600, 795));
    let mut s = Snek::load(Direction::Down, vec![(600, 795)], 3, 50);
    s.tick(&state);
    assert_eq!(s.position(), (600, 0));
    let mut s = Snek::load(Direction::Right, vec![(1185, 300)], 3, 50);
    s.tick(&state);
    assert_eq!(s.position(), (0, 300));
}

#[test]
fn partial_last_row_is_still_playfield() {
    // moving down from 780 on an 800-pixel axis continues to 795; only from
    // 795 does it wrap to 0
    let state = gs(1200, 800, 15);
    let mut s = Snek::load(Direction::Down, vec![(600, 780)], 3, 50);
    s.tick(&state);
    assert_eq!(s.position(), (600, 795));
    // same on a width the cell size does not divide
    let state = gs(805, 800, 15);
    let mut s = Snek::load(Direction::Left, vec![(0, 300)], 3, 50);
    s.tick(&state);
    assert_eq!(s.position(), (795, 300));
    let mut s = Snek::load(Direction::Right, vec![(780, 300)], 3, 50);
    s.tick(&state);
    assert_eq!(s.position(), (795, 300));
    let mut s = Snek::load(Direction::Right, vec![(795, 300)], 3, 50);
    s.tick(&state);
    assert_eq!(s.position(), (0, 300));
}

#[test]
fn wraparound_moves_are_invertible() {
    let state = gs(1200, 800, 15);
    // walk a snake somewhere, then retrace with the opposite moves
    let path = [Direction::Up, Direction::Up, Direction::Left, Direction::Down];
    let opposite = [Direction::Up, Direction::Right, Direction::Down, Direction::Down];
    let mut s = Snek::load(Direction::Up, vec![(0, 0)], 3, 50);
    for d in path {
        s.process_event(&InputEvent::DirectionChanged(d));
        s.tick(&state);
    }
    for d in opposite {
        s.process_event(&InputEvent::DirectionChanged(d));
        s.tick(&state);
    }
    assert_eq!(s.position(), (0, 0));
}

#[test]
fn growth_bound_over_many_ticks() {
    let state = gs(1200, 800, 15);
    let mut s = Snek::load(Direction::Up, vec![(600, 405), (600, 405), (600, 405)], 3, 50);
    // no growth: the body stays at the target length of three
    for t in 0..10u32 {
        s.tick(&state);
        assert_eq!(s.segments().len() as u32, 3.min(t + 1 + 3));
        assert!(s.segments().len() as u32 <= s.target_len());
    }
    // raise the target by one per tick: the body grows by one per tick
    for _ in 0..5u32 {
        s.grow_by(1);
        let before = s.segments().len();
        s.tick(&state);
        assert_eq!(s.segments().len(), before + 1);
        assert!(s.segments().len() as u32 <= s.target_len());
    }
}

#[test]
fn direction_change_takes_effect_on_next_tick_only() {
    let state = gs(1200, 800, 15);
    let mut s = Snek::load(Direction::Up, vec![(600, 405), (600, 405), (600, 405)], 3, 50);
    s.tick(&state);
    assert_eq!(s.position(), (600, 390));
    let before = s.segments().clone();
    s.process_event(&InputEvent::DirectionChanged(Direction::Left));
    // the change alone moves nothing
    assert_eq!(*s.segments(), before);
    // the next tick moves in the new direction
    s.tick(&state);
    assert_eq!(s.position(), (585, 390));
}

#[test]
fn pause_toggle_freezes_the_simulation() {
    let mut g = Game::new(1200, 800, 15);
    assert!(g.is_running());
    g.process_event(&InputEvent::PauseToggle);
    assert!(!g.is_running());
    let before = g.sneks()[0].segments().clone();
    g.tick();
    assert_eq!(*g.sneks()[0].segments(), before);
    g.process_event(&InputEvent::PauseToggle);
    assert!(g.is_running());
    g.tick();
    assert_ne!(*g.sneks()[0].segments(), before);
}

#[test]
fn apples_are_unmarked_after_every_tick() {
    let s = Snek::load(Direction::Up, vec![(300, 300), (300, 300), (300, 300)], 3, 50);
    let apples = vec![
        Apple { x: 300, y: 300, eaten: false },
        Apple { x: 600, y: 300, eaten: false },
    ];
    let mut g = Game::load(1200, 800, 15, 50, vec![s], apples);
    for _ in 0..5 {
        g.tick();
        for a in g.apples() {
            assert!(!a.eaten);
        }
    }
}

#[test]
fn first_listed_snake_wins_a_tied_apple() {
    let s1 = Snek::load(Direction::Up, vec![(300, 300)], 3, 50);
    let s2 = Snek::load(Direction::Up, vec![(300, 300)], 3, 50);
    let a = Apple { x: 300, y: 300, eaten: false };
    let mut g = Game::load(1200, 800, 15, 50, vec![s1, s2], vec![a]);
    g.tick();
    assert_eq!(g.sneks()[0].target_len(), 4);
    assert_eq!(g.sneks()[1].target_len(), 3);
}

#[test]
fn random_spawn_on_single_cell_grid_is_the_origin() {
    // with a one-cell grid the only possible spawn cell is (0, 0)
    let a = Apple::new(15, 15, 15);
    assert_eq!((a.x, a.y, a.eaten), (0, 0, false));
    let mut b = Apple { x: 0, y: 0, eaten: true };
    b.tick(&gs(15, 15, 15));
    assert_eq!((b.x, b.y, b.eaten), (0, 0, false));
}

#[test]
fn uneaten_apple_keeps_its_cell() {
    let mut a = Apple { x: 345, y: 120, eaten: false };
    a.tick(&gs(1200, 800, 15));
    assert_eq!((a.x, a.y, a.eaten), (345, 120, false));
}

#[test]
fn frame_wait_returns_remaining_budget() {
    assert_eq!(frame_wait(0), 16);
    assert_eq!(frame_wait(10), 6);
    assert_eq!(frame_wait(16), 0);
    assert_eq!(frame_wait(1000), 0);
}

#[test]
fn timer_due_is_strict() {
    assert!(!timer_due(50, 50));
    assert!(timer_due(51, 50));
    assert!(!timer_due(0, 50));
}
