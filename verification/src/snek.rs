use vstd::prelude::*;
use vstd::arithmetic::div_mod::{
    lemma_div_by_self, lemma_div_is_ordered, lemma_div_multiples_vanish,
    lemma_fundamental_div_mod,
};
use vstd::arithmetic::mul::{
    lemma_mul_inequality, lemma_mul_is_commutative,
    lemma_mul_is_distributive_add_other_way, lemma_mul_nonnegative,
};
use crate::game::{grid_wf, GameState, InputEvent};

verus! {

/// One of the four cardinal movement directions. There is no diagonal and no
/// "stopped" state: a snake always moves in its current direction.
#[derive(Clone, Copy, PartialEq, Eq, Structural, Debug)]
pub enum Direction {
    Up,
    Down,
    Right,
    Left,
}

impl Direction {
    /// The direction that undoes one step in this direction.
    pub open spec fn spec_opposite(self) -> Direction {
        match self {
            Direction::Up => Direction::Down,
            Direction::Down => Direction::Up,
            Direction::Right => Direction::Left,
            Direction::Left => Direction::Right,
        }
    }
}

// ---------------------------------------------------------------------------
// Toroidal grid arithmetic, one axis at a time.
//
// A position along an axis is a pixel offset that must sit exactly on a grid
// cell: a multiple of the cell size `b` that is strictly below `size`. The
// last row or column may be only partially visible when `b` does not divide
// `size`; it is still part of the playfield. Stepping off either end of the
// axis wraps to the opposite end, so the last reachable offset is the
// largest multiple of `b` below `size` — never `size` itself.
// ---------------------------------------------------------------------------

/// `v` sits exactly on a grid cell of the axis: a multiple of `b` strictly
/// below `size`.
pub open spec fn axis_wf(size: u32, b: u32, v: u32) -> bool {
    let q = v as int / b as int;
    v == q * b && v < size
}

/// The pixel offset of the last cell on the axis: the largest multiple of
/// `b` strictly below `size`.
pub open spec fn axis_last(size: u32, b: u32) -> int {
    ((size - 1) as int / b as int) * b as int
}

/// One step toward the far edge, wrapping to zero past the last cell.
pub open spec fn axis_fwd(size: u32, b: u32, v: u32) -> u32 {
    if v == axis_last(size, b) {
        0u32
    } else {
        (v + b) as u32
    }
}

/// One step toward the near edge, wrapping to the last cell below zero.
pub open spec fn axis_back(size: u32, b: u32, v: u32) -> u32 {
    if v == 0 {
        axis_last(size, b) as u32
    } else {
        (v - b) as u32
    }
}

/// Basic facts about the last cell of an axis: it exists, it lies strictly
/// below `size` but within one cell of it, and it is itself a well-formed
/// position.
pub proof fn lemma_axis_last(size: u32, b: u32)
    requires
        0 < b <= size,
    ensures
        1 <= size as int / b as int,
        0 <= axis_last(size, b),
        axis_last(size, b) < size,
        size <= axis_last(size, b) + b,
        axis_wf(size, b, axis_last(size, b) as u32),
{
    let m = (size - 1) as int / b as int;
    lemma_div_by_self(b as int);
    lemma_div_is_ordered(b as int, size as int, b as int);
    vstd::arithmetic::div_mod::lemma_div_pos_is_pos((size - 1) as int, b as int);
    lemma_fundamental_div_mod((size - 1) as int, b as int);
    lemma_mul_is_commutative(m, b as int);
    // size - 1 == m * b + r with 0 <= r < b pins the last cell within one
    // cell of the edge
    assert(0 <= axis_last(size, b) && axis_last(size, b) < size && size <= axis_last(size, b)
        + b);
    lemma_div_multiples_vanish(m, b as int);
    assert((b as int * m) / b as int == m);
}

/// Scaling a cell index below the cell count gives a well-formed axis
/// position, with room to spare inside the window.
pub proof fn lemma_axis_from_index(size: u32, b: u32, q: u32)
    requires
        0 < b <= size,
        (q as int) < size as int / b as int,
    ensures
        q as int * b as int + b <= size,
        axis_wf(size, b, (q * b) as u32),
{
    let n = size as int / b as int;
    lemma_axis_last(size, b);
    lemma_mul_inequality(q as int, n - 1, b as int);
    lemma_mul_is_distributive_add_other_way(b as int, n - 1, 1);
    lemma_fundamental_div_mod(size as int, b as int);
    lemma_mul_is_commutative(n, b as int);
    assert(n * b as int <= size);
    assert(q as int * b as int + b <= size);
    lemma_div_multiples_vanish(q as int, b as int);
    lemma_mul_is_commutative(q as int, b as int);
    assert((q as int * b as int) / b as int == q as int);
}

/// A well-formed position never exceeds the last cell, and a nonzero one is
/// at least one whole cell from the near edge.
proof fn lemma_axis_bounds(size: u32, b: u32, v: u32)
    requires
        0 < b <= size,
        axis_wf(size, b, v),
    ensures
        v <= axis_last(size, b),
        v != 0 ==> b <= v,
{
    let m = (size - 1) as int / b as int;
    let q = v as int / b as int;
    lemma_axis_last(size, b);
    lemma_div_is_ordered(v as int, (size - 1) as int, b as int);
    assert(q <= m);
    lemma_mul_inequality(q, m, b as int);
    if v != 0 {
        if q <= 0 {
            lemma_mul_inequality(q, 0, b as int);
            assert(false);
        }
        lemma_mul_inequality(1, q, b as int);
    }
}

/// Stepping forward keeps a position well-formed, and the arithmetic stays
/// within `u32`.
proof fn lemma_axis_fwd_wf(size: u32, b: u32, v: u32)
    requires
        0 < b <= size,
        axis_wf(size, b, v),
    ensures
        axis_wf(size, b, axis_fwd(size, b, v)),
        v != axis_last(size, b) ==> v + b <= size && axis_fwd(size, b, v) == v + b,
{
    let m = (size - 1) as int / b as int;
    let q = v as int / b as int;
    lemma_axis_last(size, b);
    lemma_axis_bounds(size, b, v);
    if v == axis_last(size, b) {
        vstd::arithmetic::div_mod::lemma_div_of0(b as int);
        assert(axis_wf(size, b, 0u32));
    } else {
        // v is a multiple below the last cell, so its cell index is below m
        lemma_div_is_ordered(v as int, (size - 1) as int, b as int);
        if q == m {
            assert(v == axis_last(size, b));
            assert(false);
        }
        assert(q < m);
        lemma_mul_inequality(q + 1, m, b as int);
        lemma_mul_is_distributive_add_other_way(b as int, q, 1);
        assert((q + 1) * b as int == v + b);
        lemma_div_multiples_vanish(q + 1, b as int);
        lemma_mul_is_commutative(q + 1, b as int);
        assert((v + b) as int / b as int == q + 1);
        assert(v + b <= axis_last(size, b));
    }
}

/// Stepping backward keeps a position well-formed, and the arithmetic stays
/// within `u32`.
proof fn lemma_axis_back_wf(size: u32, b: u32, v: u32)
    requires
        0 < b <= size,
        axis_wf(size, b, v),
    ensures
        axis_wf(size, b, axis_back(size, b, v)),
        v != 0 ==> b <= v && axis_back(size, b, v) == v - b,
{
    let q = v as int / b as int;
    lemma_axis_last(size, b);
    lemma_axis_bounds(size, b, v);
    if v != 0 {
        if q <= 0 {
            lemma_mul_inequality(q, 0, b as int);
            assert(false);
        }
        assert(1 <= q);
        lemma_mul_is_distributive_add_other_way(b as int, q - 1, 1);
        assert((q - 1) * b as int == v - b);
        lemma_div_multiples_vanish(q - 1, b as int);
        lemma_mul_is_commutative(q - 1, b as int);
        assert((v - b) as int / b as int == q - 1);
    }
}

/// Forward then backward returns to the starting position.
proof fn lemma_axis_fwd_back(size: u32, b: u32, v: u32)
    requires
        0 < b <= size,
        axis_wf(size, b, v),
    ensures
        axis_back(size, b, axis_fwd(size, b, v)) == v,
{
    lemma_axis_last(size, b);
    lemma_axis_bounds(size, b, v);
    lemma_axis_fwd_wf(size, b, v);
}

/// Backward then forward returns to the starting position.
proof fn lemma_axis_back_fwd(size: u32, b: u32, v: u32)
    requires
        0 < b <= size,
        axis_wf(size, b, v),
    ensures
        axis_fwd(size, b, axis_back(size, b, v)) == v,
{
    lemma_axis_last(size, b);
    lemma_axis_bounds(size, b, v);
    lemma_axis_back_wf(size, b, v);
    if v != 0 {
        // v - b is strictly below the last cell, so no wrap happens
        assert(v - b < axis_last(size, b));
    }
}

// ---------------------------------------------------------------------------
// Cells: a pair of axis positions.
// ---------------------------------------------------------------------------

/// A well-formed grid cell under the given simulation parameters.
pub open spec fn cell_wf(gs: GameState, c: (u32, u32)) -> bool {
    axis_wf(gs.window_width, gs.box_size, c.0) && axis_wf(gs.window_height, gs.box_size, c.1)
}

/// One movement step on the torus: advance one cell in the given direction,
/// wrapping off an edge to the opposite edge.
pub open spec fn step_cell(gs: GameState, c: (u32, u32), d: Direction) -> (u32, u32) {
    match d {
        Direction::Up => (c.0, axis_back(gs.window_height, gs.box_size, c.1)),
        Direction::Down => (c.0, axis_fwd(gs.window_height, gs.box_size, c.1)),
        Direction::Left => (axis_back(gs.window_width, gs.box_size, c.0), c.1),
        Direction::Right => (axis_fwd(gs.window_width, gs.box_size, c.0), c.1),
    }
}

/// Exec check that a cell is well-formed on the grid.
pub fn cell_ok(gs: &GameState, c: (u32, u32)) -> (r: bool)
    requires
        grid_wf(*gs),
    ensures
        r == cell_wf(*gs, c),
{
    let b = gs.box_size;
    proof {
        lemma_fundamental_div_mod(c.0 as int, b as int);
        lemma_fundamental_div_mod(c.1 as int, b as int);
        lemma_mul_is_commutative(c.0 as int / b as int, b as int);
        lemma_mul_is_commutative(c.1 as int / b as int, b as int);
    }
    (c.0 / b) * b == c.0 && c.0 < gs.window_width && (c.1 / b) * b == c.1 && c.1
        < gs.window_height
}

/// A step from a well-formed cell lands on a well-formed cell.
pub proof fn lemma_step_cell_wf(gs: GameState, c: (u32, u32), d: Direction)
    requires
        grid_wf(gs),
        cell_wf(gs, c),
    ensures
        cell_wf(gs, step_cell(gs, c, d)),
{
    match d {
        Direction::Up => lemma_axis_back_wf(gs.window_height, gs.box_size, c.1),
        Direction::Down => lemma_axis_fwd_wf(gs.window_height, gs.box_size, c.1),
        Direction::Left => lemma_axis_back_wf(gs.window_width, gs.box_size, c.0),
        Direction::Right => lemma_axis_fwd_wf(gs.window_width, gs.box_size, c.0),
    }
}

/// One step and then one step in the opposite direction return to the
/// starting cell.
pub proof fn lemma_step_cell_opposite(gs: GameState, c: (u32, u32), d: Direction)
    requires
        grid_wf(gs),
        cell_wf(gs, c),
    ensures
        step_cell(gs, step_cell(gs, c, d), d.spec_opposite()) == c,
{
    match d {
        Direction::Up => lemma_axis_back_fwd(gs.window_height, gs.box_size, c.1),
        Direction::Down => lemma_axis_fwd_back(gs.window_height, gs.box_size, c.1),
        Direction::Left => lemma_axis_back_fwd(gs.window_width, gs.box_size, c.0),
        Direction::Right => lemma_axis_fwd_back(gs.window_width, gs.box_size, c.0),
    }
}

/// The cell reached by following a whole sequence of direction steps.
pub open spec fn follow(gs: GameState, c: (u32, u32), dirs: Seq<Direction>) -> (u32, u32)
    decreases dirs.len(),
{
    if dirs.len() == 0 {
        c
    } else {
        follow(gs, step_cell(gs, c, dirs.first()), dirs.drop_first())
    }
}

/// The sequence of moves that retraces a path backwards: the opposite of each
/// direction, in reverse order.
pub open spec fn opposite_path(dirs: Seq<Direction>) -> Seq<Direction>
    decreases dirs.len(),
{
    if dirs.len() == 0 {
        Seq::empty()
    } else {
        opposite_path(dirs.drop_first()).push(dirs.first().spec_opposite())
    }
}

/// Following any path from a well-formed cell ends on a well-formed cell.
pub proof fn lemma_follow_wf(gs: GameState, c: (u32, u32), dirs: Seq<Direction>)
    requires
        grid_wf(gs),
        cell_wf(gs, c),
    ensures
        cell_wf(gs, follow(gs, c, dirs)),
    decreases dirs.len(),
{
    if dirs.len() > 0 {
        lemma_step_cell_wf(gs, c, dirs.first());
        lemma_follow_wf(gs, step_cell(gs, c, dirs.first()), dirs.drop_first());
    }
}

/// Following a concatenation of two paths is following one, then the other.
pub proof fn lemma_follow_append(gs: GameState, c: (u32, u32), p: Seq<Direction>, q: Seq<Direction>)
    ensures
        follow(gs, c, p + q) == follow(gs, follow(gs, c, p), q),
    decreases p.len(),
{
    if p.len() == 0 {
        assert(p + q =~= q);
    } else {
        assert((p + q).first() == p.first());
        assert((p + q).drop_first() =~= p.drop_first() + q);
        lemma_follow_append(gs, step_cell(gs, c, p.first()), p.drop_first(), q);
    }
}

/// Wraparound closure: movement is invertible on the torus. Following any
/// sequence of moves and then retracing it with the opposite moves in reverse
/// order returns to the starting cell.
pub proof fn lemma_wraparound_closure(gs: GameState, c: (u32, u32), dirs: Seq<Direction>)
    requires
        grid_wf(gs),
        cell_wf(gs, c),
    ensures
        follow(gs, follow(gs, c, dirs), opposite_path(dirs)) == c,
    decreases dirs.len(),
{
    if dirs.len() > 0 {
        let d = dirs.first();
        let rest = dirs.drop_first();
        let c1 = step_cell(gs, c, d);
        lemma_step_cell_wf(gs, c, d);
        lemma_wraparound_closure(gs, c1, rest);
        assert(opposite_path(dirs) =~= opposite_path(rest) + seq![d.spec_opposite()]);
        lemma_follow_append(gs, follow(gs, c1, rest), opposite_path(rest), seq![d.spec_opposite()]);
        let s = seq![d.spec_opposite()];
        let c2 = step_cell(gs, c1, d.spec_opposite());
        assert(s.first() == d.spec_opposite());
        assert(s.drop_first().len() == 0);
        assert(follow(gs, c2, s.drop_first()) == c2);
        assert(follow(gs, c1, s) == c2);
        lemma_step_cell_opposite(gs, c, d);
    }
}

// ---------------------------------------------------------------------------
// The grid-centered starting cell.
// ---------------------------------------------------------------------------

/// The multiple of `b` nearest to the midpoint of the axis, clamped to the
/// last whole cell.
pub open spec fn axis_center(size: u32, b: u32) -> u32 {
    let near = (size as int / 2 + b as int / 2) / b as int;
    if near * b < size {
        (near * b) as u32
    } else {
        axis_last(size, b) as u32
    }
}

/// The centered cell is well-formed, and its arithmetic stays within `u32`.
proof fn lemma_axis_center_wf(size: u32, b: u32)
    requires
        0 < b <= size,
    ensures
        axis_wf(size, b, axis_center(size, b)),
        axis_center(size, b) <= axis_last(size, b),
{
    let near = (size as int / 2 + b as int / 2) / b as int;
    lemma_axis_last(size, b);
    if near * b < size {
        vstd::arithmetic::div_mod::lemma_div_pos_is_pos(size as int / 2 + b as int / 2, b as int);
        assert(0 <= near);
        lemma_mul_nonnegative(near, b as int);
        lemma_div_multiples_vanish(near, b as int);
        lemma_mul_is_commutative(near, b as int);
        assert(axis_wf(size, b, (near * b as int) as u32));
        lemma_axis_bounds(size, b, (near * b as int) as u32);
    }
}

/// The starting cell of a new snake: the grid cell nearest the window center.
pub open spec fn center_cell(window_width: u32, window_height: u32, box_size: u32) -> (u32, u32) {
    (axis_center(window_width, box_size), axis_center(window_height, box_size))
}

/// Exec computation of `axis_center`.
fn axis_center_exec(size: u32, b: u32) -> (r: u32)
    requires
        0 < b <= size,
    ensures
        r == axis_center(size, b),
        axis_wf(size, b, r),
{
    proof {
        lemma_axis_last(size, b);
        lemma_axis_center_wf(size, b);
    }
    let near = (size / 2 + b / 2) / b;
    proof {
        // the product stays below the midpoint sum, so it fits in u32
        lemma_fundamental_div_mod((size / 2 + b / 2) as int, b as int);
        lemma_mul_is_commutative(near as int, b as int);
    }
    let nb = near * b;
    if nb < size {
        nb
    } else {
        ((size - 1) / b) * b
    }
}

// ---------------------------------------------------------------------------
// The wiggle animation.
//
// Purely cosmetic. A phase accumulator advances by one ninth of a turn per
// animation tick; walking from tail to head, each segment's phase is a
// further twelfth of a turn along. The displacement is twice the sine of the
// phase, rounded down. Counting in 36ths of a turn makes every phase a whole
// number of 36ths (a ninth is 4 of them, a twelfth is 3), so the whole
// animation is integer arithmetic over a fixed 36-entry table.
// ---------------------------------------------------------------------------

/// Twice the sine of `k` 36ths of a turn, rounded down (the wiggle
/// displacement in pixels, amplitude two).
pub open spec fn wiggle_amp(k: int) -> int {
    let j = k % 36;
    if j <= 2 {
        0
    } else if j <= 8 {
        1
    } else if j == 9 {
        2
    } else if j <= 15 {
        1
    } else if j <= 18 {
        0
    } else if j <= 21 {
        -1
    } else if j <= 32 {
        -2
    } else {
        -1
    }
}

/// The phase accumulator after one animation tick: a ninth of a turn on,
/// wrapped to a whole turn.
pub open spec fn next_phase(p: u8) -> u8 {
    ((p as int + 4) % 36) as u8
}

/// The cosmetic offset of segment `i`. The head never wiggles; any other
/// segment wobbles perpendicular to its local body axis: horizontally inside
/// a vertical run, vertically inside a horizontal run, and not at all at a
/// corner. The run test inspects the three segments around `i`, or the two
/// reachable ones at the tail of a two-segment snake.
pub open spec fn seg_offset(segs: Seq<(u32, u32)>, phase: int, i: int) -> (i16, i16) {
    let n = segs.len() as int;
    let a = wiggle_amp(phase + 3 * (i + 1)) as i16;
    if i == n - 1 {
        (0i16, 0i16)
    } else if i == 0 {
        if n >= 3 {
            if segs[0].0 == segs[1].0 && segs[1].0 == segs[2].0 {
                (a, 0i16)
            } else if segs[0].1 == segs[1].1 && segs[1].1 == segs[2].1 {
                (0i16, a)
            } else {
                (0i16, 0i16)
            }
        } else {
            if segs[0].0 == segs[1].0 {
                (a, 0i16)
            } else if segs[0].1 == segs[1].1 {
                (0i16, a)
            } else {
                (0i16, 0i16)
            }
        }
    } else {
        if segs[i - 1].0 == segs[i].0 && segs[i].0 == segs[i + 1].0 {
            (a, 0i16)
        } else if segs[i - 1].1 == segs[i].1 && segs[i].1 == segs[i + 1].1 {
            (0i16, a)
        } else {
            (0i16, 0i16)
        }
    }
}

/// One cosmetic offset per segment, for the given phase.
pub open spec fn wiggle_offsets(segs: Seq<(u32, u32)>, phase: int) -> Seq<(i16, i16)> {
    Seq::new(segs.len(), |i: int| seg_offset(segs, phase, i))
}

/// The wiggle displacement table as executable code.
fn amp_of(k: u8) -> (r: i16)
    requires
        k < 36,
    ensures
        r as int == wiggle_amp(k as int),
{
    if k <= 2 {
        0
    } else if k <= 8 {
        1
    } else if k == 9 {
        2
    } else if k <= 15 {
        1
    } else if k <= 18 {
        0
    } else if k <= 21 {
        -1
    } else if k <= 32 {
        -2
    } else {
        -1
    }
}

/// The cosmetic wiggle state of one snake: the phase accumulator, counted in
/// 36ths of a turn, and the offsets computed on the last animation tick.
struct SnekWiggleAnimation {
    offsets: Vec<(i16, i16)>,
    phase: u8,
}

impl SnekWiggleAnimation {
    /// Advance the phase and recompute one offset per segment, whatever the
    /// segment count is now.
    fn tick(&mut self, positions: &Vec<(u32, u32)>)
        requires
            old(self).phase < 36,
        ensures
            final(self).phase == next_phase(old(self).phase),
            final(self).phase < 36,
            final(self).offsets@ == wiggle_offsets(positions@, final(self).phase as int),
    {
        self.phase = (self.phase + 4) % 36;
        let ghost phase = self.phase as int;
        let n = positions.len();
        let mut offsets: Vec<(i16, i16)> = Vec::new();
        let mut k: u8 = self.phase;
        let mut i: usize = 0;
        while i < n
            invariant
                i <= n,
                n == positions@.len(),
                phase == self.phase as int,
                self.phase < 36,
                k < 36,
                i < n ==> k as int == (phase + 3 * i as int) % 36,
                offsets@.len() == i,
                forall|j: int| 0 <= j < i ==> offsets@[j] == seg_offset(positions@, phase, j),
            decreases n - i,
        {
            if i != n - 1 {
                proof {
                    vstd::arithmetic::div_mod::lemma_add_mod_noop(
                        phase + 3 * i as int,
                        3,
                        36,
                    );
                }
                k = (k + 3) % 36;
                assert(k as int == (phase + 3 * (i as int + 1)) % 36);
            }
            let a = amp_of(k);
            proof {
                vstd::arithmetic::div_mod::lemma_mod_twice(phase + 3 * (i as int + 1), 36);
            }
            let off: (i16, i16) = if i == n - 1 {
                (0, 0)
            } else if i == 0 {
                if n >= 3 {
                    if positions[0].0 == positions[1].0 && positions[1].0 == positions[2].0 {
                        (a, 0)
                    } else if positions[0].1 == positions[1].1 && positions[1].1 == positions[2].1 {
                        (0, a)
                    } else {
                        (0, 0)
                    }
                } else {
                    if positions[0].0 == positions[1].0 {
                        (a, 0)
                    } else if positions[0].1 == positions[1].1 {
                        (0, a)
                    } else {
                        (0, 0)
                    }
                }
            } else {
                if positions[i - 1].0 == positions[i].0 && positions[i].0 == positions[i + 1].0 {
                    (a, 0)
                } else if positions[i - 1].1 == positions[i].1 && positions[i].1 == positions[i + 1].1
                {
                    (0, a)
                } else {
                    (0, 0)
                }
            };
            assert(off == seg_offset(positions@, phase, i as int));
            offsets.push(off);
            i = i + 1;
        }
        assert(offsets@ =~= wiggle_offsets(positions@, phase));
        self.offsets = offsets;
    }
}

// ---------------------------------------------------------------------------
// The snake.
// ---------------------------------------------------------------------------

/// Spec-level image of a snake: its direction, its segment cells ordered
/// tail-first and head-last, the target length it is growing toward, its
/// movement tick interval, and its cosmetic animation state.
#[verifier::ext_equal]
pub ghost struct SnekView {
    pub direction: Direction,
    pub segments: Seq<(u32, u32)>,
    pub len: u32,
    pub tick_speed_ms: u64,
    pub phase: u8,
    pub offsets: Seq<(i16, i16)>,
}

/// A player-controlled snake. Movement is driven by `tick`, one fixed
/// simulation step per call; the caller decides when a tick is due.
pub struct Snek {
    direction: Direction,
    positions: Vec<(u32, u32)>,
    /// The length the snake is growing toward; raised by one per apple eaten.
    pub len: u32,
    tick_speed_ms: u64,
    animation: SnekWiggleAnimation,
}

impl View for Snek {
    type V = SnekView;

    closed spec fn view(&self) -> SnekView {
        SnekView {
            direction: self.direction,
            segments: self.positions@,
            len: self.len,
            tick_speed_ms: self.tick_speed_ms,
            phase: self.animation.phase,
            offsets: self.animation.offsets@,
        }
    }
}

/// Core well-formedness of a snake: a non-empty body of valid grid cells,
/// never longer than the target length, which starts at three and only grows.
pub open spec fn snek_wf(gs: GameState, s: SnekView) -> bool {
    &&& 1 <= s.segments.len()
    &&& s.segments.len() <= s.len
    &&& 3 <= s.len
    &&& forall|i: int| 0 <= i < s.segments.len() ==> cell_wf(gs, #[trigger] s.segments[i])
}

/// The animation state is in step with the body: one offset per segment, and
/// a phase inside a whole turn.
pub open spec fn anim_wf(s: SnekView) -> bool {
    s.offsets.len() == s.segments.len() && s.phase < 36
}

/// The state of a freshly spawned snake: three collocated segments on the
/// centered cell, heading up, with a resting animation.
pub open spec fn initial_snek(window_width: u32, window_height: u32, box_size: u32) -> SnekView {
    let c = center_cell(window_width, window_height, box_size);
    SnekView {
        direction: Direction::Up,
        segments: seq![c, c, c],
        len: 3,
        tick_speed_ms: 50,
        phase: 0,
        offsets: seq![(0i16, 0i16), (0i16, 0i16), (0i16, 0i16)],
    }
}

/// A freshly spawned snake is well-formed on its grid.
pub proof fn lemma_initial_snek_wf(gs: GameState)
    requires
        grid_wf(gs),
    ensures
        snek_wf(gs, initial_snek(gs.window_width, gs.window_height, gs.box_size)),
        anim_wf(initial_snek(gs.window_width, gs.window_height, gs.box_size)),
{
    lemma_axis_center_wf(gs.window_width, gs.box_size);
    lemma_axis_center_wf(gs.window_height, gs.box_size);
}

/// The body after one movement tick: the head advances one step in the
/// current direction; if that would leave the body longer than the target
/// length, the oldest (tail) segment is dropped.
pub open spec fn moved_segments(gs: GameState, s: SnekView) -> Seq<(u32, u32)> {
    let pushed = s.segments.push(step_cell(gs, s.segments.last(), s.direction));
    if pushed.len() > s.len {
        pushed.subrange(1, pushed.len() as int)
    } else {
        pushed
    }
}

/// The segment count after a further movement tick: one more, capped at the
/// target length.
pub open spec fn next_seg_count(count: nat, len: u32) -> nat {
    if count < len {
        count + 1
    } else {
        count
    }
}

/// The direction in force after an input event is applied to a snake.
pub open spec fn event_direction(d: Direction, event: InputEvent) -> Direction {
    match event {
        InputEvent::DirectionChanged(nd) => nd,
        InputEvent::PauseToggle => d,
    }
}

impl Snek {
    /// A new snake at the center of the window.
    pub fn new(window_width: u32, window_height: u32, box_size: u32) -> (r: Snek)
        requires
            0 < box_size <= window_width,
            box_size <= window_height,
        ensures
            r@ == initial_snek(window_width, window_height, box_size),
    {
        let x = axis_center_exec(window_width, box_size);
        let y = axis_center_exec(window_height, box_size);
        let positions: Vec<(u32, u32)> = vec![(x, y), (x, y), (x, y)];
        let offsets: Vec<(i16, i16)> = vec![(0, 0), (0, 0), (0, 0)];
        let r = Snek {
            direction: Direction::Up,
            positions,
            len: 3,
            tick_speed_ms: 50,
            animation: SnekWiggleAnimation { offsets, phase: 0 },
        };
        proof {
            assert(r@ =~= initial_snek(window_width, window_height, box_size));
        }
        r
    }

    /// Rebuild a snake from a persisted snapshot. The animation restarts at
    /// rest, with one zero offset per segment.
    pub fn load(direction: Direction, positions: Vec<(u32, u32)>, len: u32, tick_speed_ms: u64) -> (r: Snek)
        requires
            1 <= positions@.len() <= len,
            3 <= len,
        ensures
            r@.direction == direction,
            r@.segments == positions@,
            r@.len == len,
            r@.tick_speed_ms == tick_speed_ms,
            r@.phase == 0,
            r@.offsets == Seq::new(positions@.len(), |i: int| (0i16, 0i16)),
    {
        let n = positions.len();
        let mut offsets: Vec<(i16, i16)> = Vec::new();
        let mut i: usize = 0;
        while i < n
            invariant
                i <= n,
                offsets@.len() == i,
                forall|j: int| 0 <= j < i ==> offsets@[j] == (0i16, 0i16),
            decreases n - i,
        {
            offsets.push((0, 0));
            i = i + 1;
        }
        proof {
            assert(offsets@ =~= Seq::new(positions@.len(), |i: int| (0i16, 0i16)));
        }
        Snek { direction, positions, len, tick_speed_ms, animation: SnekWiggleAnimation { offsets, phase: 0 } }
    }

    /// The head cell: the last element of the segment sequence. Used by the
    /// orchestrator for apple-collision checks.
    pub fn position(&self) -> (r: (u32, u32))
        requires
            self@.segments.len() >= 1,
        ensures
            r == self@.segments.last(),
    {
        self.positions[self.positions.len() - 1]
    }

    /// React to a decoded input event: a direction change takes hold at once
    /// (it steers the next movement tick); anything else is ignored. The body
    /// does not move here.
    pub fn process_event(&mut self, event: &InputEvent)
        ensures
            final(self)@ == (SnekView {
                direction: event_direction(old(self)@.direction, *event),
                ..old(self)@
            }),
    {
        match event {
            InputEvent::DirectionChanged(d) => {
                self.direction = *d;
            },
            InputEvent::PauseToggle => {},
        }
    }

    /// The target length the snake is growing toward.
    pub fn target_len(&self) -> (r: u32)
        ensures
            r == self@.len,
    {
        self.len
    }

    /// Record consumed apples: raise the target length by one per apple. The
    /// body grows on the following movement ticks.
    pub fn grow_by(&mut self, n: u32)
        requires
            old(self)@.len + n <= u32::MAX,
        ensures
            final(self)@ == (SnekView { len: (old(self)@.len + n) as u32, ..old(self)@ }),
    {
        self.len = self.len + n;
    }

    fn move_up(&mut self, game_state: &GameState, prev_x: u32, prev_y: u32)
        requires
            grid_wf(*game_state),
            axis_wf(game_state.window_height, game_state.box_size, prev_y),
        ensures
            final(self)@ == (SnekView {
                segments: old(self)@.segments.push(
                    step_cell(*game_state, (prev_x, prev_y), Direction::Up),
                ),
                ..old(self)@
            }),
    {
        proof {
            lemma_axis_last(game_state.window_height, game_state.box_size);
            lemma_axis_back_wf(game_state.window_height, game_state.box_size, prev_y);
        }
        if prev_y != 0 {
            self.positions.push((prev_x, prev_y - game_state.box_size));
        } else {
            self.positions.push((
                prev_x,
                ((game_state.window_height - 1) / game_state.box_size) * game_state.box_size,
            ));
        }
    }

    fn move_down(&mut self, game_state: &GameState, prev_x: u32, prev_y: u32)
        requires
            grid_wf(*game_state),
            axis_wf(game_state.window_height, game_state.box_size, prev_y),
        ensures
            final(self)@ == (SnekView {
                segments: old(self)@.segments.push(
                    step_cell(*game_state, (prev_x, prev_y), Direction::Down),
                ),
                ..old(self)@
            }),
    {
        proof {
            lemma_axis_last(game_state.window_height, game_state.box_size);
            lemma_axis_bounds(game_state.window_height, game_state.box_size, prev_y);
            lemma_axis_fwd_wf(game_state.window_height, game_state.box_size, prev_y);
        }
        let last = ((game_state.window_height - 1) / game_state.box_size) * game_state.box_size;
        if prev_y != last {
            self.positions.push((prev_x, prev_y + game_state.box_size));
        } else {
            self.positions.push((prev_x, 0));
        }
    }

    fn move_left(&mut self, game_state: &GameState, prev_x: u32, prev_y: u32)
        requires
            grid_wf(*game_state),
            axis_wf(game_state.window_width, game_state.box_size, prev_x),
        ensures
            final(self)@ == (SnekView {
                segments: old(self)@.segments.push(
                    step_cell(*game_state, (prev_x, prev_y), Direction::Left),
                ),
                ..old(self)@
            }),
    {
        proof {
            lemma_axis_last(game_state.window_width, game_state.box_size);
            lemma_axis_back_wf(game_state.window_width, game_state.box_size, prev_x);
        }
        if prev_x != 0 {
            self.positions.push((prev_x - game_state.box_size, prev_y));
        } else {
            self.positions.push((
                ((game_state.window_width - 1) / game_state.box_size) * game_state.box_size,
                prev_y,
            ));
        }
    }

    fn move_right(&mut self, game_state: &GameState, prev_x: u32, prev_y: u32)
        requires
            grid_wf(*game_state),
            axis_wf(game_state.window_width, game_state.box_size, prev_x),
        ensures
            final(self)@ == (SnekView {
                segments: old(self)@.segments.push(
                    step_cell(*game_state, (prev_x, prev_y), Direction::Right),
                ),
                ..old(self)@
            }),
    {
        proof {
            lemma_axis_last(game_state.window_width, game_state.box_size);
            lemma_axis_bounds(game_state.window_width, game_state.box_size, prev_x);
            lemma_axis_fwd_wf(game_state.window_width, game_state.box_size, prev_x);
        }
        let last = ((game_state.window_width - 1) / game_state.box_size) * game_state.box_size;
        if prev_x != last {
            self.positions.push((prev_x + game_state.box_size, prev_y));
        } else {
            self.positions.push((0, prev_y));
        }
    }

    /// One movement tick: advance the head one cell in the current direction
    /// with toroidal wraparound, then drop the tail segment if the body now
    /// exceeds the target length. Growth by exactly one segment happens
    /// naturally on the tick after the target length was raised.
    pub fn tick(&mut self, game_state: &GameState)
        requires
            grid_wf(*game_state),
            snek_wf(*game_state, old(self)@),
        ensures
            final(self)@ == (SnekView {
                segments: moved_segments(*game_state, old(self)@),
                ..old(self)@
            }),
            final(self)@.segments.len() == next_seg_count(
                old(self)@.segments.len(),
                old(self)@.len,
            ),
            snek_wf(*game_state, final(self)@),
    {
        let ghost pre = self@;
        let n = self.positions.len();
        let head = self.positions[n - 1];
        proof {
            assert(cell_wf(*game_state, pre.segments.last()));
            lemma_step_cell_wf(*game_state, pre.segments.last(), pre.direction);
        }
        match self.direction {
            Direction::Up => self.move_up(game_state, head.0, head.1),
            Direction::Down => self.move_down(game_state, head.0, head.1),
            Direction::Left => self.move_left(game_state, head.0, head.1),
            Direction::Right => self.move_right(game_state, head.0, head.1),
        }
        let ghost pushed = pre.segments.push(step_cell(*game_state, pre.segments.last(), pre.direction));
        assert(self@.segments == pushed);
        if self.positions.len() > self.len as usize {
            let _ = self.positions.remove(0);
            proof {
                assert(self@.segments =~= pushed.subrange(1, pushed.len() as int));
            }
        }
        proof {
            assert(final(self)@ =~= (SnekView { segments: moved_segments(*game_state, pre), ..pre }));
            assert forall|i: int| 0 <= i < self@.segments.len() implies cell_wf(
                *game_state,
                #[trigger] self@.segments[i],
            ) by {
                if self@.segments.len() > pre.segments.len() {
                    assert(self@.segments[i] == pushed[i]);
                } else {
                    assert(self@.segments[i] == pushed[i + 1]);
                }
            }
        }
    }

    /// The segment cells, tail first and head last, for rendering.
    pub fn segments(&self) -> (r: &Vec<(u32, u32)>)
        ensures
            r@ == self@.segments,
    {
        &self.positions
    }

    /// The cosmetic offsets computed on the last animation tick.
    pub fn offsets(&self) -> (r: &Vec<(i16, i16)>)
        ensures
            r@ == self@.offsets,
    {
        &self.animation.offsets
    }

    /// The current movement direction.
    pub fn direction(&self) -> (r: Direction)
        ensures
            r == self@.direction,
    {
        self.direction
    }

    /// The movement tick interval of this snake, in milliseconds.
    pub fn tick_speed(&self) -> (r: u64)
        ensures
            r == self@.tick_speed_ms,
    {
        self.tick_speed_ms
    }

    /// The persisted record of this snake.
    pub fn to_data(&self) -> (r: crate::file::SnekData)
        ensures
            r@ == crate::file::snek_snapshot(self@),
    {
        let mut positions: Vec<(u32, u32)> = Vec::new();
        let mut i: usize = 0;
        while i < self.positions.len()
            invariant
                i <= self.positions@.len(),
                positions@ == self.positions@.take(i as int),
            decreases self.positions@.len() - i,
        {
            positions.push(self.positions[i]);
            proof {
                assert(self.positions@.take(i as int).push(self.positions@[i as int])
                    =~= self.positions@.take(i as int + 1));
            }
            i = i + 1;
        }
        proof {
            assert(self.positions@.take(self.positions@.len() as int) =~= self.positions@);
        }
        crate::file::SnekData {
            direction: self.direction,
            positions,
            len: self.len,
            tick_speed_ms: self.tick_speed_ms,
        }
    }

    /// One animation tick: advance the wiggle phase and recompute one offset
    /// per segment of the current body, whatever its length.
    pub fn tick_animations(&mut self)
        requires
            old(self)@.phase < 36,
        ensures
            final(self)@ == (SnekView {
                phase: next_phase(old(self)@.phase),
                offsets: wiggle_offsets(
                    old(self)@.segments,
                    next_phase(old(self)@.phase) as int,
                ),
                ..old(self)@
            }),
            anim_wf(final(self)@),
    {
        self.animation.tick(&self.positions);
    }
}

// ---------------------------------------------------------------------------
// The growth bound and the direction-latency law.
// ---------------------------------------------------------------------------

/// The segment count after a run of movement ticks, starting from the three
/// collocated segments of a fresh snake; `lens[t]` is the target length in
/// force at tick `t`.
pub open spec fn seg_count_after(lens: Seq<u32>) -> nat
    decreases lens.len(),
{
    if lens.len() == 0 {
        3
    } else {
        next_seg_count(seg_count_after(lens.drop_last()), lens.last())
    }
}

/// Growth bound: after any run of ticks in which the target length starts at
/// three, never shrinks, and rises by at most one between consecutive ticks
/// (at most one apple eaten per tick), the segment count is exactly the
/// smaller of `ticks + 3` and the current target length — in particular it
/// never exceeds the target length.
pub proof fn lemma_growth_bound(lens: Seq<u32>)
    requires
        lens.len() >= 1,
        3 <= lens[0] <= 4,
        forall|t: int| 0 <= t < lens.len() ==> 3 <= #[trigger] lens[t],
        forall|t: int| 0 <= t < lens.len() - 1 ==> lens[t] <= #[trigger] lens[t + 1]
            && lens[t + 1] <= lens[t] + 1,
    ensures
        seg_count_after(lens) == if lens.len() + 3 <= lens.last() {
            lens.len() + 3
        } else {
            lens.last() as nat
        },
        seg_count_after(lens) <= lens.last(),
    decreases lens.len(),
{
    if lens.len() == 1 {
        assert(lens.drop_last().len() == 0);
        assert(seg_count_after(lens.drop_last()) == 3);
        assert(lens.last() == lens[0]);
    } else {
        let prev = lens.drop_last();
        assert(prev[0] == lens[0]);
        assert(forall|t: int| 0 <= t < prev.len() ==> lens[t] == #[trigger] prev[t]);
        lemma_growth_bound(prev);
        let t = lens.len() - 2;
        assert(lens[t] <= lens[t + 1] && lens[t + 1] <= lens[t] + 1);
        assert(prev.last() == lens[t] && lens.last() == lens[t + 1]);
        assert(prev.last() <= lens.last() && lens.last() <= prev.last() + 1);
    }
}

/// Direction latency: a direction change submitted between ticks leaves the
/// body where it is, and the next movement tick advances the head by exactly
/// one step in the newly chosen direction.
pub proof fn lemma_direction_latency(gs: GameState, s: SnekView, d: Direction)
    requires
        grid_wf(gs),
        snek_wf(gs, s),
    ensures
        (SnekView { direction: d, ..s }).segments == s.segments,
        moved_segments(gs, SnekView { direction: d, ..s }).last() == step_cell(
            gs,
            s.segments.last(),
            d,
        ),
{
    let s2 = SnekView { direction: d, ..s };
    let pushed = s2.segments.push(step_cell(gs, s2.segments.last(), d));
    if pushed.len() > s2.len {
        let sub = pushed.subrange(1, pushed.len() as int);
        assert(sub.last() == pushed[1 + (sub.len() - 1)]);
        assert(sub.last() == pushed.last());
    }
}

} // verus!
