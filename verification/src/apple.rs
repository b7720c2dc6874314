use vstd::prelude::*;
use rand::Rng;
use crate::game::{grid_wf, GameState};
use crate::snek::{axis_wf, lemma_axis_from_index, lemma_axis_last};

verus! {

/// A collectible apple: one grid cell, plus a transient flag meaning
/// "consumed this tick, awaiting respawn". The flag is set and cleared inside
/// one orchestrator tick, so it is false whenever a tick is not in progress.
#[derive(Clone, Copy, PartialEq, Eq, Structural, Debug)]
pub struct Apple {
    pub x: u32,
    pub y: u32,
    pub eaten: bool,
}

/// The apple sits on a well-formed grid cell.
pub open spec fn apple_wf(gs: GameState, a: Apple) -> bool {
    axis_wf(gs.window_width, gs.box_size, a.x) && axis_wf(gs.window_height, gs.box_size, a.y)
}

/// Relies on rand::Rng::gen_range over rand::thread_rng: returns a uniformly
/// random value of the given half-open range, and panics only on an empty
/// range, which the precondition rules out. Nothing more is assumed of the
/// value than its bound.
#[verifier::external_body]
fn random_below(bound: u32) -> (r: u32)
    requires
        0 < bound,
    ensures
        r < bound,
{
    rand::thread_rng().gen_range(0..bound)
}

impl Apple {
    /// A new apple on a random cell of the grid, not yet eaten. The cell is
    /// chosen uniformly and independently per axis.
    pub fn new(window_width: u32, window_height: u32, box_size: u32) -> (r: Apple)
        requires
            0 < box_size <= window_width,
            box_size <= window_height,
        ensures
            axis_wf(window_width, box_size, r.x),
            axis_wf(window_height, box_size, r.y),
            !r.eaten,
    {
        proof {
            lemma_axis_last(window_width, box_size);
            lemma_axis_last(window_height, box_size);
        }
        let qx = random_below(window_width / box_size);
        let qy = random_below(window_height / box_size);
        proof {
            lemma_axis_from_index(window_width, box_size, qx);
            lemma_axis_from_index(window_height, box_size, qy);
        }
        Apple { x: qx * box_size, y: qy * box_size, eaten: false }
    }

    /// One simulation tick: an apple consumed this tick clears its flag and
    /// respawns on a new uniformly random cell — possibly the same one, and
    /// possibly one a snake occupies; neither is excluded, by design. An
    /// unconsumed apple is left untouched.
    pub fn tick(&mut self, game_state: &GameState)
        requires
            grid_wf(*game_state),
            apple_wf(*game_state, *old(self)),
        ensures
            !final(self).eaten,
            !old(self).eaten ==> *final(self) == *old(self),
            apple_wf(*game_state, *final(self)),
    {
        if self.eaten {
            self.eaten = false;
            proof {
                lemma_axis_last(game_state.window_width, game_state.box_size);
                lemma_axis_last(game_state.window_height, game_state.box_size);
            }
            let qx = random_below(game_state.window_width / game_state.box_size);
            let qy = random_below(game_state.window_height / game_state.box_size);
            proof {
                lemma_axis_from_index(game_state.window_width, game_state.box_size, qx);
                lemma_axis_from_index(game_state.window_height, game_state.box_size, qy);
            }
            self.x = qx * game_state.box_size;
            self.y = qy * game_state.box_size;
        }
    }
}

} // verus!
