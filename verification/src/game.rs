use vstd::prelude::*;
use crate::apple::{apple_wf, Apple};
use crate::file::{game_data_bounded, snek_snapshot, GameData, GameDataView, SnekData, SnekDataView};
use crate::snek::{
    anim_wf, cell_wf, initial_snek, lemma_initial_snek_wf, moved_segments, next_phase, snek_wf,
    wiggle_offsets, Snek, SnekView,
};

verus! {

/// Shared, read-only simulation parameters: window size in pixels, the edge
/// length of one grid cell, and the movement tick interval. The orchestrator
/// owns one of these and hands it by reference to snakes and apples.
#[derive(Clone, Copy, PartialEq, Eq, Structural, Debug)]
pub struct GameState {
    pub window_width: u32,
    pub window_height: u32,
    pub box_size: u32,
    pub snek_tick_speed_ms: u64,
}

/// The parameters describe a usable grid: a positive cell size with at least
/// one whole cell in each dimension.
pub open spec fn grid_wf(gs: GameState) -> bool {
    0 < gs.box_size && gs.box_size <= gs.window_width && gs.box_size <= gs.window_height
}

/// A decoded input command. An external input decoder turns raw key events
/// into these; a quit command never reaches the core, the outer loop handles
/// it itself.
#[derive(Clone, Copy, PartialEq, Eq, Structural, Debug)]
pub enum InputEvent {
    DirectionChanged(crate::snek::Direction),
    PauseToggle,
}

/// The simulation parameters assembled from plain values.
pub open spec fn make_game_state(
    window_width: u32,
    window_height: u32,
    box_size: u32,
    snek_tick_speed_ms: u64,
) -> GameState {
    GameState { window_width, window_height, box_size, snek_tick_speed_ms }
}

/// The spec-level images of a roster of snakes.
pub open spec fn snek_views(sneks: Seq<Snek>) -> Seq<SnekView> {
    Seq::new(sneks.len(), |i: int| sneks[i]@)
}

/// Spec-level image of the whole game.
#[verifier::ext_equal]
pub ghost struct GameView {
    pub game_state: GameState,
    pub running: bool,
    pub sneks: Seq<SnekView>,
    pub apples: Seq<Apple>,
}

/// The game orchestrator: owns the simulation parameters, the pause/run
/// flag, and the rosters of snakes and apples. Snakes and apples never see
/// each other; every cross-entity check goes through here.
pub struct Game {
    game_state: GameState,
    /// Whether the simulation is advancing; the pause toggle flips it.
    /// A new game starts advancing.
    running: bool,
    sneks: Vec<Snek>,
    apples: Vec<Apple>,
}

impl View for Game {
    type V = GameView;

    closed spec fn view(&self) -> GameView {
        GameView {
            game_state: self.game_state,
            running: self.running,
            sneks: snek_views(self.sneks@),
            apples: self.apples@,
        }
    }
}

/// Everything a game state must satisfy between ticks: a usable grid,
/// well-formed snakes with animations in step, and apples on valid cells.
pub open spec fn game_wf(g: GameView) -> bool {
    &&& grid_wf(g.game_state)
    &&& forall|i: int|
        0 <= i < g.sneks.len() ==> snek_wf(g.game_state, #[trigger] g.sneks[i]) && anim_wf(
            g.sneks[i],
        )
    &&& forall|j: int| 0 <= j < g.apples.len() ==> apple_wf(g.game_state, #[trigger] g.apples[j])
}

/// A persisted snake record that can be brought back to life on the given
/// grid: a non-empty body of valid cells, within a target length of at least
/// three.
pub open spec fn snek_data_ok(gs: GameState, d: SnekDataView) -> bool {
    &&& 1 <= d.positions.len()
    &&& d.positions.len() <= d.len
    &&& 3 <= d.len
    &&& forall|i: int| 0 <= i < d.positions.len() ==> cell_wf(gs, #[trigger] d.positions[i])
}

/// A whole snapshot that can be brought back to life on the given grid.
pub open spec fn game_data_ok(gs: GameState, g: GameDataView) -> bool {
    &&& forall|i: int| 0 <= i < g.sneks.len() ==> snek_data_ok(gs, #[trigger] g.sneks[i])
    &&& forall|j: int| 0 <= j < g.apples.len() ==> apple_wf(gs, #[trigger] g.apples[j])
}

/// The live snake a persisted record becomes: the recorded body and
/// direction, with the animation restarted at rest.
pub open spec fn snek_from_record(d: SnekDataView) -> SnekView {
    SnekView {
        direction: d.direction,
        segments: d.positions,
        len: d.len,
        tick_speed_ms: d.tick_speed_ms,
        phase: 0,
        offsets: Seq::new(d.positions.len(), |i: int| (0i16, 0i16)),
    }
}

/// Exec check of `snek_data_ok`.
fn check_snek_data(gs: &GameState, d: &SnekData) -> (r: bool)
    requires
        grid_wf(*gs),
    ensures
        r == snek_data_ok(*gs, d@),
{
    if d.positions.len() < 1 || d.len < 3 || d.positions.len() > d.len as usize {
        return false;
    }
    let mut i: usize = 0;
    while i < d.positions.len()
        invariant
            i <= d@.positions.len(),
            grid_wf(*gs),
            forall|k: int| 0 <= k < i ==> cell_wf(*gs, #[trigger] d@.positions[k]),
        decreases d@.positions.len() - i,
    {
        if !crate::snek::cell_ok(gs, d.positions[i]) {
            return false;
        }
        i = i + 1;
    }
    proof {
        assert(1 <= d@.positions.len() && d@.positions.len() <= d@.len && 3 <= d@.len);
    }
    true
}

/// Whether this snake's head sits on the given cell.
pub open spec fn is_head_match(s: SnekView, pos: (u32, u32)) -> bool {
    s.segments.len() > 0 && s.segments.last() == pos
}

/// The index of the first listed snake whose head sits on `pos`, or -1 when
/// no snake's head does. First listed wins a tie, by design.
pub open spec fn first_match(sneks: Seq<SnekView>, pos: (u32, u32)) -> int
    decreases sneks.len(),
{
    if sneks.len() == 0 {
        -1
    } else if is_head_match(sneks.first(), pos) {
        0
    } else {
        let r = first_match(sneks.drop_first(), pos);
        if r == -1 {
            -1
        } else {
            r + 1
        }
    }
}

/// Whether the apple is consumed this tick: it is not already marked eaten
/// and some snake's head sits on its cell.
pub open spec fn apple_hit(sneks: Seq<SnekView>, a: Apple) -> bool {
    !a.eaten && first_match(sneks, (a.x, a.y)) >= 0
}

/// How many apples snake `i` consumes this tick: those it is the first
/// listed snake to reach.
pub open spec fn grow_count(sneks: Seq<SnekView>, apples: Seq<Apple>, i: int) -> nat
    decreases apples.len(),
{
    if apples.len() == 0 {
        0
    } else {
        grow_count(sneks, apples.drop_last(), i) + if !apples.last().eaten && first_match(
            sneks,
            (apples.last().x, apples.last().y),
        ) == i {
            1nat
        } else {
            0nat
        }
    }
}

/// A snake's state after one full orchestrator tick: target length raised by
/// the apples it consumed, body moved one step, animation advanced.
pub open spec fn ticked_snek(gs: GameState, s: SnekView, grown: u32) -> SnekView {
    let mid = SnekView { len: grown, ..s };
    let segs = moved_segments(gs, mid);
    SnekView {
        len: grown,
        segments: segs,
        phase: next_phase(s.phase),
        offsets: wiggle_offsets(segs, next_phase(s.phase) as int),
        ..s
    }
}

/// What one orchestrator tick guarantees. When the simulation is not
/// running, nothing changes. When it is: every snake's target length rises
/// by the number of apples it was first to reach, its body advances one step
/// and its animation one phase; every apple ends the tick unmarked; an apple
/// that nobody reached keeps its cell, and one that was consumed sits on
/// some well-formed cell (which one is random).
pub open spec fn tick_rel(pre: GameView, post: GameView) -> bool {
    &&& post.game_state == pre.game_state
    &&& post.running == pre.running
    &&& if !pre.running {
        post == pre
    } else {
        &&& post.sneks.len() == pre.sneks.len()
        &&& forall|i: int|
            0 <= i < pre.sneks.len() ==> #[trigger] post.sneks[i] == ticked_snek(
                pre.game_state,
                pre.sneks[i],
                (pre.sneks[i].len + grow_count(pre.sneks, pre.apples, i)) as u32,
            )
        &&& post.apples.len() == pre.apples.len()
        &&& forall|j: int| 0 <= j < pre.apples.len() ==> !(#[trigger] post.apples[j]).eaten
        &&& forall|j: int|
            0 <= j < pre.apples.len() && !pre.apples[j].eaten && !apple_hit(
                pre.sneks,
                #[trigger] pre.apples[j],
            ) ==> post.apples[j] == (Apple { eaten: false, ..pre.apples[j] })
        &&& forall|j: int|
            0 <= j < pre.apples.len() ==> apple_wf(pre.game_state, #[trigger] post.apples[j])
    }
}

/// The score shown to the player: segments gained beyond the starting three,
/// summed over all snakes.
pub open spec fn spec_score(sneks: Seq<SnekView>) -> int
    decreases sneks.len(),
{
    if sneks.len() == 0 {
        0
    } else {
        spec_score(sneks.drop_last()) + (sneks.last().len - 3)
    }
}

/// When every snake has target length at least three, every prefix score is
/// nonnegative and no larger than the whole score.
proof fn lemma_score_prefix(sneks: Seq<SnekView>, k: int)
    requires
        0 <= k <= sneks.len(),
        forall|i: int| 0 <= i < sneks.len() ==> 3 <= (#[trigger] sneks[i]).len,
    ensures
        0 <= spec_score(sneks.take(k)),
        spec_score(sneks.take(k)) <= spec_score(sneks),
    decreases sneks.len() - k,
{
    if k == sneks.len() {
        assert(sneks.take(k) =~= sneks);
        lemma_score_nonneg(sneks);
    } else {
        lemma_score_prefix(sneks, k + 1);
        assert(sneks.take(k + 1).drop_last() =~= sneks.take(k));
        assert(sneks.take(k + 1).last() == sneks[k]);
        lemma_score_nonneg(sneks.take(k));
    }
}

/// A roster of snakes with target length at least three has a nonnegative
/// score.
proof fn lemma_score_nonneg(sneks: Seq<SnekView>)
    requires
        forall|i: int| 0 <= i < sneks.len() ==> 3 <= (#[trigger] sneks[i]).len,
    ensures
        0 <= spec_score(sneks),
    decreases sneks.len(),
{
    if sneks.len() > 0 {
        lemma_score_nonneg(sneks.drop_last());
    }
}

/// `first_match` returns `k` exactly when snake `k` matches and no earlier
/// one does.
proof fn lemma_first_match_at(sneks: Seq<SnekView>, pos: (u32, u32), k: int)
    requires
        0 <= k < sneks.len(),
        forall|i: int| 0 <= i < k ==> !is_head_match(#[trigger] sneks[i], pos),
        is_head_match(sneks[k], pos),
    ensures
        first_match(sneks, pos) == k,
    decreases k,
{
    if k == 0 {
        assert(is_head_match(sneks.first(), pos));
    } else {
        assert(!is_head_match(sneks.first(), pos));
        let rest = sneks.drop_first();
        assert(forall|i: int| 0 <= i < k - 1 ==> !is_head_match(#[trigger] rest[i], pos));
        assert(rest[k - 1] == sneks[k]);
        lemma_first_match_at(rest, pos, k - 1);
    }
}

/// When no snake's head sits on `pos`, `first_match` reports none.
proof fn lemma_first_match_none(sneks: Seq<SnekView>, pos: (u32, u32))
    requires
        forall|i: int| 0 <= i < sneks.len() ==> !is_head_match(#[trigger] sneks[i], pos),
    ensures
        first_match(sneks, pos) == -1,
    decreases sneks.len(),
{
    if sneks.len() > 0 {
        let rest = sneks.drop_first();
        assert(forall|i: int| 0 <= i < rest.len() ==> rest[i] == sneks[i + 1]);
        lemma_first_match_none(rest, pos);
    }
}

/// A snake never consumes more apples in one tick than there are apples.
proof fn lemma_grow_count_bound(sneks: Seq<SnekView>, apples: Seq<Apple>, i: int)
    ensures
        grow_count(sneks, apples, i) <= apples.len(),
    decreases apples.len(),
{
    if apples.len() > 0 {
        lemma_grow_count_bound(sneks, apples.drop_last(), i);
    }
}

/// Extending the processed prefix by one apple adds that apple's
/// contribution to each snake's consumption count.
proof fn lemma_grow_count_step(sneks: Seq<SnekView>, apples: Seq<Apple>, j: int, i: int)
    requires
        0 <= j < apples.len(),
    ensures
        grow_count(sneks, apples.take(j + 1), i) == grow_count(sneks, apples.take(j), i) + if !apples[j].eaten
            && first_match(sneks, (apples[j].x, apples[j].y)) == i {
            1nat
        } else {
            0nat
        },
{
    assert(apples.take(j + 1).drop_last() =~= apples.take(j));
    assert(apples.take(j + 1).last() == apples[j]);
}

/// Find the first listed snake whose head sits on `pos`.
fn find_first_head(sneks: &Vec<Snek>, pos: (u32, u32)) -> (r: Option<usize>)
    requires
        forall|i: int| 0 <= i < sneks@.len() ==> (#[trigger] sneks@[i]@).segments.len() >= 1,
    ensures
        match r {
            Some(k) => k < sneks@.len() && first_match(snek_views(sneks@), pos) == k,
            None => first_match(snek_views(sneks@), pos) == -1,
        },
{
    let ghost views = snek_views(sneks@);
    let mut i: usize = 0;
    while i < sneks.len()
        invariant
            i <= sneks@.len(),
            views == snek_views(sneks@),
            forall|k: int| 0 <= k < sneks@.len() ==> (#[trigger] sneks@[k]@).segments.len() >= 1,
            forall|k: int| 0 <= k < i ==> !is_head_match(#[trigger] views[k], pos),
        decreases sneks@.len() - i,
    {
        let p = sneks[i].position();
        if p.0 == pos.0 && p.1 == pos.1 {
            proof {
                assert(is_head_match(views[i as int], pos));
                lemma_first_match_at(views, pos, i as int);
            }
            return Some(i);
        }
        assert(!is_head_match(views[i as int], pos));
        i = i + 1;
    }
    proof {
        lemma_first_match_none(views, pos);
    }
    None
}

impl Game {
    /// A fresh game: default tick interval, one centered snake, one randomly
    /// placed apple, simulation advancing.
    pub fn new(window_width: u32, window_height: u32, box_size: u32) -> (r: Game)
        requires
            0 < box_size <= window_width,
            box_size <= window_height,
        ensures
            r@.game_state == make_game_state(window_width, window_height, box_size, 50),
            r@.running == true,
            r@.sneks == seq![initial_snek(window_width, window_height, box_size)],
            r@.apples.len() == 1,
            !r@.apples[0].eaten,
            game_wf(r@),
    {
        let game_state = GameState { window_width, window_height, box_size, snek_tick_speed_ms: 50 };
        let sneks: Vec<Snek> = vec![Snek::new(window_width, window_height, box_size)];
        let apples: Vec<Apple> = vec![Apple::new(window_width, window_height, box_size)];
        let r = Game { game_state, running: true, sneks, apples };
        proof {
            assert(r@.sneks =~= seq![initial_snek(window_width, window_height, box_size)]);
            lemma_initial_snek_wf(game_state);
        }
        r
    }

    /// Rebuild a game from persisted state: the given rosters, the persisted
    /// tick interval, simulation advancing as in a fresh game.
    pub fn load(
        window_width: u32,
        window_height: u32,
        box_size: u32,
        snek_tick_speed_ms: u64,
        sneks: Vec<Snek>,
        apples: Vec<Apple>,
    ) -> (r: Game)
        requires
            0 < box_size <= window_width,
            box_size <= window_height,
            forall|i: int|
                0 <= i < sneks@.len() ==> snek_wf(
                    make_game_state(window_width, window_height, box_size, snek_tick_speed_ms),
                    (#[trigger] sneks@[i])@,
                ) && anim_wf(sneks@[i]@),
            forall|j: int|
                0 <= j < apples@.len() ==> apple_wf(
                    make_game_state(window_width, window_height, box_size, snek_tick_speed_ms),
                    #[trigger] apples@[j],
                ),
        ensures
            r@.game_state == make_game_state(window_width, window_height, box_size, snek_tick_speed_ms),
            r@.running == true,
            r@.sneks == snek_views(sneks@),
            r@.apples == apples@,
            game_wf(r@),
    {
        let game_state = GameState { window_width, window_height, box_size, snek_tick_speed_ms };
        Game { game_state, running: true, sneks, apples }
    }

    /// The simulation parameters.
    pub fn game_state(&self) -> (r: GameState)
        ensures
            r == self@.game_state,
    {
        self.game_state
    }

    /// Whether the simulation is currently advancing.
    pub fn is_running(&self) -> (r: bool)
        ensures
            r == self@.running,
    {
        self.running
    }

    /// The snake roster, for rendering and for building a snapshot.
    pub fn sneks(&self) -> (r: &Vec<Snek>)
        ensures
            snek_views(r@) == self@.sneks,
    {
        &self.sneks
    }

    /// The apple roster, for rendering and for building a snapshot.
    pub fn apples(&self) -> (r: &Vec<Apple>)
        ensures
            r@ == self@.apples,
    {
        &self.apples
    }

    /// React to one decoded input event: the pause toggle flips whether the
    /// simulation advances; a direction change steers every snake from its
    /// next movement tick on. Nothing moves here.
    pub fn process_event(&mut self, event: &InputEvent)
        ensures
            final(self)@.game_state == old(self)@.game_state,
            final(self)@.apples == old(self)@.apples,
            final(self)@.sneks.len() == old(self)@.sneks.len(),
            match *event {
                InputEvent::PauseToggle => final(self)@.running == !old(self)@.running
                    && final(self)@.sneks == old(self)@.sneks,
                InputEvent::DirectionChanged(d) => final(self)@.running == old(self)@.running
                    && forall|i: int|
                    0 <= i < old(self)@.sneks.len() ==> #[trigger] final(self)@.sneks[i]
                        == (SnekView { direction: d, ..old(self)@.sneks[i] }),
            },
            game_wf(old(self)@) ==> game_wf(final(self)@),
    {
        let ghost pre = self@;
        match event {
            InputEvent::PauseToggle => {
                self.running = !self.running;
            },
            InputEvent::DirectionChanged(_) => {
                let mut i: usize = 0;
                while i < self.sneks.len()
                    invariant
                        i <= self.sneks@.len(),
                        self@.game_state == pre.game_state,
                        self@.running == pre.running,
                        self@.apples == pre.apples,
                        self@.sneks.len() == pre.sneks.len(),
                        forall|k: int|
                            0 <= k < i ==> #[trigger] self@.sneks[k] == (SnekView {
                                direction: crate::snek::event_direction(
                                    pre.sneks[k].direction,
                                    *event,
                                ),
                                ..pre.sneks[k]
                            }),
                        forall|k: int|
                            i <= k < pre.sneks.len() ==> #[trigger] self@.sneks[k] == pre.sneks[k],
                    decreases self.sneks@.len() - i,
                {
                    let ghost prev = self@.sneks;
                    self.sneks[i].process_event(event);
                    proof {
                        assert forall|k: int|
                            0 <= k < pre.sneks.len() && k != i as int implies #[trigger] self@.sneks[k]
                            == prev[k] by {
                            assert(self.sneks@[k] == self.sneks@[k]);
                        }
                        assert(self@.sneks[i as int] == (SnekView {
                            direction: crate::snek::event_direction(
                                prev[i as int].direction,
                                *event,
                            ),
                            ..prev[i as int]
                        }));
                    }
                    i = i + 1;
                }
            },
        }
        proof {
            if game_wf(pre) {
                assert forall|k: int|
                    0 <= k < self@.sneks.len() implies snek_wf(
                    self@.game_state,
                    #[trigger] self@.sneks[k],
                ) && anim_wf(self@.sneks[k]) by {
                    assert(snek_wf(pre.game_state, pre.sneks[k]));
                    assert(anim_wf(pre.sneks[k]));
                }
                assert forall|k: int|
                    0 <= k < self@.apples.len() implies apple_wf(
                    self@.game_state,
                    #[trigger] self@.apples[k],
                ) by {
                    assert(apple_wf(pre.game_state, pre.apples[k]));
                }
            }
        }
    }

    /// The score shown to the player: segments gained beyond the starting
    /// three, summed over all snakes. Recomputed on demand, never stored.
    pub fn score(&self) -> (r: u32)
        requires
            game_wf(self@),
            spec_score(self@.sneks) <= u32::MAX,
        ensures
            r == spec_score(self@.sneks),
    {
        let ghost views = self@.sneks;
        let mut total: u32 = 0;
        let mut i: usize = 0;
        while i < self.sneks.len()
            invariant
                i <= self.sneks@.len(),
                views == self@.sneks,
                game_wf(self@),
                spec_score(views) <= u32::MAX,
                total == spec_score(views.take(i as int)),
            decreases self.sneks@.len() - i,
        {
            proof {
                lemma_score_prefix(views, i + 1);
                assert(views.take(i + 1).drop_last() =~= views.take(i as int));
                assert(views.take(i + 1).last() == views[i as int]);
                lemma_score_nonneg(views.take(i as int));
            }
            let l = self.sneks[i].target_len();
            total = total + (l - 3);
            i = i + 1;
        }
        proof {
            assert(views.take(i as int) =~= views);
        }
        total
    }

    /// The persisted snapshot of the whole game.
    pub fn to_data(&self) -> (r: GameData)
        requires
            game_wf(self@),
            self@.sneks.len() < 0x100000000,
            self@.apples.len() < 0x100000000,
        ensures
            r@.snek_tick_speed_ms == self@.game_state.snek_tick_speed_ms,
            r@.apples == self@.apples,
            r@.sneks.len() == self@.sneks.len(),
            forall|i: int|
                0 <= i < self@.sneks.len() ==> #[trigger] r@.sneks[i] == snek_snapshot(
                    self@.sneks[i],
                ),
            game_data_bounded(r@),
    {
        let mut sneks: Vec<SnekData> = Vec::new();
        let mut i: usize = 0;
        while i < self.sneks.len()
            invariant
                i <= self@.sneks.len(),
                sneks@.len() == i,
                forall|k: int|
                    0 <= k < i ==> #[trigger] sneks@[k]@ == snek_snapshot(self@.sneks[k]),
            decreases self@.sneks.len() - i,
        {
            let sd = self.sneks[i].to_data();
            sneks.push(sd);
            i = i + 1;
        }
        let mut apples: Vec<Apple> = Vec::new();
        let mut j: usize = 0;
        while j < self.apples.len()
            invariant
                j <= self@.apples.len(),
                apples@ == self@.apples.take(j as int),
            decreases self@.apples.len() - j,
        {
            apples.push(self.apples[j]);
            proof {
                assert(self@.apples.take(j as int).push(self@.apples[j as int]) =~= self@.apples.take(
                    j as int + 1,
                ));
            }
            j = j + 1;
        }
        proof {
            assert(self@.apples.take(self@.apples.len() as int) =~= self@.apples);
        }
        let r = GameData {
            snek_tick_speed_ms: self.game_state.snek_tick_speed_ms,
            sneks,
            apples,
        };
        proof {
            assert forall|k: int| 0 <= k < self@.sneks.len() implies #[trigger] r@.sneks[k]
                == snek_snapshot(self@.sneks[k]) by {
                assert(r@.sneks[k] == r.sneks@[k]@);
            }
            assert forall|k: int|
                0 <= k < r@.sneks.len() implies (#[trigger] r@.sneks[k]).positions.len()
                < 0x100000000 by {
                assert(snek_wf(self@.game_state, self@.sneks[k]));
            }
        }
        r
    }

    /// Rebuild a game from a decoded snapshot, on the given grid. Succeeds
    /// exactly when every persisted snake is well-formed for that grid (a
    /// non-empty body of valid cells, within a target length of at least
    /// three) and every apple sits on a valid cell; anything else yields
    /// nothing, and the caller falls back to a fresh game.
    #[verifier::loop_isolation(false)]
    pub fn from_data(
        window_width: u32,
        window_height: u32,
        box_size: u32,
        data: GameData,
    ) -> (r: Option<Game>)
        requires
            0 < box_size <= window_width,
            box_size <= window_height,
        ensures
            match r {
                Some(g) => {
                    let gs = make_game_state(
                        window_width,
                        window_height,
                        box_size,
                        data@.snek_tick_speed_ms,
                    );
                    &&& game_data_ok(gs, data@)
                    &&& g@.game_state == gs
                    &&& g@.running == true
                    &&& g@.sneks.len() == data@.sneks.len()
                    &&& forall|i: int|
                        0 <= i < data@.sneks.len() ==> #[trigger] g@.sneks[i] == snek_from_record(
                            data@.sneks[i],
                        )
                    &&& g@.apples == data@.apples
                    &&& game_wf(g@)
                },
                None => !game_data_ok(
                    make_game_state(
                        window_width,
                        window_height,
                        box_size,
                        data@.snek_tick_speed_ms,
                    ),
                    data@,
                ),
            },
    {
        let ghost dview = data@;
        let gs = GameState {
            window_width,
            window_height,
            box_size,
            snek_tick_speed_ms: data.snek_tick_speed_ms,
        };
        let GameData { snek_tick_speed_ms, sneks: mut records, apples } = data;
        let n = records.len();
        let mut sneks: Vec<Snek> = Vec::new();
        let mut i: usize = 0;
        while i < n
            invariant
                i <= n,
                n == dview.sneks.len(),
                grid_wf(gs),
                gs == make_game_state(window_width, window_height, box_size, snek_tick_speed_ms),
                snek_tick_speed_ms == dview.snek_tick_speed_ms,
                records@.len() == n - i,
                forall|k: int| 0 <= k < n - i ==> #[trigger] records@[k]@ == dview.sneks[i + k],
                sneks@.len() == i,
                forall|k: int|
                    0 <= k < i ==> #[trigger] sneks@[k]@ == snek_from_record(dview.sneks[k]),
                forall|k: int| 0 <= k < i ==> snek_data_ok(gs, #[trigger] dview.sneks[k]),
            decreases n - i,
        {
            let sd = records.remove(0);
            proof {
                assert(sd@ == dview.sneks[i as int]);
                assert forall|k: int| 0 <= k < n - i - 1 implies #[trigger] records@[k]@
                    == dview.sneks[i + 1 + k] by {}
            }
            if !check_snek_data(&gs, &sd) {
                proof {
                    assert(!snek_data_ok(gs, dview.sneks[i as int]));
                }
                return None;
            }
            let snek = Snek::load(sd.direction, sd.positions, sd.len, sd.tick_speed_ms);
            sneks.push(snek);
            i = i + 1;
        }
        let mut j: usize = 0;
        while j < apples.len()
            invariant
                j <= apples@.len(),
                apples@ == dview.apples,
                grid_wf(gs),
                gs == make_game_state(window_width, window_height, box_size, snek_tick_speed_ms),
                forall|k: int| 0 <= k < j ==> apple_wf(gs, #[trigger] apples@[k]),
            decreases apples@.len() - j,
        {
            let a = apples[j];
            if !crate::snek::cell_ok(&gs, (a.x, a.y)) {
                proof {
                    assert(!apple_wf(gs, dview.apples[j as int]));
                }
                return None;
            }
            j = j + 1;
        }
        proof {
            assert forall|k: int|
                0 <= k < sneks@.len() implies snek_wf(gs, (#[trigger] sneks@[k])@) && anim_wf(
                sneks@[k]@,
            ) by {
                assert(sneks@[k]@ == snek_from_record(dview.sneks[k]));
                assert(snek_data_ok(gs, dview.sneks[k]));
            }
        }
        let g = Game::load(
            window_width,
            window_height,
            box_size,
            snek_tick_speed_ms,
            sneks,
            apples,
        );
        Some(g)
    }

    /// One orchestrator tick, run only while the simulation is advancing:
    /// first the consumption pass (each unmarked apple is granted to the
    /// first listed snake whose head sits on it, raising that snake's target
    /// length), then one movement tick per snake, then the apple respawn
    /// pass, then one animation tick per snake.
    pub fn tick(&mut self)
        requires
            game_wf(old(self)@),
            forall|i: int|
                0 <= i < old(self)@.sneks.len() ==> (#[trigger] old(self)@.sneks[i]).len
                    + old(self)@.apples.len() <= u32::MAX,
        ensures
            tick_rel(old(self)@, final(self)@),
            game_wf(final(self)@),
    {
        let ghost pre = self@;
        if !self.running {
            return ;
        }
        // Consumption pass: mark reached apples, tally each snake's share.
        let n_sneks = self.sneks.len();
        let mut grows: Vec<u32> = Vec::new();
        let mut z: usize = 0;
        while z < n_sneks
            invariant
                z <= n_sneks,
                grows@.len() == z,
                forall|k: int| 0 <= k < z ==> #[trigger] grows@[k] == 0u32,
            decreases n_sneks - z,
        {
            grows.push(0);
            z = z + 1;
        }
        let mut j: usize = 0;
        while j < self.apples.len()
            invariant
                game_wf(pre),
                forall|i: int|
                    0 <= i < pre.sneks.len() ==> (#[trigger] pre.sneks[i]).len + pre.apples.len()
                        <= u32::MAX,
                self@.game_state == pre.game_state,
                self@.running == pre.running,
                self@.sneks == pre.sneks,
                n_sneks == pre.sneks.len(),
                j <= self@.apples.len(),
                self@.apples.len() == pre.apples.len(),
                grows@.len() == pre.sneks.len(),
                forall|i: int|
                    0 <= i < pre.sneks.len() ==> (#[trigger] grows@[i]) as nat == grow_count(
                        pre.sneks,
                        pre.apples.take(j as int),
                        i,
                    ),
                forall|jj: int|
                    0 <= jj < j ==> #[trigger] self@.apples[jj] == (Apple {
                        eaten: pre.apples[jj].eaten || apple_hit(pre.sneks, pre.apples[jj]),
                        ..pre.apples[jj]
                    }),
                forall|jj: int|
                    j <= jj < pre.apples.len() ==> #[trigger] self@.apples[jj] == pre.apples[jj],
            decreases self@.apples.len() - j,
        {
            let a = self.apples[j];
            proof {
                assert(a == pre.apples[j as int]);
            }
            if !a.eaten {
                proof {
                    assert forall|i: int|
                        0 <= i < self.sneks@.len() implies (#[trigger] self.sneks@[i]@).segments.len()
                        >= 1 by {
                        assert(self@.sneks[i] == pre.sneks[i]);
                        assert(snek_wf(pre.game_state, pre.sneks[i]));
                    }
                }
                let hit = find_first_head(&self.sneks, (a.x, a.y));
                match hit {
                    Some(k) => {
                        self.apples[j] = Apple { eaten: true, ..a };
                        let g = grows[k];
                        proof {
                            lemma_grow_count_bound(pre.sneks, pre.apples.take(j as int), k as int);
                            assert(pre.apples.take(j as int).len() == j);
                        }
                        grows[k] = g + 1;
                        proof {
                            assert(apple_hit(pre.sneks, pre.apples[j as int]));
                        }
                    },
                    None => {
                        proof {
                            assert(!apple_hit(pre.sneks, pre.apples[j as int]));
                        }
                    },
                }
            }
            proof {
                assert forall|i: int| 0 <= i < pre.sneks.len() implies (#[trigger] grows@[i]) as nat
                    == grow_count(pre.sneks, pre.apples.take(j as int + 1), i) by {
                    lemma_grow_count_step(pre.sneks, pre.apples, j as int, i);
                }
            }
            j = j + 1;
        }
        proof {
            assert(pre.apples.take(pre.apples.len() as int) =~= pre.apples);
        }
        let ghost mid_apples = self@.apples;

        // Movement pass: growth recorded above takes effect, then one step.
        let mut i: usize = 0;
        while i < self.sneks.len()
            invariant
                game_wf(pre),
                forall|ii: int|
                    0 <= ii < pre.sneks.len() ==> (#[trigger] pre.sneks[ii]).len + pre.apples.len()
                        <= u32::MAX,
                self@.game_state == pre.game_state,
                self@.running == pre.running,
                self@.apples == mid_apples,
                self@.sneks.len() == pre.sneks.len(),
                i <= pre.sneks.len(),
                grows@.len() == pre.sneks.len(),
                forall|k: int|
                    0 <= k < pre.sneks.len() ==> (#[trigger] grows@[k]) as nat == grow_count(
                        pre.sneks,
                        pre.apples,
                        k,
                    ),
                forall|k: int|
                    i <= k < pre.sneks.len() ==> #[trigger] self@.sneks[k] == pre.sneks[k],
                forall|k: int|
                    0 <= k < i ==> #[trigger] self@.sneks[k] == ticked_snek(
                        pre.game_state,
                        pre.sneks[k],
                        (pre.sneks[k].len + grow_count(pre.sneks, pre.apples, k)) as u32,
                    ),
                forall|k: int|
                    0 <= k < i ==> snek_wf(pre.game_state, #[trigger] self@.sneks[k]) && anim_wf(
                        self@.sneks[k],
                    ),
            decreases pre.sneks.len() - i,
        {
            let ghost prev = self@.sneks;
            let g = grows[i];
            proof {
                lemma_grow_count_bound(pre.sneks, pre.apples, i as int);
                assert(self@.sneks[i as int] == pre.sneks[i as int]);
                assert(pre.sneks[i as int].len + pre.apples.len() <= u32::MAX);
                assert(g as nat <= pre.apples.len());
                assert(snek_wf(pre.game_state, pre.sneks[i as int]));
                assert(anim_wf(pre.sneks[i as int]));
            }
            self.sneks[i].grow_by(g);
            proof {
                assert(snek_wf(pre.game_state, self@.sneks[i as int]));
            }
            self.sneks[i].tick(&self.game_state);
            self.sneks[i].tick_animations();
            proof {
                assert forall|k: int|
                    0 <= k < pre.sneks.len() && k != i as int implies #[trigger] self@.sneks[k]
                    == prev[k] by {
                    assert(self.sneks@[k] == self.sneks@[k]);
                }
                assert(self@.sneks[i as int] =~= ticked_snek(
                    pre.game_state,
                    pre.sneks[i as int],
                    (pre.sneks[i as int].len + grow_count(pre.sneks, pre.apples, i as int)) as u32,
                ));
                assert(snek_wf(pre.game_state, self@.sneks[i as int]));
                assert(anim_wf(self@.sneks[i as int]));
            }
            i = i + 1;
        }

        // Respawn pass: consumed apples relocate and clear their flag.
        let mut j2: usize = 0;
        while j2 < self.apples.len()
            invariant
                game_wf(pre),
                self@.game_state == pre.game_state,
                self@.running == pre.running,
                self@.sneks.len() == pre.sneks.len(),
                forall|k: int|
                    0 <= k < pre.sneks.len() ==> #[trigger] self@.sneks[k] == ticked_snek(
                        pre.game_state,
                        pre.sneks[k],
                        (pre.sneks[k].len + grow_count(pre.sneks, pre.apples, k)) as u32,
                    ),
                forall|k: int|
                    0 <= k < pre.sneks.len() ==> snek_wf(pre.game_state, #[trigger] self@.sneks[k])
                        && anim_wf(self@.sneks[k]),
                j2 <= pre.apples.len(),
                self@.apples.len() == pre.apples.len(),
                forall|jj: int| j2 <= jj < pre.apples.len() ==> #[trigger] self@.apples[jj]
                    == mid_apples[jj],
                forall|jj: int|
                    0 <= jj < pre.apples.len() ==> #[trigger] mid_apples[jj] == (Apple {
                        eaten: pre.apples[jj].eaten || apple_hit(pre.sneks, pre.apples[jj]),
                        ..pre.apples[jj]
                    }),
                forall|jj: int| 0 <= jj < j2 ==> !(#[trigger] self@.apples[jj]).eaten,
                forall|jj: int|
                    0 <= jj < j2 && !pre.apples[jj].eaten && !apple_hit(
                        pre.sneks,
                        pre.apples[jj],
                    ) ==> #[trigger] self@.apples[jj] == (Apple { eaten: false, ..pre.apples[jj] }),
                forall|jj: int|
                    0 <= jj < j2 ==> apple_wf(pre.game_state, #[trigger] self@.apples[jj]),
            decreases pre.apples.len() - j2,
        {
            proof {
                assert(apple_wf(pre.game_state, pre.apples[j2 as int]));
                assert(mid_apples[j2 as int] == (Apple {
                    eaten: pre.apples[j2 as int].eaten || apple_hit(
                        pre.sneks,
                        pre.apples[j2 as int],
                    ),
                    ..pre.apples[j2 as int]
                }));
            }
            self.apples[j2].tick(&self.game_state);
            j2 = j2 + 1;
        }
    }
}

} // verus!
