//! The simulation driver: the current board, a scratch board for the next
//! generation, the run state, the generation counter and the speed.
use vstd::prelude::*;
use crate::life_rule::{LifeRule, candidate_cells, next_alive, step_fits};
use crate::world::World;

verus! {

/// Whether the engine advances on its own.
#[derive(Debug, Clone, Copy, PartialEq, Eq, Structural)]
pub enum EngineState {
    Stopped,
    Running,
    Paused,
}

/// A request sent to a running engine.
#[derive(Debug, Clone, Copy, PartialEq, Eq, Structural)]
pub enum EngineCommand {
    Start,
    Stop,
    Pause,
    Step,
    SetSpeed(u32),
}

/// The speed in generations per second that `set_tps` keeps: `tps` clamped
/// to `1..=1000`.
pub open spec fn clamped_tps(tps: u32) -> u32 {
    if tps < 1 {
        1
    } else if tps > 1000 {
        1000
    } else {
        tps
    }
}

/// What the simulation thread does after it has carried out the pending
/// commands.
#[derive(Debug, Clone, Copy, PartialEq, Eq, Structural)]
pub enum TickAction {
    /// A generation was computed; the next one is due this many milliseconds
    /// after this one started.
    Stepped(u64),
    /// The engine is not running; look again after this many milliseconds.
    Idle(u64),
}

/// `u32::clamp`: `hi` if `v > hi`, `lo` if `v < lo`, else `v` (it panics when
/// `lo > hi`).
#[verifier::external_body]
fn u32_clamp(v: u32, lo: u32, hi: u32) -> (r: u32)
    requires
        lo <= hi,
    ensures
        r == if v < lo {
            lo
        } else if v > hi {
            hi
        } else {
            v
        },
{
    v.clamp(lo, hi)
}

/// The clamped speed lies in `1..=1000`, speeds in that range are kept, and
/// clamping twice is clamping once.
pub proof fn lemma_clamped_tps(t: u32)
    ensures
        1 <= clamped_tps(t) <= 1000,
        1 <= t <= 1000 ==> clamped_tps(t) == t,
        clamped_tps(clamped_tps(t)) == clamped_tps(t),
{
}

/// A speed above 1000 becomes 1000, a speed of 0 becomes 1, and a faster
/// request never gives a slower speed.
pub proof fn lemma_clamped_tps_bounds(a: u32, b: u32)
    ensures
        a >= 1000 ==> clamped_tps(a) == 1000,
        a <= 1 ==> clamped_tps(a) == 1,
        a <= b ==> clamped_tps(a) <= clamped_tps(b),
        clamped_tps(a) <= a || a == 0,
{
}

/// A step gives exactly one generation: the board after `stepped(w, n)` holds
/// the candidate cells of `w` that Conway's rule keeps or brings to life in
/// `w`, no more and no less.
pub proof fn lemma_stepped_is_one_generation(w: World, n: World)
    requires
        stepped(w, n),
    ensures
        n.wf(),
        n.cells() == Set::new(
            |p: (int, int)| candidate_cells(w).contains(p) && next_alive(w.cells(), p),
        ),
{
}

/// At any speed the engine keeps, the interval between generations is
/// between 1 and 1000 milliseconds.
pub proof fn lemma_tick_interval_range(tps: u32)
    requires
        1 <= tps <= 1000,
    ensures
        1 <= 1000int / (tps as int) <= 1000,
{
    assert(1 <= 1000int / (tps as int) <= 1000) by (nonlinear_arith)
        requires
            1 <= tps <= 1000,
    ;
}

/// The run state after `cmd`: `Start`, `Pause` and `Stop` set it, `Step` and
/// `SetSpeed` keep it.
pub open spec fn state_after_command(s: EngineState, cmd: EngineCommand) -> EngineState {
    match cmd {
        EngineCommand::Start => EngineState::Running,
        EngineCommand::Stop => EngineState::Stopped,
        EngineCommand::Pause => EngineState::Paused,
        EngineCommand::Step => s,
        EngineCommand::SetSpeed(_) => s,
    }
}

/// The run state after the commands `cmds`, carried out in order from `s`.
pub open spec fn state_after_commands(s: EngineState, cmds: Seq<EngineCommand>) -> EngineState
    decreases cmds.len(),
{
    if cmds.len() == 0 {
        s
    } else {
        state_after_command(state_after_commands(s, cmds.drop_last()), cmds.last())
    }
}

/// Whether `cmd` sets the run state.
pub open spec fn sets_state(cmd: EngineCommand) -> bool {
    cmd is Start || cmd is Stop || cmd is Pause
}

/// After a run of commands the run state is the one set by the last `Start`,
/// `Pause` or `Stop` among them, and the starting state when there is none:
/// `Step` and `SetSpeed` never change it.
pub proof fn lemma_last_state_command_wins(s: EngineState, cmds: Seq<EngineCommand>)
    ensures
        (forall|i: int| 0 <= i < cmds.len() ==> !sets_state(#[trigger] cmds[i]))
            ==> state_after_commands(s, cmds) == s,
        forall|i: int|
            0 <= i < cmds.len() && sets_state(cmds[i]) && (forall|j: int|
                i < j < cmds.len() ==> !sets_state(#[trigger] cmds[j])) ==> state_after_commands(
                s,
                cmds,
            ) == state_after_command(s, #[trigger] cmds[i]),
    decreases cmds.len(),
{
    if cmds.len() > 0 {
        let init = cmds.drop_last();
        lemma_last_state_command_wins(s, init);
        assert forall|i: int|
            0 <= i < cmds.len() && sets_state(cmds[i]) && (forall|j: int|
                i < j < cmds.len() ==> !sets_state(#[trigger] cmds[j])) implies state_after_commands(
            s,
            cmds,
        ) == state_after_command(s, #[trigger] cmds[i]) by {
            if i < cmds.len() - 1 {
                assert(!sets_state(cmds[cmds.len() - 1]));
                assert(init[i] == cmds[i]);
                assert forall|j: int| i < j < init.len() implies !sets_state(#[trigger] init[j]) by {
                    assert(init[j] == cmds[j]);
                }
            }
        }
        if forall|i: int| 0 <= i < cmds.len() ==> !sets_state(#[trigger] cmds[i]) {
            assert forall|i: int| 0 <= i < init.len() implies !sets_state(#[trigger] init[i]) by {
                assert(init[i] == cmds[i]);
            }
            assert(!sets_state(cmds[cmds.len() - 1]));
        }
    }
}

/// The board after one generation step from `w` (see `LifeRule::apply_into`).
pub open spec fn stepped(w: World, next: World) -> bool {
    &&& next.wf()
    &&& next.cells() == Set::new(
        |p: (int, int)| candidate_cells(w).contains(p) && next_alive(w.cells(), p),
    )
    &&& next.dirty_keys() == Set::new(|k: u64| next.chunk_cells(k) != w.chunk_cells(k))
}

/// A Game of Life simulation and its controls.
pub struct Engine {
    world: World,
    next_world: World,
    state: EngineState,
    tick_count: u64,
    tps: u32,
}

impl Engine {
    /// The current board.
    pub closed spec fn world(self) -> World {
        self.world
    }

    pub closed spec fn state(self) -> EngineState {
        self.state
    }

    /// The number of generations computed since the last stop.
    pub closed spec fn tick_count(self) -> u64 {
        self.tick_count
    }

    /// The speed, in generations per second.
    pub closed spec fn tps(self) -> u32 {
        self.tps
    }

    /// A well-formed engine's current board is well formed.
    pub proof fn lemma_world_wf(self)
        requires
            self.wf(),
        ensures
            self.world().wf(),
    {
    }

    /// Both boards are well formed and the speed is in `1..=1000`.
    pub closed spec fn wf(self) -> bool {
        &&& self.world.wf()
        &&& self.next_world.wf()
        &&& 1 <= self.tps <= 1000
    }

    pub fn new() -> (e: Self)
        ensures
            e.wf(),
            e.world().wf(),
            e.world().cells() == Set::<(int, int)>::empty(),
            e.world().dirty_keys() == Set::<u64>::empty(),
            e.state() == EngineState::Stopped,
            e.tick_count() == 0,
            e.tps() == 10,
    {
        Self {
            world: World::new(),
            next_world: World::new(),
            state: EngineState::Stopped,
            tick_count: 0,
            tps: 10,
        }
    }

    pub fn get_world(&self) -> (w: &World)
        ensures
            *w == self.world(),
            self.wf() ==> w.wf(),
    {
        &self.world
    }

    /// Replaces the current board.
    pub fn set_world(&mut self, world: World)
        requires
            old(self).wf(),
            world.wf(),
        ensures
            final(self).wf(),
            final(self).world().wf(),
            final(self).world() == world,
            final(self).state() == old(self).state(),
            final(self).tick_count() == old(self).tick_count(),
            final(self).tps() == old(self).tps(),
    {
        self.world = world;
    }

    pub fn get_state(&self) -> (s: EngineState)
        ensures
            s == self.state(),
    {
        self.state
    }

    pub fn get_tps(&self) -> (t: u32)
        ensures
            t == self.tps(),
    {
        self.tps
    }

    /// Sets the speed, clamped to `1..=1000` generations per second.
    pub fn set_tps(&mut self, new_tps: u32)
        requires
            old(self).wf(),
        ensures
            final(self).wf(),
            final(self).world().wf(),
            final(self).tps() == clamped_tps(new_tps),
            new_tps > 1000 ==> final(self).tps() == 1000,
            new_tps < 1 ==> final(self).tps() == 1,
            1 <= new_tps <= 1000 ==> final(self).tps() == new_tps,
            final(self).world() == old(self).world(),
            final(self).state() == old(self).state(),
            final(self).tick_count() == old(self).tick_count(),
    {
        let tps = u32_clamp(new_tps, 1, 1000);
        self.tps = tps;
    }

    /// Computes the next generation, makes it the current board, and counts
    /// one more generation.
    pub fn step(&mut self, rule: &LifeRule)
        requires
            old(self).wf(),
            step_fits(old(self).world()),
            old(self).tick_count() < u64::MAX,
        ensures
            final(self).wf(),
            stepped(old(self).world(), final(self).world()),
            final(self).world().cells() == Set::new(
                |p: (int, int)|
                    candidate_cells(old(self).world()).contains(p) && next_alive(
                        old(self).world().cells(),
                        p,
                    ),
            ),
            final(self).tick_count() == old(self).tick_count() + 1,
            final(self).state() == old(self).state(),
            final(self).tps() == old(self).tps(),
    {
        rule.apply_into(&self.world, &mut self.next_world);
        let mut computed = World::new();
        std::mem::swap(&mut self.next_world, &mut computed);
        self.world = computed;
        self.tick_count = self.tick_count + 1;
    }

    /// Sets the generation counter back to 0.
    pub fn reset_tick_count(&mut self)
        requires
            old(self).wf(),
        ensures
            final(self).wf(),
            final(self).world().wf(),
            final(self).tick_count() == 0,
            final(self).world() == old(self).world(),
            final(self).state() == old(self).state(),
            final(self).tps() == old(self).tps(),
    {
        self.tick_count = 0;
    }
}

impl Engine {
    /// Whether `step` may run: the next generation stays inside `i32`
    /// arithmetic and the generation counter can still grow.
    pub fn can_step(&self, rule: &LifeRule) -> (r: bool)
        requires
            self.wf(),
        ensures
            r == (step_fits(self.world()) && self.tick_count() < u64::MAX),
    {
        self.tick_count < u64::MAX && rule.can_apply(&self.world)
    }

    /// Carries out one command: `Start`, `Pause` and `Stop` set the run state
    /// (`Stop` also resets the generation counter), `Step` computes one
    /// generation and `SetSpeed` sets the clamped speed.
    pub fn handle_command(&mut self, cmd: EngineCommand, rule: &LifeRule)
        requires
            old(self).wf(),
            cmd == EngineCommand::Step ==> step_fits(old(self).world()) && old(self).tick_count()
                < u64::MAX,
        ensures
            final(self).wf(),
            final(self).world().wf(),
            final(self).state() == state_after_command(old(self).state(), cmd),
            match cmd {
                EngineCommand::Start => {
                    &&& final(self).state() == EngineState::Running
                    &&& final(self).world() == old(self).world()
                    &&& final(self).tick_count() == old(self).tick_count()
                    &&& final(self).tps() == old(self).tps()
                },
                EngineCommand::Stop => {
                    &&& final(self).state() == EngineState::Stopped
                    &&& final(self).world() == old(self).world()
                    &&& final(self).tick_count() == 0
                    &&& final(self).tps() == old(self).tps()
                },
                EngineCommand::Pause => {
                    &&& final(self).state() == EngineState::Paused
                    &&& final(self).world() == old(self).world()
                    &&& final(self).tick_count() == old(self).tick_count()
                    &&& final(self).tps() == old(self).tps()
                },
                EngineCommand::Step => {
                    &&& stepped(old(self).world(), final(self).world())
                    &&& final(self).world().cells() == Set::new(
                        |p: (int, int)|
                            candidate_cells(old(self).world()).contains(p) && next_alive(
                                old(self).world().cells(),
                                p,
                            ),
                    )
                    &&& final(self).tick_count() == old(self).tick_count() + 1
                    &&& final(self).state() == old(self).state()
                    &&& final(self).tps() == old(self).tps()
                },
                EngineCommand::SetSpeed(t) => {
                    &&& final(self).tps() == clamped_tps(t)
                    &&& (t > 1000 ==> final(self).tps() == 1000)
                    &&& (t < 1 ==> final(self).tps() == 1)
                    &&& (1 <= t <= 1000 ==> final(self).tps() == t)
                    &&& final(self).world() == old(self).world()
                    &&& final(self).state() == old(self).state()
                    &&& final(self).tick_count() == old(self).tick_count()
                },
            },
    {
        match cmd {
            EngineCommand::Start => {
                self.state = EngineState::Running;
            },
            EngineCommand::Stop => {
                self.state = EngineState::Stopped;
                self.reset_tick_count();
            },
            EngineCommand::Pause => {
                self.state = EngineState::Paused;
            },
            EngineCommand::Step => {
                self.step(rule);
            },
            EngineCommand::SetSpeed(tps) => {
                self.set_tps(tps);
            },
        }
    }

    /// One round of the simulation thread after its commands: a running
    /// engine computes a generation and asks to wait out its tick; any other
    /// engine is left as it is and asks to look again after 1 millisecond.
    pub fn tick(&mut self, rule: &LifeRule) -> (a: TickAction)
        requires
            old(self).wf(),
            old(self).state() == EngineState::Running ==> step_fits(old(self).world())
                && old(self).tick_count() < u64::MAX,
        ensures
            final(self).wf(),
            final(self).world().wf(),
            final(self).state() == old(self).state(),
            final(self).tps() == old(self).tps(),
            old(self).state() == EngineState::Running ==> {
                &&& a == TickAction::Stepped((1000int / (old(self).tps() as int)) as u64)
                &&& stepped(old(self).world(), final(self).world())
                &&& final(self).world().cells() == Set::new(
                    |p: (int, int)|
                        candidate_cells(old(self).world()).contains(p) && next_alive(
                            old(self).world().cells(),
                            p,
                        ),
                )
                &&& final(self).tick_count() == old(self).tick_count() + 1
            },
            old(self).state() != EngineState::Running ==> {
                &&& a == TickAction::Idle(1)
                &&& final(self).world() == old(self).world()
                &&& final(self).tick_count() == old(self).tick_count()
            },
    {
        if self.state == EngineState::Running {
            self.step(rule);
            TickAction::Stepped(self.tick_interval_ms())
        } else {
            TickAction::Idle(1)
        }
    }

    /// The time between two generations while running, in milliseconds.
    pub fn tick_interval_ms(&self) -> (ms: u64)
        requires
            self.wf(),
        ensures
            ms == 1000int / (self.tps() as int),
    {
        1000 / (self.tps as u64)
    }
}

impl Default for Engine {
    fn default() -> (e: Self)
        ensures
            e.wf(),
            e.world().wf(),
            e.world().cells() == Set::<(int, int)>::empty(),
            e.state() == EngineState::Stopped,
            e.tick_count() == 0,
            e.tps() == 10,
    {
        Self::new()
    }
}

} // verus!
