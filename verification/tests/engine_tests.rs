use cellular_automata::coords::Coord;
use cellular_automata::engine::{Engine, EngineCommand, EngineState, TickAction};
use cellular_automata::life_rule::LifeRule;
use cellular_automata::world::World;

fn cells_of(w: &World) -> Vec<(i32, i32)> {
    let mut v: Vec<(i32, i32)> = w.iter_active_cells().into_iter().map(|c| (c.x, c.y)).collect();
    v.sort();
    v
}

#[test]
fn new_engine_defaults() {
    let e = Engine::new();
    assert_eq!(e.get_state(), EngineState::Stopped);
    assert_eq!(e.get_tps(), 10);
    assert_eq!(e.tick_interval_ms(), 100);
    assert!(cells_of(e.get_world()).is_empty());
    let d = Engine::default();
    assert_eq!(d.get_state(), EngineState::Stopped);
}

#[test]
fn set_tps_clamps() {
    let mut e = Engine::new();
    e.set_tps(0);
    assert_eq!(e.get_tps(), 1);
    assert_eq!(e.tick_interval_ms(), 1000);
    e.set_tps(5000);
    assert_eq!(e.get_tps(), 1000);
    assert_eq!(e.tick_interval_ms(), 1);
    e.set_tps(3);
    assert_eq!(e.get_tps(), 3);
    assert_eq!(e.tick_interval_ms(), 333);
}

#[test]
fn commands_set_the_state() {
    let rule = LifeRule::new();
    let mut e = Engine::new();
    e.handle_command(EngineCommand::Start, &rule);
    assert_eq!(e.get_state(), EngineState::Running);
    e.handle_command(EngineCommand::Pause, &rule);
    assert_eq!(e.get_state(), EngineState::Paused);
    e.handle_command(EngineCommand::SetSpeed(60), &rule);
    assert_eq!(e.get_tps(), 60);
    e.handle_command(EngineCommand::Stop, &rule);
    assert_eq!(e.get_state(), EngineState::Stopped);
}

#[test]
fn step_advances_the_world() {
    let rule = LifeRule::new();
    let mut e = Engine::new();
    let mut w = World::new();
    for &(x, y) in &[(0, 0), (1, 0), (2, 0)] {
        w.set_cell(Coord::new(x, y), true);
    }
    e.set_world(w);
    assert!(e.can_step(&rule));
    e.step(&rule);
    assert_eq!(cells_of(e.get_world()), vec![(1, -1), (1, 0), (1, 1)]);
    e.handle_command(EngineCommand::Step, &rule);
    assert_eq!(cells_of(e.get_world()), vec![(0, 0), (1, 0), (2, 0)]);
    assert_eq!(e.get_state(), EngineState::Stopped);
}

#[test]
fn can_step_refuses_the_edge_of_the_plane() {
    let rule = LifeRule::new();
    let mut e = Engine::new();
    let mut w = World::new();
    w.set_cell(Coord::new(i32::MIN, 0), true);
    e.set_world(w);
    assert!(!e.can_step(&rule));
}

#[test]
fn tick_steps_only_when_running() {
    let rule = LifeRule::new();
    let mut e = Engine::new();
    let mut w = World::new();
    for &(x, y) in &[(0, 0), (1, 0), (2, 0)] {
        w.set_cell(Coord::new(x, y), true);
    }
    e.set_world(w);
    assert_eq!(e.tick(&rule), TickAction::Idle(1));
    assert_eq!(cells_of(e.get_world()), vec![(0, 0), (1, 0), (2, 0)]);
    e.handle_command(EngineCommand::SetSpeed(4), &rule);
    e.handle_command(EngineCommand::Start, &rule);
    assert_eq!(e.tick(&rule), TickAction::Stepped(250));
    assert_eq!(cells_of(e.get_world()), vec![(1, -1), (1, 0), (1, 1)]);
    e.handle_command(EngineCommand::Pause, &rule);
    assert_eq!(e.tick(&rule), TickAction::Idle(1));
    assert_eq!(cells_of(e.get_world()), vec![(1, -1), (1, 0), (1, 1)]);
}

#[test]
fn last_state_command_wins() {
    let rule = LifeRule::new();
    let mut e = Engine::new();
    for cmd in [EngineCommand::Start, EngineCommand::SetSpeed(0), EngineCommand::Pause, EngineCommand::Step, EngineCommand::SetSpeed(7)] {
        e.handle_command(cmd, &rule);
    }
    assert_eq!(e.get_state(), EngineState::Paused);
    assert_eq!(e.get_tps(), 7);
}
