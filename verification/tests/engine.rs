use pyri_state::app::{PyriStatePlugin, ResolveStatePlugin, StateConfig};
use pyri_state::channel::{ComputeRule, Hook};
use pyri_state::pattern::Pattern;
use pyri_state::schedule::resolve_state::ResolveStateSet;
use pyri_state::schedule::{StateFlush, StateFlushEvent, TraceStep};
use pyri_state::storage::StateStorage;
use pyri_state::StateError;

fn count_step(trace: &Vec<TraceStep>, s: TraceStep) -> usize {
    trace.iter().filter(|t| **t == s).count()
}

fn pos_of(trace: &Vec<TraceStep>, s: TraceStep) -> Option<usize> {
    trace.iter().position(|t| *t == s)
}

#[test]
fn foo() {
    const SPLASH: u64 = 0;
    const PLAYING: u64 = 2;
    let mut app = PyriStatePlugin.build();
    let game = app.init_state_(1, SPLASH).unwrap();
    let paused = {
        let mut cfg = StateConfig::standard(2, StateStorage::slot_empty());
        ResolveStatePlugin::new(Vec::new(), Vec::new()).after(game).build(&mut cfg);
        app.insert_state_(cfg).unwrap()
    };
    let level = {
        let mut cfg = StateConfig::standard(3, StateStorage::slot_empty());
        ResolveStatePlugin::new(Vec::new(), Vec::new()).after(game).build(&mut cfg);
        app.insert_state_(cfg).unwrap()
    };
    let color = {
        let mut cfg = StateConfig::standard(4, StateStorage::slot_empty());
        cfg.compute = ComputeRule::MapFrom { dep: level, offset: 0 };
        app.insert_state_(cfg).unwrap()
    };
    app.add_hook(game, Hook::on_exit(Pattern::Value(PLAYING), 10));
    app.add_hook(game, Hook::on_enter(Pattern::Value(PLAYING), 11));
    let (unpause, pause) = Hook::on_edge(Pattern::Any, 20, 21);
    app.add_hook(paused, unpause);
    app.add_hook(paused, pause);
    app.add_hook(level, Hook::on_exit(Pattern::Any, 30));
    app.add_hook(level, Hook::on_enter(Pattern::Any, 31));
    app.add_hook(color, Hook::on_exit(Pattern::Any, 40));
    app.add_hook(color, Hook::on_enter(Pattern::Any, 41));
    app.add_hook(level, Hook::on_exit(Pattern::Range(3, 8), 32));
    assert!(app.build().is_ok());
}

#[test]
fn round_trip_commits() {
    let mut sf = StateFlush::new();
    let i = sf.add_state_(7).unwrap();
    sf.build().unwrap();
    sf.set_next(i, Some(42));
    let _ = sf.tick();
    assert_eq!(sf.get_current(i), Some(42));
    assert!(!sf.is_triggered(i));
}

#[test]
fn trigger_twice_same_flush_flag() {
    let mut sf = StateFlush::new();
    let i = sf.add_state_(7).unwrap();
    sf.build().unwrap();
    sf.set_next(i, Some(5));
    sf.trigger(i);
    let first = sf.is_triggered(i);
    sf.trigger(i);
    let second = sf.is_triggered(i);
    assert_eq!(first, second);
    assert!(first);
}

#[test]
fn transition_fires_exit_trans_enter_once_in_order() {
    let mut sf = StateFlush::new();
    let i = sf.init_state_(9, 1).unwrap();
    sf.add_hook(i, Hook::on_exit(Pattern::Value(1), 100));
    sf.add_hook(i, Hook::on_trans(Pattern::Value(1), Pattern::Value(2), 101));
    sf.add_hook(i, Hook::on_enter(Pattern::Value(2), 102));
    sf.build().unwrap();
    let _ = sf.tick();
    assert_eq!(sf.get_current(i), Some(1));
    sf.set_next(i, Some(2));
    let (trace, _) = sf.tick();
    assert_eq!(count_step(&trace, TraceStep::Phase(i, ResolveStateSet::Exit)), 1);
    assert_eq!(count_step(&trace, TraceStep::Phase(i, ResolveStateSet::Trans)), 1);
    assert_eq!(count_step(&trace, TraceStep::Phase(i, ResolveStateSet::Enter)), 1);
    let e = pos_of(&trace, TraceStep::Phase(i, ResolveStateSet::Exit)).unwrap();
    let t = pos_of(&trace, TraceStep::Phase(i, ResolveStateSet::Trans)).unwrap();
    let n = pos_of(&trace, TraceStep::Phase(i, ResolveStateSet::Enter)).unwrap();
    assert!(e < t && t < n);
    assert_eq!(count_step(&trace, TraceStep::Hook(i, 100)), 1);
    assert_eq!(count_step(&trace, TraceStep::Hook(i, 101)), 1);
    assert_eq!(count_step(&trace, TraceStep::Hook(i, 102)), 1);
    let a = pos_of(&trace, TraceStep::Apply(i)).unwrap();
    assert!(n < a);
    assert_eq!(sf.get_current(i), Some(2));
}

#[test]
fn disable_fires_exit_but_never_enter() {
    let mut sf = StateFlush::new();
    let i = sf.init_state_(9, 1).unwrap();
    sf.build().unwrap();
    let _ = sf.tick();
    sf.set_next(i, None);
    let (trace, _) = sf.tick();
    assert_eq!(count_step(&trace, TraceStep::Phase(i, ResolveStateSet::Exit)), 1);
    assert_eq!(count_step(&trace, TraceStep::Phase(i, ResolveStateSet::AnyExit)), 1);
    assert_eq!(count_step(&trace, TraceStep::Phase(i, ResolveStateSet::Enter)), 0);
    assert_eq!(count_step(&trace, TraceStep::Phase(i, ResolveStateSet::Trans)), 0);
    assert_eq!(count_step(&trace, TraceStep::Phase(i, ResolveStateSet::AnyEnter)), 0);
    assert_eq!(count_step(&trace, TraceStep::Phase(i, ResolveStateSet::AnyTrans)), 0);
    assert_eq!(sf.get_current(i), None);
}

#[test]
fn substate_disables_with_root() {
    const A: u64 = 1;
    const B: u64 = 2;
    const CHILD_VAL: u64 = 10;
    let mut sf = StateFlush::new();
    let root = sf.init_state_(1, A).unwrap();
    let child = {
        let mut cfg = StateConfig::standard(2, StateStorage::slot_empty());
        cfg.compute = ComputeRule::EnableWhen { dep: root, when: A, value: CHILD_VAL };
        sf.insert_state_(cfg).unwrap()
    };
    let derived = {
        let mut cfg = StateConfig::standard(3, StateStorage::slot_empty());
        cfg.compute = ComputeRule::MapFrom { dep: child, offset: 5 };
        sf.insert_state_(cfg).unwrap()
    };
    sf.add_hook(root, Hook::on_exit(Pattern::Value(A), 11));
    sf.add_hook(root, Hook::on_enter(Pattern::Value(B), 12));
    sf.add_hook(child, Hook::on_enter(Pattern::Any, 21));
    sf.add_hook(derived, Hook::on_enter(Pattern::Any, 31));
    sf.build().unwrap();
    let _ = sf.tick();
    assert_eq!(sf.get_current(root), Some(A));
    assert_eq!(sf.get_current(child), Some(CHILD_VAL));
    assert_eq!(sf.get_current(derived), Some(CHILD_VAL + 5));
    let (quiet, _) = sf.tick();
    assert_eq!(count_step(&quiet, TraceStep::Apply(root)), 0);
    sf.set_next(root, Some(B));
    let (trace, _) = sf.tick();
    assert_eq!(count_step(&trace, TraceStep::Hook(root, 11)), 1);
    assert_eq!(count_step(&trace, TraceStep::Hook(root, 12)), 1);
    assert_eq!(count_step(&trace, TraceStep::Phase(child, ResolveStateSet::AnyExit)), 1);
    assert_eq!(count_step(&trace, TraceStep::Phase(child, ResolveStateSet::Enter)), 0);
    assert_eq!(count_step(&trace, TraceStep::Hook(child, 21)), 0);
    assert_eq!(count_step(&trace, TraceStep::Hook(derived, 31)), 0);
    assert_eq!(sf.get_current(child), None);
    assert_eq!(sf.get_next(child), None);
    assert_eq!(sf.get_current(derived), None);
}

#[test]
fn stack_pop_fires_exit_and_enter_same_tick() {
    const L1: u64 = 100;
    const L2: u64 = 200;
    let mut sf = StateFlush::new();
    let i = {
        let cfg = StateConfig::standard(5, StateStorage::Stack { current: None, stack: Vec::new() });
        sf.insert_state_(cfg).unwrap()
    };
    sf.add_hook(i, Hook::on_exit(Pattern::Any, 41));
    sf.add_hook(i, Hook::on_enter(Pattern::Any, 42));
    sf.build().unwrap();
    sf.push(i, L1);
    sf.push(i, L2);
    let _ = sf.tick();
    assert_eq!(sf.get_current(i), Some(L2));
    sf.pop(i);
    assert_eq!(sf.get_next(i), Some(L1));
    let (trace, _) = sf.tick();
    assert_eq!(count_step(&trace, TraceStep::Hook(i, 41)), 1);
    assert_eq!(count_step(&trace, TraceStep::Hook(i, 42)), 1);
    assert_eq!(sf.get_current(i), Some(L1));
}

#[test]
fn flush_event_carries_before_and_after() {
    let mut sf = StateFlush::new();
    let i = sf.init_state_(3, 8).unwrap();
    sf.build().unwrap();
    let (_, events) = sf.tick();
    assert_eq!(events.len(), 1);
    assert_eq!(events[0].0, i);
    assert_eq!(events[0].1, StateFlushEvent { before: None, after: Some(8) });
}

#[test]
fn cyclic_edges_fail_to_build() {
    let mut sf = StateFlush::new();
    let a = sf.add_state_(1).unwrap();
    let _b = {
        let mut cfg = StateConfig::standard(2, StateStorage::slot_empty());
        ResolveStatePlugin::new(Vec::new(), Vec::new()).after(a).before(a).build(&mut cfg);
        sf.insert_state_(cfg).unwrap()
    };
    assert_eq!(sf.build(), Err(StateError::CycleError));
    assert!(!sf.is_built());
}

#[test]
fn registration_is_idempotent_and_conflicts_are_reported() {
    let mut sf = StateFlush::new();
    let i = sf.add_state_(1).unwrap();
    let again = sf.add_state_(1).unwrap();
    assert_eq!(i, again);
    assert_eq!(sf.len(), 1);
    let mut other = StateConfig::standard(1, StateStorage::slot_empty());
    other.detect_change = false;
    assert_eq!(sf.insert_state_(other), Err(StateError::RegistrationConflict));
    let mut dangling = StateConfig::standard(2, StateStorage::slot_empty());
    dangling.compute = ComputeRule::MapFrom { dep: 9, offset: 0 };
    assert_eq!(sf.insert_state_(dangling), Err(StateError::RegistrationConflict));
}

#[test]
fn reading_a_disabled_channel_is_a_missing_value() {
    let mut sf = StateFlush::new();
    let i = sf.add_state_(1).unwrap();
    assert_eq!(sf.current_value(i), Err(StateError::MissingValue));
    assert_eq!(sf.next_value(i), Err(StateError::MissingValue));
    sf.set_next(i, Some(4));
    assert_eq!(sf.next_value(i), Ok(4));
}

#[test]
fn host_mirror_write_wins_and_flush_publishes() {
    let mut sf = StateFlush::new();
    let i = {
        let mut cfg = StateConfig::standard(6, StateStorage::slot_empty());
        cfg.bridge = true;
        sf.insert_state_(cfg).unwrap()
    };
    sf.build().unwrap();
    sf.set_next(i, Some(5));
    sf.set_mirror(i, Some(7));
    let _ = sf.tick();
    assert_eq!(sf.get_current(i), Some(7));
    assert_eq!(sf.take_mirror(i), Some(Some(7)));
    sf.set_next(i, Some(9));
    let _ = sf.tick();
    assert_eq!(sf.get_current(i), Some(9));
    assert_eq!(sf.take_mirror(i), Some(Some(9)));
}

#[test]
fn forced_flush_without_change() {
    let mut sf = StateFlush::new();
    let i = sf.init_state_(2, 4).unwrap();
    sf.add_hook(i, Hook::on_enter(Pattern::Any, 50));
    sf.build().unwrap();
    let _ = sf.tick();
    sf.set_flush(i, true);
    let (trace, _) = sf.tick();
    assert_eq!(count_step(&trace, TraceStep::Hook(i, 50)), 1);
    assert_eq!(count_step(&trace, TraceStep::Apply(i)), 1);
    assert_eq!(sf.get_current(i), Some(4));
    assert!(!sf.is_triggered(i));
}
