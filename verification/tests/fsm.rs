use rust4d::StateMachine;

#[derive(Debug, Clone, PartialEq, Eq)]
enum TestState {
    Idle,
    Walking,
    Jumping,
    Falling,
}

#[test]
fn test_new_initial_state() {
    let fsm = StateMachine::new(TestState::Idle);
    assert_eq!(fsm.current(), &TestState::Idle);
}

#[test]
fn test_is_in() {
    let fsm = StateMachine::new(TestState::Idle);
    assert!(fsm.is_in(&TestState::Idle));
    assert!(!fsm.is_in(&TestState::Walking));
    assert!(!fsm.is_in(&TestState::Jumping));
}

#[test]
fn test_transition_changes_state() {
    let mut fsm = StateMachine::new(TestState::Idle);
    let changed = fsm.transition(TestState::Walking);
    assert!(changed);
    assert_eq!(fsm.current(), &TestState::Walking);
    assert!(fsm.is_in(&TestState::Walking));
    assert!(!fsm.is_in(&TestState::Idle));
}

#[test]
fn test_transition_same_state_returns_false() {
    let mut fsm = StateMachine::new(TestState::Idle);
    let changed = fsm.transition(TestState::Idle);
    assert!(!changed);
    assert!(fsm.is_in(&TestState::Idle));
}

#[test]
fn test_multiple_transitions() {
    let mut fsm = StateMachine::new(TestState::Idle);

    assert!(fsm.transition(TestState::Walking));
    assert_eq!(fsm.current(), &TestState::Walking);

    assert!(fsm.transition(TestState::Jumping));
    assert_eq!(fsm.current(), &TestState::Jumping);

    assert!(fsm.transition(TestState::Falling));
    assert_eq!(fsm.current(), &TestState::Falling);

    assert!(fsm.transition(TestState::Idle));
    assert_eq!(fsm.current(), &TestState::Idle);
}

#[test]
fn test_works_with_integer_states() {
    let mut fsm = StateMachine::new(0u32);
    assert!(fsm.is_in(&0));
    assert!(fsm.transition(1));
    assert!(fsm.is_in(&1));
    assert!(!fsm.transition(1));
}

#[test]
fn test_works_with_string_states() {
    let mut fsm = StateMachine::new("idle".to_string());
    assert!(fsm.is_in(&"idle".to_string()));
    assert!(fsm.transition("running".to_string()));
    assert!(fsm.is_in(&"running".to_string()));
}

#[test]
fn test_previous_is_none_initially() {
    let fsm = StateMachine::new(TestState::Idle);
    assert!(fsm.previous().is_none());
}

#[test]
fn test_previous_set_on_transition() {
    let mut fsm = StateMachine::new(TestState::Idle);
    fsm.transition(TestState::Walking);

    assert_eq!(fsm.previous(), Some(&TestState::Idle));
}

#[test]
fn test_previous_tracks_last_transition() {
    let mut fsm = StateMachine::new(TestState::Idle);
    fsm.transition(TestState::Walking);
    fsm.transition(TestState::Jumping);

    assert_eq!(fsm.previous(), Some(&TestState::Walking));
}

#[test]
fn test_previous_unchanged_on_same_state_transition() {
    let mut fsm = StateMachine::new(TestState::Idle);
    fsm.transition(TestState::Walking);
    fsm.transition(TestState::Walking);

    assert_eq!(fsm.previous(), Some(&TestState::Idle));
}

#[test]
fn documented_example_sequence() {
    let mut fsm = StateMachine::new(TestState::Idle);
    assert!(fsm.is_in(&TestState::Idle));
    assert!(fsm.transition(TestState::Walking));
    assert!(fsm.is_in(&TestState::Walking));
    assert_eq!(fsm.previous(), Some(&TestState::Idle));
    assert!(!fsm.transition(TestState::Walking));
}
