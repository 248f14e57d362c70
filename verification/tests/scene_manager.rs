use rust4d::{Duration, SceneError, SceneManager, TransitionEffect};

#[test]
fn scene_manager_test_new() {
    let manager = SceneManager::new();
    assert!(manager.active_scene_name().is_none());
    assert_eq!(manager.stack_depth(), 0);
}

#[test]
fn test_push_scene() {
    let mut manager = SceneManager::new();
    manager.register_active_scene("main");

    let result = manager.push_scene("main");
    assert!(result.is_ok());
    assert_eq!(manager.stack_depth(), 1);
    assert_eq!(manager.active_scene_name(), Some("main"));
}

#[test]
fn test_push_scene_not_loaded() {
    let mut manager = SceneManager::new();
    let result = manager.push_scene("nonexistent");
    assert!(result.is_err());
    match result {
        Err(SceneError::NotLoaded(name)) => assert_eq!(name, "nonexistent"),
        _ => panic!("Expected NotLoaded error"),
    }
}

#[test]
fn test_pop_scene() {
    let mut manager = SceneManager::new();
    manager.register_active_scene("test");
    manager.push_scene("test").unwrap();

    let popped = manager.pop_scene();
    assert_eq!(popped, Some("test".to_string()));
    assert_eq!(manager.stack_depth(), 0);
    assert!(manager.active_scene_name().is_none());
    assert!(manager.has_scene("test"));
}

#[test]
fn test_switch_to() {
    let mut manager = SceneManager::new();
    manager.register_active_scene("scene1");
    manager.register_active_scene("scene2");

    manager.push_scene("scene1").unwrap();
    assert_eq!(manager.active_scene_name(), Some("scene1"));

    let result = manager.switch_to("scene2");
    assert!(result.is_ok());
    assert_eq!(manager.stack_depth(), 1);
    assert_eq!(manager.active_scene_name(), Some("scene2"));
}

#[test]
fn test_switch_to_empty_stack() {
    let mut manager = SceneManager::new();
    manager.register_active_scene("test");

    let result = manager.switch_to("test");
    assert!(result.is_ok());
    assert_eq!(manager.stack_depth(), 1);
    assert_eq!(manager.active_scene_name(), Some("test"));
}

#[test]
fn test_scene_stack_overlay() {
    let mut manager = SceneManager::new();
    manager.register_active_scene("game");
    manager.register_active_scene("pause");

    manager.push_scene("game").unwrap();
    assert_eq!(manager.active_scene_name(), Some("game"));

    manager.push_scene("pause").unwrap();
    assert_eq!(manager.stack_depth(), 2);
    assert_eq!(manager.active_scene_name(), Some("pause"));

    assert!(manager.is_scene_active("game"));
    assert!(manager.is_scene_active("pause"));

    manager.pop_scene();
    assert_eq!(manager.stack_depth(), 1);
    assert_eq!(manager.active_scene_name(), Some("game"));
}

#[test]
fn test_scene_not_loaded_error() {
    let mut manager = SceneManager::new();
    let result = manager.instantiate("nonexistent");
    assert!(result.is_err());
    match result {
        Err(SceneError::NotLoaded(name)) => assert_eq!(name, "nonexistent"),
        _ => panic!("Expected NotLoaded error"),
    }
}

#[test]
fn test_register_template() {
    let mut manager = SceneManager::new();
    manager.register_template("My Template");
    assert!(manager.has_template("My Template"));
    assert!(!manager.has_template("Other"));
}

#[test]
fn test_instantiate_from_template() {
    let mut manager = SceneManager::new();
    manager.register_template("Level 1");

    let result = manager.instantiate("Level 1");
    assert!(result.is_ok());
    assert!(manager.has_scene("Level 1"));
}

#[test]
fn test_switch_with_transition() {
    let mut manager = SceneManager::new();
    manager.register_active_scene("scene1");
    manager.register_active_scene("scene2");
    manager.push_scene("scene1").unwrap();

    let result = manager.switch_to_with_transition(
        "scene2",
        TransitionEffect::Fade {
            duration: Duration::from_secs(1),
        },
    );
    assert!(result.is_ok());
    assert!(manager.is_transitioning());
    assert!(manager.current_transition().is_some());

    assert_eq!(manager.active_scene_name(), Some("scene1"));
}

#[test]
fn test_switch_with_transition_not_loaded() {
    let mut manager = SceneManager::new();
    let result = manager.switch_to_with_transition("nonexistent", TransitionEffect::Instant);
    assert!(result.is_err());
    match result {
        Err(SceneError::NotLoaded(name)) => assert_eq!(name, "nonexistent"),
        _ => panic!("Expected NotLoaded error"),
    }
}

#[test]
fn test_update_transition_completes_instant() {
    let mut manager = SceneManager::new();
    manager.register_active_scene("scene1");
    manager.register_active_scene("scene2");
    manager.push_scene("scene1").unwrap();

    manager
        .switch_to_with_transition("scene2", TransitionEffect::Instant)
        .unwrap();
    let completed = manager.update_transition(Duration::zero());
    assert!(completed);
    assert!(!manager.is_transitioning());
    assert_eq!(manager.active_scene_name(), Some("scene2"));
}

#[test]
fn test_is_transitioning() {
    let mut manager = SceneManager::new();
    manager.register_active_scene("test");

    assert!(!manager.is_transitioning());

    manager
        .switch_to_with_transition(
            "test",
            TransitionEffect::Fade {
                duration: Duration::from_secs(10),
            },
        )
        .unwrap();
    assert!(manager.is_transitioning());
}

#[test]
fn test_update_transition_no_transition() {
    let mut manager = SceneManager::new();
    let completed = manager.update_transition(Duration::from_secs(5));
    assert!(!completed);
}

#[test]
fn test_push_overlay() {
    let mut manager = SceneManager::new();
    manager.register_active_scene("game");
    manager.register_active_scene("hud");
    manager.push_scene("game").unwrap();

    let result = manager.push_overlay("hud");
    assert!(result.is_ok());
    assert_eq!(manager.overlays().len(), 1);
    assert_eq!(manager.overlays()[0], "hud");
}

#[test]
fn test_pop_overlay() {
    let mut manager = SceneManager::new();
    manager.register_active_scene("game");
    manager.register_active_scene("hud");
    manager.push_scene("game").unwrap();

    manager.push_overlay("hud").unwrap();
    let popped = manager.pop_overlay();
    assert_eq!(popped, Some("hud".to_string()));
    assert!(manager.overlays().is_empty());
}

#[test]
fn test_pop_overlay_empty() {
    let mut manager = SceneManager::new();
    let popped = manager.pop_overlay();
    assert!(popped.is_none());
}

#[test]
fn test_overlay_not_loaded_error() {
    let mut manager = SceneManager::new();
    let result = manager.push_overlay("nonexistent");
    assert!(result.is_err());
    match result {
        Err(SceneError::NotLoaded(name)) => assert_eq!(name, "nonexistent"),
        _ => panic!("Expected NotLoaded error"),
    }
}

#[test]
fn test_overlays_accessor() {
    let mut manager = SceneManager::new();
    manager.register_active_scene("hud");
    manager.register_active_scene("minimap");

    assert!(manager.overlays().is_empty());

    manager.push_overlay("hud").unwrap();
    manager.push_overlay("minimap").unwrap();

    let overlays = manager.overlays();
    assert_eq!(overlays.len(), 2);
    assert_eq!(overlays[0], "hud");
    assert_eq!(overlays[1], "minimap");
}

#[test]
fn test_is_overlay() {
    let mut manager = SceneManager::new();
    manager.register_active_scene("hud");
    manager.register_active_scene("game");

    manager.push_overlay("hud").unwrap();

    assert!(manager.is_overlay("hud"));
    assert!(!manager.is_overlay("game"));
    assert!(!manager.is_overlay("nonexistent"));
}

#[test]
fn scene_manager_timed_transition_waits_for_its_duration() {
    let mut manager = SceneManager::new();
    manager.register_active_scene("a");
    manager.register_active_scene("b");
    manager.push_scene("a").unwrap();
    manager
        .switch_to_with_transition(
            "b",
            TransitionEffect::Crossfade {
                duration: Duration::from_millis(1500),
            },
        )
        .unwrap();
    let t = manager.current_transition().unwrap();
    assert_eq!(t.from_scene, "a");
    assert_eq!(t.to_scene, "b");
    assert!(!manager.update_transition(Duration::new(1, 499_999_999)));
    assert_eq!(manager.active_scene_name(), Some("a"));
    assert!(manager.update_transition(Duration::new(1, 500_000_000)));
    assert_eq!(manager.active_scene_name(), Some("b"));
    assert_eq!(manager.stack_depth(), 1);
}

#[test]
fn scene_error_messages() {
    assert_eq!(
        SceneError::NotLoaded("x".to_string()).message(),
        "Scene not loaded: x"
    );
    assert_eq!(SceneError::NoActiveScene.message(), "No active scene");
    let io = std::io::Error::new(std::io::ErrorKind::NotFound, "gone");
    assert_eq!(SceneError::from(io).message(), "IO error: gone");
}

#[test]
fn scene_registration_keeps_names_once() {
    let mut manager = SceneManager::new();
    manager.register_active_scene("a");
    manager.register_active_scene("a");
    manager.push_scene("a").unwrap();
    manager.push_scene("a").unwrap();
    assert_eq!(manager.stack_depth(), 2);
    assert_eq!(manager.switch_to("zzz").is_err(), true);
    assert_eq!(manager.stack_depth(), 2);
}

#[test]
fn scene_manager_test_default() {
    let manager = SceneManager::default();
    assert!(manager.active_scene_name().is_none());
}

#[test]
fn test_register_active_scene() {
    let mut manager = SceneManager::new();
    manager.register_active_scene("test");
    assert!(manager.has_scene("test"));
    assert!(!manager.has_scene("other"));
}
