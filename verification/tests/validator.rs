use rust4d::SceneValidator;

#[test]
fn duplicate_names_are_reported_per_repeat() {
    let names = vec![
        Some("cube".to_string()),
        None,
        Some("floor".to_string()),
        Some("cube".to_string()),
        None,
        Some("cube".to_string()),
    ];
    assert_eq!(
        SceneValidator::duplicate_names(&names),
        vec!["cube".to_string(), "cube".to_string()]
    );
}

#[test]
fn unnamed_entities_dont_trigger_duplicate() {
    let names = vec![None, None, Some("a".to_string())];
    assert!(SceneValidator::duplicate_names(&names).is_empty());
    assert!(SceneValidator::is_empty_scene(0));
    assert!(!SceneValidator::is_empty_scene(3));
}
