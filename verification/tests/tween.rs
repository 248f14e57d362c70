use rust4d::{EasingFunction, TweenState};

#[test]
fn test_easing_from_str() {
    assert_eq!(
        EasingFunction::from_str("linear"),
        Some(EasingFunction::Linear)
    );
    assert_eq!(
        EasingFunction::from_str("ease_in_quad"),
        Some(EasingFunction::EaseInQuad)
    );
    assert_eq!(
        EasingFunction::from_str("easeinquad"),
        Some(EasingFunction::EaseInQuad)
    );
    assert_eq!(
        EasingFunction::from_str("EASE_OUT_CUBIC"),
        Some(EasingFunction::EaseOutCubic)
    );
    assert!(EasingFunction::from_str("invalid").is_none());
    assert!(EasingFunction::from_str("").is_none());
}

#[test]
fn test_easing_name() {
    assert_eq!(EasingFunction::Linear.name(), "linear");
    assert_eq!(EasingFunction::EaseInQuad.name(), "ease_in_quad");
    assert_eq!(EasingFunction::EaseInOutCubic.name(), "ease_in_out_cubic");
}

#[test]
fn easing_names_round_trip() {
    let all = [
        EasingFunction::Linear,
        EasingFunction::EaseInQuad,
        EasingFunction::EaseOutQuad,
        EasingFunction::EaseInOutQuad,
        EasingFunction::EaseInCubic,
        EasingFunction::EaseOutCubic,
        EasingFunction::EaseInOutCubic,
    ];
    for e in all {
        assert_eq!(EasingFunction::from_str(e.name()), Some(e));
        assert_eq!(EasingFunction::from_lowercase(e.name()), Some(e));
    }
}

#[test]
fn easing_short_aliases_and_errors() {
    assert_eq!(EasingFunction::from_str("InOutQuad"), Some(EasingFunction::EaseInOutQuad));
    assert_eq!(EasingFunction::from_str("out_cubic"), Some(EasingFunction::EaseOutCubic));
    assert_eq!(EasingFunction::default(), EasingFunction::Linear);
    let err = EasingFunction::parse("wobble").unwrap_err();
    assert_eq!(err.input, "wobble");
    assert!(err.message().starts_with("unknown easing function 'wobble'"));
    let parsed: EasingFunction = "incubic".parse().unwrap();
    assert_eq!(parsed, EasingFunction::EaseInCubic);
    assert_ne!(TweenState::Running, TweenState::Paused);
    assert_ne!(TweenState::Paused, TweenState::Completed);
}

#[test]
fn easing_names_round_trip_in_upper_case() {
    let all = [
        EasingFunction::Linear,
        EasingFunction::EaseInQuad,
        EasingFunction::EaseOutQuad,
        EasingFunction::EaseInOutQuad,
        EasingFunction::EaseInCubic,
        EasingFunction::EaseOutCubic,
        EasingFunction::EaseInOutCubic,
    ];
    for e in all {
        assert_eq!(EasingFunction::from_str(e.name()), Some(e));
        assert_eq!(EasingFunction::from_str(&e.name().to_uppercase()), Some(e));
    }
}
