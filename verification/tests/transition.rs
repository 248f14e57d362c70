use rust4d::{Duration, SlideDirection, TransitionEffect};

#[test]
fn test_transition_effect_duration() {
    assert_eq!(TransitionEffect::Instant.duration(), Duration::zero());

    assert_eq!(
        TransitionEffect::Fade {
            duration: Duration::from_secs(2)
        }
        .duration(),
        Duration::from_secs(2)
    );

    assert_eq!(
        TransitionEffect::Crossfade {
            duration: Duration::from_millis(500)
        }
        .duration(),
        Duration::from_millis(500)
    );

    assert_eq!(
        TransitionEffect::Slide {
            duration: Duration::from_secs(1),
            direction: SlideDirection::Up,
        }
        .duration(),
        Duration::from_secs(1)
    );
}

#[test]
fn test_slide_directions() {
    assert_ne!(SlideDirection::Left, SlideDirection::Right);
    assert_ne!(SlideDirection::Up, SlideDirection::Down);
    assert_ne!(SlideDirection::Left, SlideDirection::Up);
    assert_eq!(SlideDirection::Left.clone(), SlideDirection::Left);
}

#[test]
fn durations_split_into_seconds_and_nanoseconds() {
    let d = Duration::from_millis(2500);
    assert_eq!(d.as_secs(), 2);
    assert_eq!(d.subsec_nanos(), 500_000_000);
    assert!(Duration::zero().is_zero());
    assert!(!d.is_zero());
    assert_eq!(Duration::new(1, 5).subsec_nanos(), 5);
}

#[test]
fn duration_new_carries_excess_nanoseconds() {
    let d = Duration::new(1, 2_500_000_000);
    assert_eq!(d.as_secs(), 3);
    assert_eq!(d.subsec_nanos(), 500_000_000);
}
