use rust4d::audio::allocate_sound_id;
use rust4d::{AudioBus, AudioError, SoundHandle};

#[test]
fn test_bus_names() {
    assert_eq!(AudioBus::Master.name(), "Master");
    assert_eq!(AudioBus::Sfx.name(), "SFX");
    assert_eq!(AudioBus::Music.name(), "Music");
    assert_eq!(AudioBus::Ambient.name(), "Ambient");
}

#[test]
fn test_bus_all() {
    let all = AudioBus::all();
    assert_eq!(all.len(), 4);
    assert!(all.contains(&AudioBus::Master));
    assert!(all.contains(&AudioBus::Sfx));
    assert!(all.contains(&AudioBus::Music));
    assert!(all.contains(&AudioBus::Ambient));
}

#[test]
fn test_audio_bus_default() {
    assert_eq!(AudioBus::default(), AudioBus::Sfx);
}

#[test]
fn test_sound_handle_id() {
    let handle = SoundHandle::new(42);
    assert_eq!(handle.id(), 42);
}

#[test]
fn test_sound_handle_equality() {
    let a = SoundHandle::new(1);
    let b = SoundHandle::new(1);
    let c = SoundHandle::new(2);

    assert_eq!(a, b);
    assert_ne!(a, c);
}

#[test]
fn test_sound_handle_clone() {
    let a = SoundHandle::new(42);
    let b = a;
    assert_eq!(a.id(), b.id());
}

#[test]
fn bus_routing_goes_through_master() {
    assert_eq!(AudioBus::Master.parent(), None);
    assert_eq!(AudioBus::Sfx.parent(), Some(AudioBus::Master));
    assert_eq!(AudioBus::Music.parent(), Some(AudioBus::Master));
    assert_eq!(AudioBus::Ambient.parent(), Some(AudioBus::Master));
}

#[test]
fn sound_ids_are_sequential_until_overflow() {
    let (h0, next) = allocate_sound_id(0).unwrap();
    assert_eq!(h0.id(), 0);
    assert_eq!(next, 1);
    let (h1, next) = allocate_sound_id(next).unwrap();
    assert_eq!(h1.id(), 1);
    assert_eq!(next, 2);
    let (last, next) = allocate_sound_id(u64::MAX - 1).unwrap();
    assert_eq!(last.id(), u64::MAX - 1);
    assert_eq!(next, u64::MAX);
    assert_eq!(allocate_sound_id(u64::MAX), Err(AudioError::SoundIdOverflow));
}
