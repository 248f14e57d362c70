use rust4d::{Asset, AssetCache, AssetError, AssetHandle};
use std::any::TypeId;
use std::io;

/// A text asset whose "files" live in a fixed in-memory table.
#[derive(Debug, Clone, PartialEq)]
struct TextAsset {
    content: String,
}

impl Asset for TextAsset {
    fn load_from_file(path: &str) -> Result<Self, AssetError> {
        match path {
            "a.txt" => Ok(TextAsset { content: "aaa".to_string() }),
            "b.txt" => Ok(TextAsset { content: "bbb".to_string() }),
            "c.txt" => Ok(TextAsset { content: "ccc".to_string() }),
            _ => Err(AssetError::Io(io::Error::new(io::ErrorKind::NotFound, "no such file"))),
        }
    }
}

fn text_loader(path: &str) -> Result<(TextAsset, u128), AssetError> {
    TextAsset::load_from_file(path).map(|a| (a, 100))
}

#[test]
fn test_new_cache_is_empty() {
    let cache: AssetCache<TextAsset> = AssetCache::new();
    assert_eq!(cache.asset_count(), 0);
    assert!(!cache.is_watching_for_changes());
}

#[test]
fn test_default_cache_is_empty() {
    let cache: AssetCache<TextAsset> = AssetCache::default();
    assert_eq!(cache.asset_count(), 0);
}

#[test]
fn test_load_nonexistent_file() {
    let mut cache: AssetCache<TextAsset> = AssetCache::new();
    let result = cache.load("/nonexistent/path/to/file.txt", TypeId::of::<TextAsset>(), text_loader);
    assert!(result.is_err());
}

#[test]
fn test_get_with_invalid_handle_returns_none() {
    let cache: AssetCache<TextAsset> = AssetCache::new();
    let fake_handle = AssetHandle::new(999, "fake.txt");
    let result = cache.get(&fake_handle, TypeId::of::<TextAsset>());
    assert!(result.is_none());
}

#[test]
fn test_set_watch_for_changes() {
    let mut cache: AssetCache<TextAsset> = AssetCache::new();
    assert!(!cache.is_watching_for_changes());

    cache.set_watch_for_changes(true);
    assert!(cache.is_watching_for_changes());

    cache.set_watch_for_changes(false);
    assert!(!cache.is_watching_for_changes());
}

#[test]
fn test_dependents_on_invalid_handle() {
    let cache: AssetCache<TextAsset> = AssetCache::new();
    let fake_handle = AssetHandle::new(999, "fake.txt");
    assert!(cache.dependents(&fake_handle).is_none());
}

#[test]
fn test_add_dependent_on_invalid_handle_is_noop() {
    let mut cache: AssetCache<TextAsset> = AssetCache::new();
    let fake_handle = AssetHandle::new(999, "fake.txt");
    cache.add_dependent(&fake_handle, "scene");
    cache.remove_dependent(&fake_handle, "scene");
    assert_eq!(cache.asset_count(), 0);
}

#[test]
fn test_gc_on_empty_cache() {
    let mut cache: AssetCache<TextAsset> = AssetCache::new();
    assert_eq!(cache.gc(), 0);
}

#[test]
fn load_and_retrieve_in_memory() {
    let mut cache = AssetCache::new();
    let handle = cache.load("a.txt", TypeId::of::<TextAsset>(), text_loader).unwrap();
    assert_eq!(cache.asset_count(), 1);
    assert_eq!(handle.id(), 1);
    assert_eq!(handle.path(), "a.txt");
    assert_eq!(cache.handle_path(&handle), "a.txt");
    assert_eq!(cache.get(&handle, TypeId::of::<TextAsset>()).unwrap().content, "aaa");
}

#[test]
fn duplicate_path_returns_same_handle_without_loading() {
    let mut cache = AssetCache::new();
    let h1 = cache.load("a.txt", TypeId::of::<TextAsset>(), text_loader).unwrap();
    let h2 = cache
        .load("a.txt", TypeId::of::<TextAsset>(), |_p: &str| -> Result<(TextAsset, u128), AssetError> {
            panic!("a cached path must not be loaded again")
        })
        .unwrap();
    assert_eq!(h1, h2);
    assert_eq!(cache.asset_count(), 1);
}

#[test]
fn asset_ids_increment_from_one() {
    let mut cache = AssetCache::new();
    let h1 = cache.load("a.txt", TypeId::of::<TextAsset>(), text_loader).unwrap();
    let h2 = cache.load("b.txt", TypeId::of::<TextAsset>(), text_loader).unwrap();
    let h3 = cache.load("c.txt", TypeId::of::<TextAsset>(), text_loader).unwrap();
    assert_eq!((h1.id(), h2.id(), h3.id()), (1, 2, 3));
    assert_ne!(h1, h2);
    assert_eq!(cache.get(&h2, TypeId::of::<TextAsset>()).unwrap().content, "bbb");
}

#[test]
fn failed_load_leaves_cache_unchanged() {
    let mut cache = AssetCache::new();
    let err = cache.load("missing.txt", TypeId::of::<TextAsset>(), text_loader).unwrap_err();
    assert!(matches!(err, AssetError::Io(_)));
    assert_eq!(cache.asset_count(), 0);
    // the next successful load still gets id 1
    assert_eq!(cache.load("a.txt", TypeId::of::<TextAsset>(), text_loader).unwrap().id(), 1);
}

#[test]
fn dependents_are_tracked_without_duplicates() {
    let mut cache = AssetCache::new();
    let handle = cache.load("a.txt", TypeId::of::<TextAsset>(), text_loader).unwrap();
    cache.add_dependent(&handle, "scene_main");
    cache.add_dependent(&handle, "scene_level1");
    cache.add_dependent(&handle, "scene_main");
    let deps = cache.dependents(&handle).unwrap();
    assert_eq!(deps.len(), 2);
    assert!(deps.contains(&"scene_main".to_string()));
    assert!(deps.contains(&"scene_level1".to_string()));

    cache.remove_dependent(&handle, "scene_main");
    let deps = cache.dependents(&handle).unwrap();
    assert_eq!(deps, &["scene_level1".to_string()]);
}

#[test]
fn gc_removes_exactly_the_assets_without_dependents() {
    let mut cache = AssetCache::new();
    let h1 = cache.load("a.txt", TypeId::of::<TextAsset>(), text_loader).unwrap();
    let h2 = cache.load("b.txt", TypeId::of::<TextAsset>(), text_loader).unwrap();
    cache.add_dependent(&h1, "scene_main");
    assert_eq!(cache.gc(), 1);
    assert_eq!(cache.asset_count(), 1);
    assert!(cache.contains(&h1));
    assert!(!cache.contains(&h2));
    assert_eq!(cache.get(&h1, TypeId::of::<TextAsset>()).unwrap().content, "aaa");

    cache.remove_dependent(&h1, "scene_main");
    assert_eq!(cache.gc(), 1);
    assert_eq!(cache.asset_count(), 0);
}

#[test]
fn gc_with_several_dependents() {
    let mut cache = AssetCache::new();
    let handle = cache.load("a.txt", TypeId::of::<TextAsset>(), text_loader).unwrap();
    cache.add_dependent(&handle, "scene_a");
    cache.add_dependent(&handle, "scene_b");
    cache.add_dependent(&handle, "scene_c");
    cache.remove_dependent(&handle, "scene_a");
    assert_eq!(cache.gc(), 0);
    cache.remove_dependent(&handle, "scene_b");
    assert_eq!(cache.gc(), 0);
    cache.remove_dependent(&handle, "scene_c");
    assert_eq!(cache.gc(), 1);
}

#[test]
fn test_hot_reload_disabled_returns_empty() {
    let mut cache = AssetCache::new();
    let _ = cache.load("a.txt", TypeId::of::<TextAsset>(), text_loader).unwrap();
    let reloaded = cache.check_hot_reload(
        TypeId::of::<TextAsset>(),
        |_p: &String| Some(1_000),
        |_p: &String| -> Result<(TextAsset, u128), AssetError> { panic!("watching is off") },
    );
    assert!(reloaded.is_empty());
}

#[test]
fn hot_reload_replaces_only_newer_files() {
    let mut cache = AssetCache::new();
    cache.set_watch_for_changes(true);
    let ha = cache.load("a.txt", TypeId::of::<TextAsset>(), text_loader).unwrap();
    let hb = cache.load("b.txt", TypeId::of::<TextAsset>(), text_loader).unwrap();
    let reloaded = cache.check_hot_reload(
        TypeId::of::<TextAsset>(),
        |p: &String| if p == "a.txt" { Some(200) } else { Some(50) },
        |_p: &String| Ok((TextAsset { content: "modified".to_string() }, 300)),
    );
    assert_eq!(reloaded.len(), 1);
    assert_eq!(reloaded[0].id(), ha.id());
    assert_eq!(cache.get(&ha, TypeId::of::<TextAsset>()).unwrap().content, "modified");
    assert_eq!(cache.get(&hb, TypeId::of::<TextAsset>()).unwrap().content, "bbb");
    // the new load time (300) is not older than the file any more
    let again = cache.check_hot_reload(
        TypeId::of::<TextAsset>(),
        |p: &String| if p == "a.txt" { Some(200) } else { None },
        |_p: &String| Ok((TextAsset { content: "other".to_string() }, 400)),
    );
    assert!(again.is_empty());
}

#[test]
fn hot_reload_failure_keeps_old_data() {
    let mut cache = AssetCache::new();
    cache.set_watch_for_changes(true);
    let ha = cache.load("a.txt", TypeId::of::<TextAsset>(), text_loader).unwrap();
    let reloaded = cache.check_hot_reload(
        TypeId::of::<TextAsset>(),
        |_p: &String| Some(1_000),
        |_p: &String| Err(AssetError::Parse("bad".to_string())),
    );
    assert!(reloaded.is_empty());
    assert_eq!(cache.get(&ha, TypeId::of::<TextAsset>()).unwrap().content, "aaa");
}

#[test]
fn test_io_error_display() {
    let io_err = io::Error::new(io::ErrorKind::NotFound, "file missing");
    let asset_err = AssetError::Io(io_err);
    let msg = asset_err.message();
    assert!(msg.contains("IO error"));
    assert!(msg.contains("file missing"));
}

#[test]
fn test_parse_error_display() {
    let err = AssetError::Parse("invalid format".to_string());
    let msg = err.message();
    assert!(msg.contains("parse error"));
    assert!(msg.contains("invalid format"));
}

#[test]
fn test_not_found_error_display() {
    let err = AssetError::NotFound("models/cube.ron".to_string());
    let msg = err.message();
    assert!(msg.contains("not found"));
    assert!(msg.contains("models/cube.ron"));
}

#[test]
fn test_from_io_error() {
    let io_err = io::Error::new(io::ErrorKind::PermissionDenied, "access denied");
    let asset_err: AssetError = io_err.into();
    match asset_err {
        AssetError::Io(e) => assert_eq!(e.kind(), io::ErrorKind::PermissionDenied),
        _ => panic!("Expected Io variant"),
    }
}

#[test]
fn test_from_string() {
    let asset_err: AssetError = "bad data".to_string().into();
    match asset_err {
        AssetError::Parse(msg) => assert_eq!(msg, "bad data"),
        _ => panic!("Expected Parse variant"),
    }
}

#[test]
fn test_from_str() {
    let asset_err: AssetError = "bad data".into();
    match asset_err {
        AssetError::Parse(msg) => assert_eq!(msg, "bad data"),
        _ => panic!("Expected Parse variant"),
    }
}

#[test]
fn test_error_source() {
    let io_err = io::Error::new(io::ErrorKind::NotFound, "missing");
    let asset_err = AssetError::Io(io_err);
    assert!(asset_err.source().is_some());

    let parse_err = AssetError::Parse("bad".to_string());
    assert!(parse_err.source().is_none());

    let not_found_err = AssetError::NotFound("path".to_string());
    assert!(not_found_err.source().is_none());
}

#[test]
fn test_debug_format() {
    let err = AssetError::Parse("test error".to_string());
    let debug = format!("{:?}", err);
    assert!(debug.contains("Parse"));
    assert!(debug.contains("test error"));
}

#[test]
fn error_messages_are_exact() {
    assert_eq!(AssetError::Parse("x".to_string()).message(), "Asset parse error: x");
    assert_eq!(AssetError::NotFound("p".to_string()).message(), "Asset not found: p");
    let io = AssetError::Io(io::Error::new(io::ErrorKind::Other, "boom"));
    assert_eq!(io.message(), "Asset IO error: boom");
}

/// A second asset kind, kept in the same cache.
struct BinaryAsset;

#[test]
fn hot_reload_checks_only_the_requested_kind() {
    let mut cache = AssetCache::new();
    cache.set_watch_for_changes(true);
    let ha = cache.load("a.txt", TypeId::of::<TextAsset>(), text_loader).unwrap();
    let hb = cache
        .load("b.bin", TypeId::of::<BinaryAsset>(), |_p: &str| -> Result<(TextAsset, u128), AssetError> {
            Ok((TextAsset { content: "binary".to_string() }, 100))
        })
        .unwrap();
    let reloaded = cache.check_hot_reload(
        TypeId::of::<TextAsset>(),
        |p: &String| {
            assert_eq!(p, "a.txt", "another kind's file was checked");
            Some(1_000)
        },
        |p: &String| {
            assert_eq!(p, "a.txt", "another kind's asset was reloaded");
            Ok((TextAsset { content: "new".to_string() }, 2_000))
        },
    );
    assert_eq!(reloaded.len(), 1);
    assert_eq!(reloaded[0].id(), ha.id());
    assert_eq!(cache.get(&ha, TypeId::of::<TextAsset>()).unwrap().content, "new");
    assert_eq!(cache.get(&hb, TypeId::of::<BinaryAsset>()).unwrap().content, "binary");
}

#[test]
fn remove_dependent_undoes_add_dependent() {
    let mut cache = AssetCache::new();
    let h = cache.load("a.txt", TypeId::of::<TextAsset>(), text_loader).unwrap();
    cache.add_dependent(&h, "level1");
    let before: Vec<String> = cache.dependents(&h).unwrap().to_vec();
    cache.add_dependent(&h, "menu");
    cache.remove_dependent(&h, "menu");
    assert_eq!(cache.dependents(&h).unwrap(), &before[..]);
}

#[test]
fn get_answers_none_for_another_kind() {
    let mut cache = AssetCache::new();
    let h = cache.load("a.txt", TypeId::of::<TextAsset>(), text_loader).unwrap();
    assert!(cache.get(&h, TypeId::of::<TextAsset>()).is_some());
    assert!(cache.get(&h, TypeId::of::<BinaryAsset>()).is_none());
    assert!(cache.is_cached_path("a.txt"));
    assert!(!cache.is_cached_path("b.txt"));
}
