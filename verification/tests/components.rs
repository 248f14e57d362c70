use rust4d::{DirtyFlags, Name, Tags};

#[test]
fn test_dirty_flags_all() {
    let flags = DirtyFlags::all();
    assert!(flags.contains(DirtyFlags::transform()));
    assert!(flags.contains(DirtyFlags::mesh()));
    assert!(flags.contains(DirtyFlags::material()));
}

#[test]
fn test_dirty_flags_combine() {
    let flags = DirtyFlags::transform() | DirtyFlags::material();
    assert!(flags.contains(DirtyFlags::transform()));
    assert!(!flags.contains(DirtyFlags::mesh()));
    assert!(flags.contains(DirtyFlags::material()));
}

#[test]
fn dirty_flags_default_is_none() {
    let flags = DirtyFlags::default();
    assert_eq!(flags, DirtyFlags::none());
    assert!(flags.is_empty());
    assert_eq!(DirtyFlags::all().bits(), 7);
}

#[test]
fn dirty_flags_insert_and_remove() {
    let mut flags = DirtyFlags::none();
    flags |= DirtyFlags::mesh();
    assert!(flags.contains(DirtyFlags::mesh()));
    flags.insert(DirtyFlags::transform());
    assert_eq!(flags.bits(), 3);
    flags.remove(DirtyFlags::mesh());
    assert_eq!(flags, DirtyFlags::transform());
    assert!(flags.intersects(DirtyFlags::all()));
    assert_eq!(DirtyFlags::from_bits_truncate(0xff), DirtyFlags::all());
    assert_eq!(flags.union(DirtyFlags::material()).bits(), 5);
}

#[test]
fn name_component() {
    let name = Name::new("player");
    assert_eq!(name.0, "player");
    assert_eq!(name.to_string(), "player");
}

#[test]
fn tags_insert_and_query() {
    let tags = Tags::new().with_tag("dynamic").with_tag("enemy").with_tag("dynamic");
    assert!(tags.has("dynamic"));
    assert!(tags.has("enemy"));
    assert!(!tags.has("static"));
    assert_eq!(tags.len(), 2);

    let mut tags = tags;
    tags.insert("static");
    assert!(tags.has("static"));
    assert_eq!(tags.len(), 3);

    let from = Tags::from_names(&["a", "b", "a"]);
    assert_eq!(from.len(), 2);
    assert!(from.has("a") && from.has("b"));
    assert_eq!(Tags::default().len(), 0);
}
