use rust4d::EntityIndex;

fn tags(list: &[&str]) -> Vec<String> {
    list.iter().map(|t| t.to_string()).collect()
}

#[test]
fn test_get_by_name() {
    let mut index = EntityIndex::new();
    index.record_spawn(7, Some("tesseract"), &[], true);
    assert_eq!(index.get_by_name("tesseract"), Some(7));
    assert!(index.get_by_name("nonexistent").is_none());
}

#[test]
fn test_get_by_tag() {
    let mut index = EntityIndex::new();
    index.record_spawn(1, Some("dyn1"), &tags(&["dynamic"]), true);
    index.record_spawn(2, Some("dyn2"), &tags(&["dynamic"]), true);
    index.record_spawn(3, Some("stat1"), &tags(&["static"]), true);

    assert_eq!(index.get_by_tag("dynamic").len(), 2);
    assert_eq!(index.get_by_tag("static").len(), 1);
    assert!(index.get_by_tag("nonexistent").is_empty());
}

#[test]
fn test_name_index_cleanup_on_remove() {
    let mut index = EntityIndex::new();
    index.record_spawn(4, Some("tesseract"), &[], true);
    assert!(index.get_by_name("tesseract").is_some());
    index.record_despawn(4, Some("tesseract"), &[], true);
    assert!(index.get_by_name("tesseract").is_none());
}

#[test]
fn test_name_index_cleanup_on_clear() {
    let mut index = EntityIndex::new();
    index.record_spawn(1, Some("entity1"), &[], true);
    index.record_spawn(2, Some("entity2"), &[], true);
    assert!(index.get_by_name("entity1").is_some());
    assert!(index.get_by_name("entity2").is_some());
    index.clear();
    assert!(index.get_by_name("entity1").is_none());
    assert!(index.get_by_name("entity2").is_none());
}

#[test]
fn test_entity_without_name() {
    let mut index = EntityIndex::new();
    index.record_spawn(9, None, &[], true);
    assert!(index.get_by_name("").is_none());
}

#[test]
fn test_clear_all_dirty() {
    let mut index = EntityIndex::new();
    index.record_spawn(1, None, &[], true);
    index.record_spawn(2, None, &[], true);
    assert!(index.has_dirty_entities());
    index.clear_all_dirty();
    assert!(!index.has_dirty_entities());
}

#[test]
fn test_rename_entity() {
    let mut index = EntityIndex::new();
    index.record_spawn(5, Some("old_name"), &[], true);
    assert!(index.get_by_name("old_name").is_some());
    assert!(index.get_by_name("new_name").is_none());

    index.rename(5, "old_name", "new_name");

    assert!(index.get_by_name("old_name").is_none());
    assert_eq!(index.get_by_name("new_name"), Some(5));
}

#[test]
fn test_rebuild_name_index() {
    let mut index = EntityIndex::new();
    index.record_spawn(3, Some("test_entity"), &[], true);
    index.rebuild_names(&[]);
    assert!(index.get_by_name("test_entity").is_none());
    index.rebuild_names(&[("test_entity".to_string(), 3)]);
    assert_eq!(index.get_by_name("test_entity"), Some(3));
}

#[test]
fn test_tag_index_cleanup_on_despawn() {
    let mut index = EntityIndex::new();
    let t = tags(&["enemy", "dynamic"]);
    index.record_spawn(8, Some("tagged"), &t, true);
    assert_eq!(index.get_by_tag("enemy").len(), 1);
    assert_eq!(index.get_by_tag("dynamic").len(), 1);
    index.record_despawn(8, Some("tagged"), &t, true);
    assert_eq!(index.get_by_tag("enemy").len(), 0);
    assert_eq!(index.get_by_tag("dynamic").len(), 0);
}

#[test]
fn test_dirty_count() {
    let mut index = EntityIndex::new();
    index.record_spawn(1, None, &[], true);
    index.record_spawn(2, None, &[], true);
    assert!(index.has_dirty_entities());
    index.clear_all_dirty();
    assert!(!index.has_dirty_entities());
}

#[test]
fn test_name_collision_overwrites_index() {
    let mut index = EntityIndex::new();
    assert_eq!(index.record_spawn(1, Some("cube"), &[], true), None);
    assert_eq!(index.record_spawn(2, Some("cube"), &[], true), Some(1));
    assert_eq!(index.get_by_name("cube"), Some(2));
}

#[test]
fn test_ecs_mut_unchecked_breaks_name_index() {
    let mut index = EntityIndex::new();
    index.record_spawn(1, Some("original"), &[], true);
    assert_eq!(index.get_by_name("original"), Some(1));
    assert_eq!(index.get_by_name("changed"), None);
    index.rebuild_names(&[("changed".to_string(), 1)]);
    assert_eq!(index.get_by_name("original"), None);
    assert_eq!(index.get_by_name("changed"), Some(1));
}

#[test]
fn entity_index_dirty_count_never_goes_negative() {
    let mut index = EntityIndex::new();
    index.record_spawn(1, None, &[], false);
    assert_eq!(index.dirty_count(), 0);
    index.record_despawn(1, None, &[], true);
    assert_eq!(index.dirty_count(), 0);
    index.record_spawn(2, None, &[], true);
    index.mark_dirtied();
    assert_eq!(index.dirty_count(), 2);
    index.record_despawn(2, None, &[], true);
    assert_eq!(index.dirty_count(), 1);
}

#[test]
fn entity_index_tags_keep_each_entity_once() {
    let mut index = EntityIndex::new();
    index.tag_entity("a", 1);
    index.tag_entity("a", 1);
    index.tag_entity("a", 2);
    assert_eq!(index.get_by_tag("a"), vec![1, 2]);
    index.untag_entity("a", 1);
    assert_eq!(index.get_by_tag("a"), vec![2]);
    index.untag_entity("b", 1);
    assert!(index.get_by_tag("b").is_empty());
}

#[test]
fn entity_index_despawn_drops_name_even_if_taken_over() {
    let mut index = EntityIndex::new();
    index.record_spawn(1, Some("cube"), &[], false);
    index.record_spawn(2, Some("cube"), &[], false);
    index.record_despawn(1, Some("cube"), &[], false);
    assert_eq!(index.get_by_name("cube"), None);
    assert_eq!(index.insert_name("x", 3), None);
    assert_eq!(index.insert_name("x", 4), Some(3));
    assert_eq!(index.remove_name("x"), Some(4));
    assert_eq!(index.remove_name("x"), None);
}
