use rust4d::{EntityKey, Hierarchy, HierarchyError, HierarchyIssue};

fn spawn(h: &mut Hierarchy, key: EntityKey) -> EntityKey {
    h.insert_root(key);
    key
}

#[test]
fn test_add_child() {
    let mut world = Hierarchy::new();
    let parent = spawn(&mut world, 1);
    let child = spawn(&mut world, 2);

    assert!(world.add_child(parent, child).is_ok());

    assert_eq!(world.parent_of(child), Some(parent));
    assert_eq!(world.children_of(parent), vec![child]);
    assert!(world.has_children(parent));
    assert!(world.has_parent(child));
    assert!(!world.has_parent(parent));
    assert!(!world.has_children(child));
}

#[test]
fn test_add_child_invalid_entity() {
    let mut world = Hierarchy::new();
    let parent = spawn(&mut world, 1);
    let temp = spawn(&mut world, 2);
    assert!(world.remove(temp));

    assert_eq!(world.add_child(parent, temp), Err(HierarchyError::InvalidEntity));
    assert_eq!(world.add_child(temp, parent), Err(HierarchyError::InvalidEntity));
}

#[test]
fn test_cycle_detection() {
    let mut world = Hierarchy::new();
    let a = spawn(&mut world, 1);
    let b = spawn(&mut world, 2);

    assert!(world.add_child(a, b).is_ok());
    assert_eq!(world.add_child(b, a), Err(HierarchyError::CyclicHierarchy));
    assert_eq!(world.add_child(a, a), Err(HierarchyError::CyclicHierarchy));
}

#[test]
fn test_deep_cycle_detection() {
    let mut world = Hierarchy::new();
    let a = spawn(&mut world, 1);
    let b = spawn(&mut world, 2);
    let c = spawn(&mut world, 3);

    assert!(world.add_child(a, b).is_ok());
    assert!(world.add_child(b, c).is_ok());
    assert_eq!(world.add_child(c, a), Err(HierarchyError::CyclicHierarchy));
}

#[test]
fn test_already_child() {
    let mut world = Hierarchy::new();
    let parent = spawn(&mut world, 1);
    let child = spawn(&mut world, 2);

    assert!(world.add_child(parent, child).is_ok());
    assert_eq!(world.add_child(parent, child), Err(HierarchyError::AlreadyChild));
}

#[test]
fn test_remove_from_parent() {
    let mut world = Hierarchy::new();
    let parent = spawn(&mut world, 1);
    let child = spawn(&mut world, 2);

    world.add_child(parent, child).unwrap();
    assert!(world.has_parent(child));
    assert!(world.has_children(parent));

    world.remove_from_parent(child);

    assert!(!world.has_parent(child));
    assert!(!world.has_children(parent));
    assert_eq!(world.parent_of(child), None);
    assert!(world.children_of(parent).is_empty());
}

#[test]
fn test_delete_recursive() {
    let mut world = Hierarchy::new();
    let root = spawn(&mut world, 10);
    let child1 = spawn(&mut world, 11);
    let child2 = spawn(&mut world, 12);
    let grandchild = spawn(&mut world, 13);

    world.add_child(root, child1).unwrap();
    world.add_child(root, child2).unwrap();
    world.add_child(child1, grandchild).unwrap();

    assert_eq!(world.len(), 4);

    let removed = world.remove_subtree(root);
    assert_eq!(removed.len(), 4);
    assert_eq!(world.len(), 0);

    assert!(!world.contains(root));
    assert!(!world.contains(child1));
    assert!(!world.contains(grandchild));
}

#[test]
fn test_delete_recursive_subtree() {
    let mut world = Hierarchy::new();
    let root = spawn(&mut world, 1);
    let child1 = spawn(&mut world, 2);
    let child2 = spawn(&mut world, 3);
    let grandchild = spawn(&mut world, 4);

    world.add_child(root, child1).unwrap();
    world.add_child(root, child2).unwrap();
    world.add_child(child1, grandchild).unwrap();

    let removed = world.remove_subtree(child1);
    assert_eq!(removed.len(), 2);
    assert_eq!(world.len(), 2);

    assert!(world.contains(root));
    assert!(world.contains(child2));
    assert_eq!(world.children_of(root), vec![child2]);
}

#[test]
fn test_descendants() {
    let mut world = Hierarchy::new();
    let root = spawn(&mut world, 1);
    let child1 = spawn(&mut world, 2);
    let child2 = spawn(&mut world, 3);
    let grandchild = spawn(&mut world, 4);

    world.add_child(root, child1).unwrap();
    world.add_child(root, child2).unwrap();
    world.add_child(child1, grandchild).unwrap();

    let desc = world.descendants(root);
    assert_eq!(desc.len(), 3);
    assert!(desc.contains(&child1));
    assert!(desc.contains(&child2));
    assert!(desc.contains(&grandchild));

    let desc1 = world.descendants(child1);
    assert_eq!(desc1, vec![grandchild]);

    assert!(world.descendants(grandchild).is_empty());
}

#[test]
fn test_root_entities() {
    let mut world = Hierarchy::new();
    let root1 = spawn(&mut world, 1);
    let root2 = spawn(&mut world, 2);
    let child = spawn(&mut world, 3);

    world.add_child(root1, child).unwrap();

    let roots = world.roots();
    assert_eq!(roots.len(), 2);
    assert!(roots.contains(&root1));
    assert!(roots.contains(&root2));
    assert!(!roots.contains(&child));
}

#[test]
fn test_is_ancestor() {
    let mut world = Hierarchy::new();
    let a = spawn(&mut world, 1);
    let b = spawn(&mut world, 2);
    let c = spawn(&mut world, 3);
    let d = spawn(&mut world, 4);

    world.add_child(a, b).unwrap();
    world.add_child(b, c).unwrap();

    assert!(world.is_ancestor(a, b));
    assert!(world.is_ancestor(a, c));
    assert!(world.is_ancestor(b, c));
    assert!(!world.is_ancestor(c, a));
    assert!(!world.is_ancestor(a, a));
    assert!(!world.is_ancestor(a, d));
}

#[test]
fn test_despawn_cleans_hierarchy() {
    let mut world = Hierarchy::new();
    let parent = spawn(&mut world, 1);
    let child = spawn(&mut world, 2);
    let grandchild = spawn(&mut world, 3);

    world.add_child(parent, child).unwrap();
    world.add_child(child, grandchild).unwrap();

    assert!(world.remove(child));

    assert!(!world.has_children(parent));
    assert!(!world.has_parent(grandchild));
    assert!(world.contains(grandchild));
}

#[test]
fn test_reparent() {
    let mut world = Hierarchy::new();
    let parent1 = spawn(&mut world, 1);
    let parent2 = spawn(&mut world, 2);
    let child = spawn(&mut world, 3);

    world.add_child(parent1, child).unwrap();
    assert_eq!(world.parent_of(child), Some(parent1));
    assert_eq!(world.children_of(parent1), vec![child]);

    world.add_child(parent2, child).unwrap();
    assert_eq!(world.parent_of(child), Some(parent2));
    assert_eq!(world.children_of(parent2), vec![child]);

    assert!(!world.has_children(parent1));
}

#[test]
fn test_clear_cleans_hierarchy() {
    let mut world = Hierarchy::new();
    let parent = spawn(&mut world, 1);
    let child = spawn(&mut world, 2);

    world.add_child(parent, child).unwrap();
    world.clear();

    assert!(world.is_empty());
}

#[test]
fn test_validate_hierarchy_clean() {
    let mut world = Hierarchy::new();
    let parent = spawn(&mut world, 1);
    let child = spawn(&mut world, 2);
    world.add_child(parent, child).unwrap();

    let issues = world.validate_hierarchy();
    assert!(issues.is_empty(), "Expected no issues, got: {:?}", issues);
}

#[test]
fn test_roots_tracking() {
    let mut world = Hierarchy::new();
    let a = spawn(&mut world, 1);
    let b = spawn(&mut world, 2);
    let c = spawn(&mut world, 3);

    assert_eq!(world.roots().len(), 3);

    world.add_child(a, c).unwrap();

    let roots = world.roots();
    assert_eq!(roots.len(), 2);
    assert!(roots.contains(&a));
    assert!(roots.contains(&b));
    assert!(!roots.contains(&c));

    world.remove_from_parent(c);
    let roots = world.roots();
    assert_eq!(roots.len(), 3);
    assert!(roots.contains(&c));
}

#[test]
fn hierarchy_descendants_come_breadth_first() {
    let mut h = Hierarchy::new();
    for k in 1..=6 {
        spawn(&mut h, k);
    }
    h.add_child(1, 2).unwrap();
    h.add_child(1, 3).unwrap();
    h.add_child(2, 4).unwrap();
    h.add_child(3, 5).unwrap();
    h.add_child(4, 6).unwrap();
    assert_eq!(h.descendants(1), vec![2, 3, 4, 5, 6]);
    assert_eq!(h.ancestors(6), vec![4, 2, 1]);
    assert_eq!(h.remove_subtree(2), vec![2, 4, 6]);
    assert_eq!(h.children_of(1), vec![3]);
}

#[test]
fn hierarchy_remove_swaps_last_child_into_place() {
    let mut h = Hierarchy::new();
    for k in 1..=4 {
        spawn(&mut h, k);
    }
    h.add_child(1, 2).unwrap();
    h.add_child(1, 3).unwrap();
    h.add_child(1, 4).unwrap();
    h.remove_from_parent(2);
    assert_eq!(h.children_of(1), vec![4, 3]);
    assert!(!h.remove(99));
    assert!(h.remove(1));
    assert_eq!(h.parent_of(3), None);
    assert_eq!(h.parent_of(4), None);
}

#[test]
fn hierarchy_reparent_moves_whole_subtree() {
    let mut h = Hierarchy::new();
    for k in 1..=4 {
        spawn(&mut h, k);
    }
    h.add_child(1, 2).unwrap();
    h.add_child(2, 3).unwrap();
    h.add_child(4, 2).unwrap();
    assert_eq!(h.ancestors(3), vec![2, 4]);
    assert!(h.children_of(1).is_empty());
    assert_eq!(h.add_child(3, 4), Err(HierarchyError::CyclicHierarchy));
}

#[test]
fn hierarchy_validate_reports_deep_chains() {
    let mut h = Hierarchy::new();
    for k in 0..=66u64 {
        spawn(&mut h, k);
    }
    for k in 1..=66u64 {
        h.add_child(k - 1, k).unwrap();
    }
    let issues = h.validate_hierarchy();
    assert_eq!(
        issues,
        vec![
            HierarchyIssue::PossibleCycle { entity: 65 },
            HierarchyIssue::PossibleCycle { entity: 66 }
        ]
    );
}
