use rust4d::HierarchyError;

#[test]
fn test_hierarchy_error_display() {
    assert_eq!(
        HierarchyError::InvalidEntity.message(),
        "one or both entities do not exist"
    );
    assert_eq!(
        HierarchyError::CyclicHierarchy.message(),
        "adding this child would create a cycle"
    );
    assert_eq!(
        HierarchyError::AlreadyChild.message(),
        "entity is already a child of this parent"
    );
}
