use rust4d::{default_segments, default_sphere_subdivisions, RotationPlane};

#[test]
fn rotation_planes_name_their_axes() {
    assert_eq!(RotationPlane::XY.axes(), (0, 1));
    assert_eq!(RotationPlane::ZW.axes(), (2, 3));
    assert_ne!(RotationPlane::XW, RotationPlane::YW);
}

#[test]
fn scene_file_defaults() {
    assert_eq!(default_sphere_subdivisions(), 2);
    assert_eq!(default_segments(), 24);
}
