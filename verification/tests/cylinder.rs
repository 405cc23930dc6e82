use bevy_mujoco::mujoco_shape::{Cylinder, CylinderVertex};

fn cylinder(resolution: u32, subdivisions: u32) -> Cylinder<f32> {
    Cylinder {
        radius: 0.5,
        height: 1.0,
        resolution,
        subdivisions,
    }
}

#[test]
fn the_smallest_grid_triangle_by_triangle() {
    let c = cylinder(3, 1);
    assert!(c.check_grid());
    assert_eq!(c.vertex_count(), 14);
    assert_eq!(c.top_offset(), 6);
    assert_eq!(c.bottom_offset(), 10);
    assert_eq!(
        c.indices(),
        vec![
            3, 1, 0, 3, 4, 1, 4, 2, 1, 4, 5, 2, 5, 0, 2, 5, 3, 0, // shaft
            6, 7, 8, 6, 8, 9, 6, 9, 7, // top
            10, 12, 11, 10, 13, 12, 10, 11, 13, // bottom
        ]
    );
}

#[test]
fn the_usual_grid_has_as_many_indices_as_its_triangles_need() {
    let c = cylinder(20, 4);
    assert!(c.check_grid());
    assert_eq!(c.vertex_count(), 20 * (4 + 3) + 2);
    let indices = c.indices();
    assert_eq!(indices.len(), 6 * 4 * 20 + 6 * 20);
    assert!(indices.iter().all(|v| *v < c.vertex_count()));
    for v in 0..c.vertex_count() {
        assert!(indices.contains(&v));
    }
}

#[test]
fn a_grid_without_steps_or_rings_is_refused() {
    assert!(!cylinder(0, 4).check_grid());
    assert!(!cylinder(20, 0).check_grid());
    assert!(!cylinder(0, 0).check_grid());
    assert!(cylinder(1, 1).check_grid());
}

#[test]
fn a_grid_too_large_to_number_is_refused() {
    assert!(!cylinder(u32::MAX, 1).check_grid());
    assert!(!cylinder(2, u32::MAX).check_grid());
    assert!(!cylinder(1 << 16, 1 << 16).check_grid());
    assert!(cylinder(1 << 15, (1 << 16) - 3).check_grid());
    assert!(cylinder(1, u32::MAX - 5).check_grid());
    assert!(!cylinder(1, u32::MAX - 4).check_grid());
}

#[test]
fn every_vertex_has_its_place() {
    let c = cylinder(3, 1);
    assert_eq!(c.vertex(0), CylinderVertex::Shaft { ring: 0, spoke: 0 });
    assert_eq!(c.vertex(2), CylinderVertex::Shaft { ring: 0, spoke: 2 });
    assert_eq!(c.vertex(3), CylinderVertex::Shaft { ring: 1, spoke: 0 });
    assert_eq!(c.vertex(5), CylinderVertex::Shaft { ring: 1, spoke: 2 });
    assert_eq!(c.vertex(6), CylinderVertex::TopCentre);
    assert_eq!(c.vertex(7), CylinderVertex::TopRim { spoke: 0 });
    assert_eq!(c.vertex(9), CylinderVertex::TopRim { spoke: 2 });
    assert_eq!(c.vertex(10), CylinderVertex::BottomCentre);
    assert_eq!(c.vertex(11), CylinderVertex::BottomRim { spoke: 0 });
    assert_eq!(c.vertex(13), CylinderVertex::BottomRim { spoke: 2 });
}
