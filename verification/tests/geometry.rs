use bevy_mujoco::geometry::{
    check_render_geoms, AnchorTerm, GeometryError, ModelError, PlaneExtent, Shape,
    VISIBLE_GROUP_LIMIT,
};
use bevy_mujoco::model::{Body, Geom, GeomType, MuJoCoMesh};

fn geom(id: i32, body_id: i32, geom_type: GeomType, geom_group: i32) -> Geom<f64> {
    Geom {
        id,
        name: format!("geom_{}", id),
        geom_type,
        body_id,
        pos: [0.0, 0.0, 0.0],
        quat: [1.0, 0.0, 0.0, 0.0],
        size: [1.0, 2.0, 3.0],
        color: [0.5, 0.5, 0.5, 1.0],
        mesh: None,
        geom_group,
        geom_contype: 1,
    }
}

fn body(id: i32, geom_n: i32, geom_addr: i32) -> Body<f64> {
    Body {
        id,
        name: format!("body_{}", id),
        parent_id: 0,
        geom_n,
        geom_addr,
        pos: [0.0, 0.0, 0.0],
        quat: [1.0, 0.0, 0.0, 0.0],
    }
}

fn triangle() -> MuJoCoMesh<f64> {
    MuJoCoMesh {
        vertices: vec![[0.0, 0.0, 0.0], [1.0, 0.0, 0.0], [0.0, 1.0, 0.0]],
        normals: vec![[0.0, 0.0, 1.0], [0.0, 0.0, 1.0], [0.0, 0.0, 1.0]],
        indices: vec![0, 1, 2],
        name: "calf".to_string(),
    }
}

#[test]
fn the_only_geom_of_a_body_is_drawn_whatever_its_group() {
    let geoms = vec![geom(0, 1, GeomType::BOX, 0), geom(1, 2, GeomType::SPHERE, 5)];
    assert_eq!(body(2, 1, 1).render_geom_index(&geoms), Some(1));
    assert_eq!(body(2, 1, 1).render_geom(&geoms).unwrap().id, 1);
}

#[test]
fn a_body_without_geoms_has_nothing_to_draw() {
    let geoms = vec![geom(0, 1, GeomType::BOX, 0)];
    assert_eq!(body(7, 0, 0).render_geom_index(&geoms), None);
    assert!(body(7, 0, 0).render_geom(&geoms).is_none());
    let none: Vec<Geom<f64>> = vec![];
    assert_eq!(body(1, 0, 0).render_geom_index(&none), None);
}

#[test]
fn a_mesh_is_drawn_before_a_generated_shape() {
    let geoms = vec![
        geom(0, 1, GeomType::BOX, 0),
        geom(1, 1, GeomType::CAPSULE, 1),
        geom(2, 1, GeomType::MESH, 2),
        geom(3, 1, GeomType::SPHERE, 0),
    ];
    assert_eq!(body(1, 4, 0).render_geom_index(&geoms), Some(2));
}

#[test]
fn among_equal_kinds_the_lowest_group_is_drawn() {
    let geoms = vec![
        geom(0, 1, GeomType::BOX, 2),
        geom(1, 1, GeomType::CAPSULE, 1),
        geom(2, 1, GeomType::SPHERE, 0),
        geom(3, 1, GeomType::CYLINDER, 1),
    ];
    assert_eq!(body(1, 4, 0).render_geom_index(&geoms), Some(2));
    let meshes = vec![
        geom(0, 1, GeomType::MESH, 2),
        geom(1, 1, GeomType::MESH, 1),
        geom(2, 1, GeomType::BOX, 0),
    ];
    assert_eq!(body(1, 3, 0).render_geom_index(&meshes), Some(1));
}

#[test]
fn among_equal_kinds_and_groups_the_first_in_the_table_is_drawn() {
    let geoms = vec![
        geom(0, 2, GeomType::BOX, 0),
        geom(1, 1, GeomType::BOX, 1),
        geom(2, 1, GeomType::SPHERE, 1),
        geom(3, 1, GeomType::CAPSULE, 1),
    ];
    assert_eq!(body(1, 3, 1).render_geom_index(&geoms), Some(1));
}

#[test]
fn collision_geoms_are_not_drawn_for_a_body_with_several() {
    let geoms = vec![
        geom(0, 1, GeomType::MESH, VISIBLE_GROUP_LIMIT),
        geom(1, 1, GeomType::BOX, VISIBLE_GROUP_LIMIT + 1),
    ];
    assert_eq!(body(1, 2, 0).render_geom_index(&geoms), None);
    let mixed = vec![
        geom(0, 1, GeomType::MESH, VISIBLE_GROUP_LIMIT),
        geom(1, 1, GeomType::BOX, VISIBLE_GROUP_LIMIT - 1),
    ];
    assert_eq!(body(1, 2, 0).render_geom_index(&mixed), Some(1));
}

#[test]
fn geoms_of_other_bodies_are_not_candidates() {
    let geoms = vec![
        geom(0, 3, GeomType::MESH, 0),
        geom(1, 1, GeomType::BOX, 2),
        geom(2, 3, GeomType::MESH, 0),
        geom(3, 1, GeomType::SPHERE, 1),
    ];
    assert_eq!(body(1, 2, 1).render_geom_index(&geoms), Some(3));
    assert_eq!(body(3, 2, 0).render_geom_index(&geoms), Some(0));
}

#[test]
fn listed_geoms_are_those_from_the_address_on() {
    let geoms = vec![
        geom(0, 1, GeomType::BOX, 0),
        geom(1, 2, GeomType::SPHERE, 0),
        geom(2, 2, GeomType::CAPSULE, 0),
        geom(3, 3, GeomType::MESH, 0),
    ];
    let listed = body(2, 2, 1).geoms(&geoms);
    assert_eq!(listed.len(), 2);
    assert_eq!(listed[0].id, 1);
    assert_eq!(listed[1].id, 2);
    assert_eq!(body(2, 0, 4).geoms(&geoms).len(), 0);
    assert_eq!(body(2, 2, 1).owned(&geoms), 2);
    assert_eq!(body(9, 2, 1).owned(&geoms), 0);
}

#[test]
fn ellipsoid_and_height_field_are_unsupported() {
    let ellipsoid = geom(0, 1, GeomType::ELLIPSOID, 0);
    assert!(matches!(
        ellipsoid.mesh(0.0),
        Err(GeometryError::Unsupported(GeomType::ELLIPSOID))
    ));
    let field = geom(0, 1, GeomType::HFIELD, 0);
    assert!(matches!(
        field.mesh(0.0),
        Err(GeometryError::Unsupported(GeomType::HFIELD))
    ));
    let missing = geom(0, 1, GeomType::NONE, 0);
    assert!(matches!(
        missing.mesh(0.0),
        Err(GeometryError::Unsupported(GeomType::NONE))
    ));
}

#[test]
fn a_mesh_geom_without_mesh_data_has_no_shape() {
    let bare = geom(0, 1, GeomType::MESH, 0);
    assert!(matches!(bare.mesh(0.0), Err(GeometryError::MissingMesh)));
}

#[test]
fn a_mesh_geom_is_drawn_from_its_own_mesh_data() {
    let mut with_mesh = geom(0, 1, GeomType::MESH, 0);
    with_mesh.mesh = Some(triangle());
    match with_mesh.mesh(0.0) {
        Ok(Shape::Imported(mesh)) => {
            assert_eq!(mesh.name, "calf");
            assert_eq!(mesh.indices, vec![0, 1, 2]);
            assert_eq!(mesh.vertices.len(), 3);
        }
        _ => panic!("a mesh geom with mesh data is drawn from it"),
    }
}

#[test]
fn generated_shapes_take_their_measures_from_the_size() {
    let mut g = geom(0, 1, GeomType::BOX, 0);
    g.size = [1.0, 2.0, 3.0];
    assert!(matches!(
        g.mesh(0.0),
        Ok(Shape::Cuboid { x, y, z }) if x == 1.0 && y == 3.0 && z == 2.0
    ));
    g.geom_type = GeomType::SPHERE;
    assert!(matches!(g.mesh(0.0), Ok(Shape::Sphere { radius }) if radius == 1.0));
    g.geom_type = GeomType::CAPSULE;
    assert!(matches!(
        g.mesh(0.0),
        Ok(Shape::Capsule { radius, half_length }) if radius == 1.0 && half_length == 2.0
    ));
    g.geom_type = GeomType::CYLINDER;
    assert!(matches!(
        g.mesh(0.0),
        Ok(Shape::Cylinder { radius, half_length }) if radius == 1.0 && half_length == 2.0
    ));
}

#[test]
fn a_plane_of_size_zero_is_unbounded() {
    let mut plane = geom(0, 1, GeomType::PLANE, 0);
    plane.size = [0.0, 0.0, 0.05];
    assert!(matches!(
        plane.mesh(0.0),
        Ok(Shape::Plane(PlaneExtent::Unbounded))
    ));
    plane.size = [4.0, 4.0, 0.05];
    assert!(matches!(
        plane.mesh(0.0),
        Ok(Shape::Plane(PlaneExtent::Bounded(extent))) if extent == 4.0
    ));
}

#[test]
fn anchor_corrections_offset_the_vertical_axis_only() {
    let mut g = geom(0, 1, GeomType::BOX, 0);
    g.size = [1.0, 2.0, 3.0];
    assert_eq!(
        g.correction(),
        [AnchorTerm::Zero, AnchorTerm::Half(2), AnchorTerm::Zero]
    );
    g.geom_type = GeomType::CAPSULE;
    g.size = [1.0, 7.5, 2.0];
    assert_eq!(
        g.correction(),
        [AnchorTerm::Zero, AnchorTerm::Double(2), AnchorTerm::Zero]
    );
    g.geom_type = GeomType::CYLINDER;
    assert_eq!(
        g.correction(),
        [AnchorTerm::Zero, AnchorTerm::Double(1), AnchorTerm::Zero]
    );
    for kind in [
        GeomType::PLANE,
        GeomType::HFIELD,
        GeomType::SPHERE,
        GeomType::ELLIPSOID,
        GeomType::MESH,
        GeomType::NONE,
    ] {
        g.geom_type = kind;
        assert_eq!(g.correction(), [AnchorTerm::Zero; 3]);
    }
}

#[test]
fn every_kind_leaves_the_horizontal_axes_alone() {
    for code in [0usize, 1, 2, 3, 4, 5, 6, 7, 1001] {
        let g = geom(0, 1, GeomType::from(code), 0);
        let terms = g.correction();
        assert_eq!(terms[0], AnchorTerm::Zero);
        assert_eq!(terms[2], AnchorTerm::Zero);
    }
}

#[test]
fn a_body_listed_with_one_geom_must_own_one() {
    let geoms = vec![
        geom(0, 0, GeomType::PLANE, 0),
        geom(1, 1, GeomType::BOX, 0),
        geom(2, 1, GeomType::MESH, 0),
    ];
    let fine = vec![body(0, 1, 0), body(1, 2, 1), body(2, 0, 3)];
    assert_eq!(check_render_geoms(&fine, &geoms), Ok(()));
    let two = vec![body(0, 1, 0), body(1, 1, 1), body(2, 1, 3)];
    assert_eq!(
        check_render_geoms(&two, &geoms),
        Err(ModelError::GeomCount { body: 1, found: 2 })
    );
    let none = vec![body(0, 1, 0), body(2, 1, 3)];
    assert_eq!(
        check_render_geoms(&none, &geoms),
        Err(ModelError::GeomCount { body: 1, found: 0 })
    );
}

#[test]
fn kind_codes_are_those_of_the_simulation() {
    assert_eq!(GeomType::from(0), GeomType::PLANE);
    assert_eq!(GeomType::from(1), GeomType::HFIELD);
    assert_eq!(GeomType::from(2), GeomType::SPHERE);
    assert_eq!(GeomType::from(3), GeomType::CAPSULE);
    assert_eq!(GeomType::from(4), GeomType::ELLIPSOID);
    assert_eq!(GeomType::from(5), GeomType::CYLINDER);
    assert_eq!(GeomType::from(6), GeomType::BOX);
    assert_eq!(GeomType::from(7), GeomType::MESH);
    assert_eq!(GeomType::from(1001), GeomType::NONE);
    assert_eq!(GeomType::try_from_code(8), None);
    assert_eq!(GeomType::try_from_code(1000), None);
    assert_eq!(GeomType::try_from_code(7), Some(GeomType::MESH));
    for code in [0usize, 1, 2, 3, 4, 5, 6, 7, 1001] {
        assert_eq!(GeomType::from(code).code(), code);
    }
    assert!(GeomType::MESH.is_mesh());
    assert!(!GeomType::BOX.is_mesh());
}

#[test]
fn a_mesh_file_lies_under_its_name() {
    assert_eq!(
        triangle().asset_path("mujoco_menagerie/unitree_a1/assets"),
        "mujoco_menagerie/unitree_a1/assets/calf.obj"
    );
    assert_eq!(triangle().asset_path(""), "/calf.obj");
}

#[test]
fn the_anchor_correction_of_a_box_is_half_its_third_size() {
    let mut g = geom(0, 1, GeomType::BOX, 0);
    g.size = [1.0, 2.0, 3.0];
    assert_eq!(g.correction_vector(0.0, 2.0), [0.0, 1.5, 0.0]);
    assert_eq!(g.correction_term(AnchorTerm::Half(0), 0.0, 2.0), 0.5);
    assert_eq!(g.correction_term(AnchorTerm::Double(1), 0.0, 2.0), 4.0);
    assert_eq!(g.correction_term(AnchorTerm::Zero, 0.0, 2.0), 0.0);
}

#[test]
fn the_anchor_correction_of_a_capsule_is_twice_its_third_size() {
    let mut g = geom(0, 1, GeomType::CAPSULE, 0);
    g.size = [1.0, 7.5, 2.0];
    assert_eq!(g.correction_vector(0.0, 2.0), [0.0, 4.0, 0.0]);
    g.size = [1.0, -3.25, 2.0];
    assert_eq!(g.correction_vector(0.0, 2.0), [0.0, 4.0, 0.0]);
}

#[test]
fn the_anchor_correction_of_a_cylinder_is_its_full_length() {
    let mut g = geom(0, 1, GeomType::CYLINDER, 0);
    g.size = [0.25, 0.75, 9.0];
    assert_eq!(g.correction_vector(0.0, 2.0), [0.0, 1.5, 0.0]);
}

#[test]
fn shapes_that_sit_on_their_anchor_are_not_moved() {
    for kind in [
        GeomType::PLANE,
        GeomType::HFIELD,
        GeomType::SPHERE,
        GeomType::ELLIPSOID,
        GeomType::MESH,
        GeomType::NONE,
    ] {
        let g = geom(0, 1, kind, 0);
        assert_eq!(g.correction_vector(0.0, 2.0), [0.0, 0.0, 0.0]);
    }
    let whole = geom(0, 1, GeomType::BOX, 0);
    let halves: Geom<i64> = Geom {
        id: 0,
        name: whole.name.clone(),
        geom_type: GeomType::BOX,
        body_id: 1,
        pos: [0, 0, 0],
        quat: [1, 0, 0, 0],
        size: [10, 20, 30],
        color: [0, 0, 0, 1],
        mesh: None,
        geom_group: 0,
        geom_contype: 1,
    };
    assert_eq!(halves.correction_vector(0, 2), [0, 15, 0]);
}
