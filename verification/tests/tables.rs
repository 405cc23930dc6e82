use bevy_mujoco::extract::{
    extract_indices, extract_mesh_attribute, extract_string, quad_at, triple_at, MuJoCo,
};
use bevy_mujoco::model::GeomType;

const BODY_NAMES: [&str; 14] = [
    "world", "trunk", "FR_hip", "FR_thigh", "FR_calf", "FL_hip", "FL_thigh", "FL_calf", "RR_hip",
    "RR_thigh", "RR_calf", "RL_hip", "RL_thigh", "RL_calf",
];

const BODY_PARENTS: [i32; 14] = [0, 0, 1, 2, 3, 1, 5, 6, 1, 8, 9, 1, 11, 12];

fn empty() -> MuJoCo<f64> {
    MuJoCo {
        names: vec![],
        body_parentid: vec![],
        body_geomnum: vec![],
        body_geomadr: vec![],
        body_pos: vec![],
        body_quat: vec![],
        name_bodyadr: vec![],
        geom_type: vec![],
        geom_bodyid: vec![],
        geom_group: vec![],
        geom_contype: vec![],
        geom_dataid: vec![],
        geom_pos: vec![],
        geom_quat: vec![],
        geom_size: vec![],
        geom_rgba: vec![],
        name_geomadr: vec![],
        mesh_vertadr: vec![],
        mesh_vertnum: vec![],
        mesh_faceadr: vec![],
        mesh_facenum: vec![],
        mesh_vert: vec![],
        mesh_normal: vec![],
        mesh_face: vec![],
        name_meshadr: vec![],
        body_xpos: vec![],
        body_xquat: vec![],
    }
}

fn add_name(model: &mut MuJoCo<f64>, name: &str) -> i32 {
    let adr = model.names.len() as i32;
    model.names.extend_from_slice(name.as_bytes());
    model.names.push(0);
    adr
}

/// The quadruped: the world with a floor, a trunk with two geoms, and four legs of
/// three links, each link with a mesh of one triangle.
fn quadruped() -> MuJoCo<f64> {
    let mut model = empty();
    // the model's own name comes first in the buffer
    add_name(&mut model, "a1");
    for (i, name) in BODY_NAMES.iter().enumerate() {
        let adr = add_name(&mut model, name);
        model.name_bodyadr.push(adr);
        model.body_parentid.push(BODY_PARENTS[i]);
        let x = i as f64;
        model.body_pos.extend_from_slice(&[x, x + 0.25, x + 0.5]);
        model.body_quat.extend_from_slice(&[1.0, x, -x, 0.5]);
        model.body_xpos.extend_from_slice(&[10.0 + x, 20.0 + x, 30.0 + x]);
        model.body_xquat.extend_from_slice(&[0.5, 0.25 + x, 0.125, -x]);
    }
    // one mesh per leg link kind
    for (m, name) in ["hip", "thigh", "calf"].iter().enumerate() {
        let adr = add_name(&mut model, name);
        model.name_meshadr.push(adr);
        model.mesh_vertadr.push(3 * m as i32);
        model.mesh_vertnum.push(3);
        model.mesh_faceadr.push(m as i32);
        model.mesh_facenum.push(1);
        for v in 0..3 {
            let f = (10 * m + v) as f64;
            model.mesh_vert.extend_from_slice(&[f, f + 0.1, f + 0.2]);
            model.mesh_normal.extend_from_slice(&[0.0, 0.0, f]);
        }
        model.mesh_face.extend_from_slice(&[0, 2, 1]);
    }
    // geoms: floor, trunk box and trunk collision box, then one mesh per leg link
    let mut add_geom = |model: &mut MuJoCo<f64>, name: &str, kind: i32, body: i32, group: i32, data: i32| {
        let adr = add_name(model, name);
        let g = model.geom_type.len() as f64;
        model.name_geomadr.push(adr);
        model.geom_type.push(kind);
        model.geom_bodyid.push(body);
        model.geom_group.push(group);
        model.geom_contype.push(1);
        model.geom_dataid.push(data);
        model.geom_pos.extend_from_slice(&[g, 0.0, -g]);
        model.geom_quat.extend_from_slice(&[1.0, 0.0, 0.0, g]);
        model.geom_size.extend_from_slice(&[0.5 + g, 0.25, 0.125]);
        model.geom_rgba.extend_from_slice(&[0.1, 0.2, 0.3, 1.0]);
    };
    add_geom(&mut model, "floor", 0, 0, 0, -1);
    add_geom(&mut model, "trunk_visual", 6, 1, 1, -1);
    add_geom(&mut model, "trunk_collision", 6, 1, 3, -1);
    for body in 2..14 {
        let link = (body - 2) % 3;
        add_geom(&mut model, "", 7, body, 1, link);
    }
    model.body_geomnum = vec![1, 2, 1, 1, 1, 1, 1, 1, 1, 1, 1, 1, 1, 1];
    model.body_geomadr = vec![0, 1, 3, 4, 5, 6, 7, 8, 9, 10, 11, 12, 13, 14];
    model
}

#[test]
fn geoms() {
    let model = &quadruped();
    assert!(model.check());
    let geoms = model.bodies();

    assert!(!geoms.is_empty());
}

#[test]
fn bodies() {
    let model = &quadruped();
    assert!(model.check());
    let bodies = model.bodies();

    assert!(bodies.len() == 14);

    let body_names = bodies
        .iter()
        .map(|body| body.name.clone())
        .collect::<Vec<String>>();

    assert!(
        body_names
            == vec![
                "world", "trunk", "FR_hip", "FR_thigh", "FR_calf", "FL_hip", "FL_thigh",
                "FL_calf", "RR_hip", "RR_thigh", "RR_calf", "RL_hip", "RL_thigh", "RL_calf",
            ]
    );
}

#[test]
fn meshes() {
    let model = &quadruped();
    assert!(model.check());
    let meshes = model.meshes();

    assert!(meshes.len() == model.nmesh());
}

#[test]
fn names() {
    let model = &quadruped();
    let names = model.names();

    assert!(!names.is_empty());
}

#[test]
fn names_are_split_at_zero_bytes() {
    let mut model = empty();
    model.names = b"world\0trunk\0\0FR_hip\0left over".to_vec();
    assert_eq!(model.names(), vec!["world", "trunk", "", "FR_hip"]);
    model.names = b"no end".to_vec();
    assert_eq!(model.names(), Vec::<String>::new());
    model.names = vec![];
    assert_eq!(model.names(), Vec::<String>::new());
    model.names = vec![0];
    assert_eq!(model.names(), vec![""]);
}

#[test]
fn all_names_of_the_quadruped() {
    let names = quadruped().names();
    assert_eq!(names.len(), 1 + 14 + 3 + 15);
    assert_eq!(names[0], "a1");
    assert_eq!(names[1], "world");
    assert_eq!(names[14], "RL_calf");
    assert_eq!(names[15], "hip");
    assert_eq!(names[18], "floor");
    assert_eq!(names[21], "");
}

#[test]
fn a_name_ends_at_its_zero_byte() {
    let buffer = b"world\0trunk\0tail";
    assert_eq!(extract_string(buffer, 0), "world");
    assert_eq!(extract_string(buffer, 2), "rld");
    assert_eq!(extract_string(buffer, 5), "");
    assert_eq!(extract_string(buffer, 6), "trunk");
    assert_eq!(extract_string(buffer, 12), "tail");
    assert_eq!(extract_string(buffer, 16), "");
    assert_eq!(extract_string(&[0xe9, 0x41, 0], 0), "\u{e9}A");
}

#[test]
fn bodies_are_cut_from_their_tables() {
    let model = quadruped();
    let bodies = model.bodies();
    for (i, body) in bodies.iter().enumerate() {
        assert_eq!(body.id, i as i32);
        assert_eq!(body.name, BODY_NAMES[i]);
        assert_eq!(body.parent_id, BODY_PARENTS[i]);
        let x = i as f64;
        assert_eq!(body.pos, [x, x + 0.25, x + 0.5]);
        assert_eq!(body.quat, [1.0, x, -x, 0.5]);
    }
    assert_eq!(bodies[1].geom_n, 2);
    assert_eq!(bodies[1].geom_addr, 1);
    assert_eq!(bodies[13].geom_addr, 14);
}

#[test]
fn geoms_are_cut_from_their_tables() {
    let model = quadruped();
    let geoms = model.geoms();
    assert_eq!(geoms.len(), 15);
    assert_eq!(model.ngeom(), 15);
    assert_eq!(geoms[0].name, "floor");
    assert_eq!(geoms[0].geom_type, GeomType::PLANE);
    assert!(geoms[0].mesh.is_none());
    assert_eq!(geoms[2].name, "trunk_collision");
    assert_eq!(geoms[2].geom_type, GeomType::BOX);
    assert_eq!(geoms[2].body_id, 1);
    assert_eq!(geoms[2].geom_group, 3);
    assert_eq!(geoms[2].geom_contype, 1);
    assert_eq!(geoms[2].pos, [2.0, 0.0, -2.0]);
    assert_eq!(geoms[2].quat, [1.0, 0.0, 0.0, 2.0]);
    assert_eq!(geoms[2].size, [2.5, 0.25, 0.125]);
    assert_eq!(geoms[2].color, [0.1, 0.2, 0.3, 1.0]);
    for (i, geom) in geoms.iter().enumerate() {
        assert_eq!(geom.id, i as i32);
    }
    let calf = &geoms[5];
    assert_eq!(calf.geom_type, GeomType::MESH);
    assert_eq!(calf.body_id, 4);
    let mesh = calf.mesh.as_ref().unwrap();
    assert_eq!(mesh.name, "calf");
    assert_eq!(mesh.vertices[0], [20.0, 20.1, 20.2]);
    assert_eq!(geoms[3].mesh.as_ref().unwrap().name, "hip");
    assert_eq!(geoms[4].mesh.as_ref().unwrap().name, "thigh");
}

#[test]
fn meshes_are_cut_from_their_tables() {
    let model = quadruped();
    assert_eq!(model.nmesh(), 3);
    assert_eq!(model.nmeshvert(), 9);
    assert_eq!(model.nmeshface(), 3);
    assert_eq!(model.mesh_vertadr(1), 3);
    assert_eq!(model.mesh_vertnum(1), 3);
    assert_eq!(model.mesh_faceadr(2), 2);
    assert_eq!(model.mesh_facenum(2), 1);
    let meshes = model.meshes();
    assert_eq!(meshes[1].name, "thigh");
    assert_eq!(
        meshes[1].vertices,
        vec![[10.0, 10.1, 10.2], [11.0, 11.1, 11.2], [12.0, 12.1, 12.2]]
    );
    assert_eq!(
        meshes[1].normals,
        vec![[0.0, 0.0, 10.0], [0.0, 0.0, 11.0], [0.0, 0.0, 12.0]]
    );
    assert_eq!(meshes[1].indices, vec![0, 2, 1]);
    let one = model.mesh(2);
    assert_eq!(one.name, "calf");
    assert_eq!(one.vertices.len(), 3);
    assert_eq!(one.vertices[2], [22.0, 22.1, 22.2]);
}

#[test]
fn poses_are_cut_from_their_tables_in_the_axes_of_the_simulation() {
    let model = quadruped();
    let positions = model.xpos();
    let rotations = model.xquat();
    assert_eq!(positions.len(), 14);
    assert_eq!(rotations.len(), 14);
    assert_eq!(positions[0], [10.0, 20.0, 30.0]);
    assert_eq!(positions[13], [23.0, 33.0, 43.0]);
    assert_eq!(rotations[0], [0.5, 0.25, 0.125, -0.0]);
    assert_eq!(rotations[2], [0.5, 2.25, 0.125, -2.0]);
    assert_eq!(model.nbody(), 14);
}

#[test]
fn the_forest_of_the_tables_is_that_of_their_bodies() {
    let model = quadruped();
    let trees = model.body_tree();
    assert_eq!(trees.len(), 2);
    assert_eq!(trees[0].node_count(), 1);
    assert_eq!(trees[1].node_count(), 13);
    assert_eq!(trees[1].root(), 1);
}

#[test]
fn flat_tables_are_cut_into_triples_and_quadruples() {
    let flat = [0.0, 1.0, 2.0, 3.0, 4.0, 5.0, 6.0, 7.0, 8.0, 9.0, 10.0, 11.0];
    assert_eq!(triple_at(&flat, 0), [0.0, 1.0, 2.0]);
    assert_eq!(triple_at(&flat, 3), [9.0, 10.0, 11.0]);
    assert_eq!(quad_at(&flat, 1), [4.0, 5.0, 6.0, 7.0]);
    assert_eq!(quad_at(&flat, 2), [8.0, 9.0, 10.0, 11.0]);
    assert_eq!(
        extract_mesh_attribute(&flat, 1, 2),
        vec![[3.0, 4.0, 5.0], [6.0, 7.0, 8.0]]
    );
    assert_eq!(extract_mesh_attribute(&flat, 4, 0), Vec::<[f64; 3]>::new());
    let faces = [0, 1, 2, 2, 1, 3, 4, 5, 6];
    assert_eq!(extract_indices(&faces, 1, 2), vec![2, 1, 3, 4, 5, 6]);
    assert_eq!(extract_indices(&faces, 0, 1), vec![0, 1, 2]);
    assert_eq!(extract_indices(&faces, 3, 0), Vec::<u32>::new());
    assert_eq!(extract_indices(&[-1, 0, 7], 0, 1), vec![u32::MAX, 0, 7]);
}

#[test]
fn tables_that_do_not_fit_together_are_told_apart() {
    assert!(empty().check());
    assert!(quadruped().check());

    let mut short = quadruped();
    short.body_pos.pop();
    assert!(!short.check());

    let mut long = quadruped();
    long.body_xquat.push(0.0);
    assert!(!long.check());

    let mut adr = quadruped();
    adr.name_bodyadr[3] = adr.names.len() as i32 + 1;
    assert!(!adr.check());
    adr.name_bodyadr[3] = adr.names.len() as i32;
    assert!(adr.check());
    adr.name_bodyadr[3] = -1;
    assert!(!adr.check());

    let mut kind = quadruped();
    kind.geom_type[1] = 8;
    assert!(!kind.check());
    kind.geom_type[1] = 1001;
    assert!(kind.check());
    kind.geom_type[1] = -6;
    assert!(!kind.check());

    let mut data = quadruped();
    data.geom_dataid[4] = 3;
    assert!(!data.check());
    data.geom_dataid[4] = -2;
    assert!(!data.check());

    let mut verts = quadruped();
    verts.mesh_vertnum[2] = 4;
    assert!(!verts.check());

    let mut normals = quadruped();
    normals.mesh_normal.pop();
    assert!(!normals.check());

    let mut faces = quadruped();
    faces.mesh_faceadr[2] = 3;
    assert!(!faces.check());
    faces.mesh_faceadr[2] = -1;
    assert!(!faces.check());

    let mut count = quadruped();
    count.geom_group.push(0);
    assert!(!count.check());
}
