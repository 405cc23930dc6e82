use bevy_mujoco::model::Body;
use bevy_mujoco::tree::{body_tree, BodyTree, BodyTreeSerialized};

fn body(id: i32, name: &str, parent_id: i32) -> Body<f64> {
    Body {
        id,
        name: name.to_string(),
        parent_id,
        geom_n: 0,
        geom_addr: 0,
        pos: [0.0, 0.0, 0.0],
        quat: [1.0, 0.0, 0.0, 0.0],
    }
}

fn quadruped() -> Vec<Body<f64>> {
    vec![
        body(0, "world", 0),
        body(1, "trunk", 0),
        body(2, "FR_hip", 1),
        body(3, "FR_thigh", 2),
        body(4, "FR_calf", 3),
        body(5, "FL_hip", 1),
        body(6, "FL_thigh", 5),
        body(7, "FL_calf", 6),
        body(8, "RR_hip", 1),
        body(9, "RR_thigh", 8),
        body(10, "RR_calf", 9),
        body(11, "RL_hip", 1),
        body(12, "RL_thigh", 11),
        body(13, "RL_calf", 12),
    ]
}

fn print_body_tree(tree: BodyTree, bodies: &[Body<f64>]) -> String {
    let mut ret = String::new();
    for (level, at) in tree.walk() {
        ret = format!("{}{}{}\n", ret, "--".repeat(level), bodies[at].name);
    }
    ret
}

#[test]
fn bodies_tree() {
    let bodies = quadruped();
    let mut bodies_tree = body_tree(&bodies);

    assert!(bodies_tree.len() == 2);

    let tree_structure = print_body_tree(bodies_tree.remove(1), &bodies);
    let exprected_tree_structure = r"trunk
--RL_hip
----RL_thigh
------RL_calf
--RR_hip
----RR_thigh
------RR_calf
--FL_hip
----FL_thigh
------FL_calf
--FR_hip
----FR_thigh
------FR_calf
";

    assert_eq!(tree_structure, exprected_tree_structure);
}

#[test]
fn world_entry_is_a_tree_of_its_own() {
    let bodies = quadruped();
    let trees = body_tree(&bodies);
    assert_eq!(trees[0].root(), 0);
    assert_eq!(trees[0].node_count(), 1);
    assert_eq!(trees[1].root(), 1);
    assert_eq!(trees[1].node_count(), 13);
}

fn total_nodes(bodies: &[Body<f64>]) -> usize {
    body_tree(bodies).iter().map(|tree| tree.node_count()).sum()
}

#[test]
fn a_model_without_a_world_entry_has_a_node_for_every_body() {
    let bodies = vec![
        body(1, "trunk", 0),
        body(2, "hip", 1),
        body(3, "thigh", 2),
        body(4, "arm", 1),
        body(5, "ball", 0),
    ];
    let trees = body_tree(&bodies);
    assert_eq!(trees.len(), 2);
    assert_eq!(total_nodes(&bodies), 5);
    assert_eq!(trees[0].root(), 0);
    assert_eq!(trees[1].root(), 4);
}

#[test]
fn the_world_entry_is_a_node_though_it_is_its_own_parent() {
    let bodies = quadruped();
    let own_parents = bodies.iter().filter(|b| b.id == b.parent_id).count();
    assert_eq!(own_parents, 1);
    assert_eq!(total_nodes(&bodies), 14);
    let roots = bodies.iter().filter(|b| b.parent_id == 0).count();
    assert_eq!(body_tree(&bodies).len(), roots);
}

#[test]
fn a_body_that_is_its_own_parent_is_nobodys_child() {
    let bodies = vec![
        body(1, "trunk", 0),
        body(2, "loop", 2),
        body(3, "hip", 1),
    ];
    let mut trees = body_tree(&bodies);
    assert_eq!(trees.len(), 1);
    assert_eq!(trees.remove(0).walk(), vec![(0, 0), (1, 2)]);
}

#[test]
fn bodies_need_not_stand_behind_their_parents() {
    let bodies = vec![
        body(3, "calf", 2),
        body(2, "thigh", 1),
        body(1, "hip", 0),
        body(4, "foot", 3),
    ];
    let mut trees = body_tree(&bodies);
    assert_eq!(trees.len(), 1);
    assert_eq!(
        trees.remove(0).walk(),
        vec![(0, 2), (1, 1), (2, 0), (3, 3)]
    );
}

#[test]
fn a_table_without_roots_has_an_empty_forest() {
    let none: Vec<Body<f64>> = vec![];
    assert_eq!(body_tree(&none).len(), 0);
    let circle = vec![body(1, "a", 2), body(2, "b", 1)];
    assert_eq!(body_tree(&circle).len(), 0);
    let unparented = vec![body(1, "a", 0), body(2, "b", 0), body(3, "c", 0)];
    let trees = body_tree(&unparented);
    assert_eq!(trees.len(), 3);
    assert!(trees.iter().all(|tree| tree.node_count() == 1));
}

#[test]
fn a_circle_of_parents_is_followed_for_as_many_levels_as_there_are_bodies() {
    // two bodies share id 1: one hangs from the world, the other closes a circle
    let bodies = vec![body(1, "root", 0), body(2, "down", 1), body(1, "again", 2)];
    let mut trees = body_tree(&bodies);
    assert_eq!(trees.len(), 1);
    assert_eq!(
        trees.remove(0).walk(),
        vec![(0, 0), (1, 1), (2, 2), (3, 1)]
    );
}

#[test]
fn children_come_off_a_tree_last_first() {
    let bodies = quadruped();
    let mut trees = body_tree(&bodies);
    let mut trunk = trees.remove(1);
    let last = trunk.pop_back().unwrap();
    assert_eq!(last.root(), 11);
    assert_eq!(last.node_count(), 3);
    assert_eq!(trunk.node_count(), 10);
    assert_eq!(trunk.pop_back().unwrap().root(), 8);
    assert_eq!(trunk.pop_back().unwrap().root(), 5);
    assert_eq!(trunk.pop_back().unwrap().root(), 2);
    assert!(trunk.pop_back().is_none());
    assert_eq!(trunk.node_count(), 1);
    assert_eq!(trunk.walk(), vec![(0, 1)]);
}

#[test]
fn a_tree_can_be_built_below_any_body() {
    let bodies = quadruped();
    let hip = BodyTree::below(&bodies, 5);
    assert_eq!(hip.node_count(), 3);
    assert_eq!(hip.walk(), vec![(0, 5), (1, 6), (2, 7)]);
    let world = BodyTree::below(&bodies, 0);
    assert_eq!(world.walk(), vec![(0, 0)]);
}

fn leaf(body: usize) -> BodyTreeSerialized {
    BodyTreeSerialized { body, children: vec![] }
}

fn chain(bodies: [usize; 3]) -> BodyTreeSerialized {
    BodyTreeSerialized {
        body: bodies[0],
        children: vec![BodyTreeSerialized {
            body: bodies[1],
            children: vec![leaf(bodies[2])],
        }],
    }
}

#[test]
fn a_tree_is_written_out_last_child_first() {
    let bodies = quadruped();
    let mut trees = body_tree(&bodies);
    let trunk = trees.remove(1);
    let world = trees.remove(0);
    assert_eq!(world.serialize(), leaf(0));
    assert_eq!(
        trunk.serialize(),
        BodyTreeSerialized {
            body: 1,
            children: vec![
                chain([11, 12, 13]),
                chain([8, 9, 10]),
                chain([5, 6, 7]),
                chain([2, 3, 4]),
            ],
        }
    );
}
