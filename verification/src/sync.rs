//! What is done to the scene: the entities made for the bodies when a model is
//! loaded, and the poses written to them in every frame. The library decides; the
//! caller steps the simulation, reads its poses and moves the scene nodes.

use crate::geometry::render_choice;
use crate::model::{Body, Geom, GeomType};
use crate::tree::{
    in_table, is_outline, is_root, last_child_at, lemma_last_child, lemma_subtree_in_table, raise,
    subtree, BodyTree,
};
use vstd::prelude::*;

verus! {

/// Tag of the scene node that stands for a body.
#[derive(Debug, Clone, Copy, PartialEq, Eq, Structural)]
pub struct MuJoCoBody {
    pub id: i32,
    pub root_body: bool,
}

/// Tag of the scene node that shows the mesh of a geom.
#[derive(Debug, Clone, Copy, PartialEq, Eq, Structural)]
pub struct MuJoCoMesh {
    pub id: i32,
}

/// How the simulation is run.
#[derive(Debug, Clone)]
pub struct MuJoCoPluginSettings<S> {
    pub model_xml_path: String,
    pub pause_simulation: bool,
    pub target_fps: S,
}

/// What the simulation reports after a frame.
#[derive(Debug, Clone)]
pub struct MuJoCoState<S> {
    pub sensor_data: Vec<S>,
    pub qpos: Vec<S>,
    pub qvel: Vec<S>,
    pub cfrc_ext: Vec<[S; 6]>,
}

/// One scalar per actuator, written into the simulation before it is stepped.
#[derive(Debug, Clone)]
pub struct MuJoCoControl<S> {
    pub data: Vec<S>,
    pub number_of_controls: usize,
}

/// The model tables with the latest state and control.
#[derive(Debug, Clone)]
pub struct MuJoCoResources<S> {
    pub geoms: Vec<Geom<S>>,
    pub bodies: Vec<Body<S>>,
    pub state: MuJoCoState<S>,
    pub control: MuJoCoControl<S>,
}

/// A control vector that does not fit the model.
#[derive(Debug, Clone, Copy, PartialEq, Eq, Structural)]
pub enum ConfigError {
    /// The control vector holds `found` scalars where the model has `expected`
    /// actuators.
    ControlLength { expected: usize, found: usize },
}

impl<S> MuJoCoControl<S> {
    /// Whether the control vector has one scalar for each actuator.
    pub fn check(&self) -> (r: Result<(), ConfigError>)
        ensures
            r == if self.data@.len() == self.number_of_controls {
                Ok::<(), ConfigError>(())
            } else {
                Err::<(), ConfigError>(
                    ConfigError::ControlLength {
                        expected: self.number_of_controls,
                        found: self.data@.len() as usize,
                    },
                )
            },
    {
        if self.data.len() == self.number_of_controls {
            Ok(())
        } else {
            Err(ConfigError::ControlLength { expected: self.number_of_controls, found: self.data.len() })
        }
    }
}

/// A scene node that cannot be brought up to date.
#[derive(Debug, Clone, Copy, PartialEq, Eq, Structural)]
pub enum SyncError {
    /// Scene node `node` is tagged with an id that is no position of the body table.
    UnknownBody { node: usize },
    /// The body of scene node `node` names a parent that is no position of the
    /// body table.
    UnknownParent { node: usize },
}

/// One pose to write: scene node `node` gets the pose of the body at table
/// position `body` relative to that of the body at `parent`.
#[derive(Debug, Clone, Copy, PartialEq, Eq, Structural)]
pub struct PoseUpdate {
    /// Position of the scene node among the nodes handed in.
    pub node: usize,
    /// Table position of the node's body; its absolute pose is read there.
    pub body: usize,
    /// Table position of the parent; its absolute pose is read there.
    pub parent: usize,
    /// Table position of the geom drawn for the body.
    pub geom: usize,
    /// The body hangs from the world: the quarter turn that lines up the two
    /// world frames is applied to its pose.
    pub root_body: bool,
    /// The geom is a generated shape, no mesh: its anchor correction is
    /// subtracted from the translation.
    pub anchored: bool,
}

/// What is done for one scene node in a frame.
#[derive(Debug, Clone, Copy, PartialEq, Eq, Structural)]
pub enum NodePlan {
    /// The body has nothing to draw; the node is left alone.
    Skip,
    /// The node gets a new pose.
    Update(PoseUpdate),
    /// The node cannot be served.
    Fail(SyncError),
}

/// What is done for scene node `node` with tag `tag`.
pub open spec fn node_plan<S>(
    tag: MuJoCoBody,
    node: usize,
    bodies: Seq<Body<S>>,
    geoms: Seq<Geom<S>>,
) -> NodePlan {
    if !(0 <= tag.id < bodies.len()) {
        NodePlan::Fail(SyncError::UnknownBody { node })
    } else {
        let body = bodies[tag.id as int];
        match render_choice(geoms, body.id) {
            None => NodePlan::Skip,
            Some(g) => if !(0 <= body.parent_id < bodies.len()) {
                NodePlan::Fail(SyncError::UnknownParent { node })
            } else {
                NodePlan::Update(
                    PoseUpdate {
                        node,
                        body: tag.id as usize,
                        parent: body.parent_id as usize,
                        geom: g as usize,
                        root_body: tag.root_body,
                        anchored: geoms[g].geom_type != GeomType::MESH,
                    },
                )
            },
        }
    }
}

/// The poses to write for the first `upto` scene nodes, in their order, or the
/// failure of the first node that cannot be served.
pub open spec fn updates_upto<S>(
    nodes: Seq<MuJoCoBody>,
    bodies: Seq<Body<S>>,
    geoms: Seq<Geom<S>>,
    upto: int,
) -> Result<Seq<PoseUpdate>, SyncError>
    decreases upto,
{
    if upto <= 0 {
        Ok(Seq::empty())
    } else {
        match updates_upto(nodes, bodies, geoms, upto - 1) {
            Err(e) => Err(e),
            Ok(list) => match node_plan(nodes[upto - 1], (upto - 1) as usize, bodies, geoms) {
                NodePlan::Skip => Ok(list),
                NodePlan::Update(u) => Ok(list.push(u)),
                NodePlan::Fail(e) => Err(e),
            },
        }
    }
}

/// What one frame does: whether the simulation is stepped, and the poses to write
/// after it.
#[derive(Debug, Clone, PartialEq, Eq)]
pub struct FramePlan {
    /// The control vector is written and the simulation is advanced until its
    /// clock has covered the frame's share of time.
    pub step: bool,
    /// The poses to write to the scene nodes, in the order of the nodes.
    pub updates: Vec<PoseUpdate>,
}

/// What is done for one scene node in a frame: nothing where its body has no geom
/// to draw, else the pose to write.
pub fn plan_node<S>(tag: &MuJoCoBody, node: usize, bodies: &[Body<S>], geoms: &[Geom<S>]) -> (plan:
    NodePlan)
    ensures
        plan == node_plan(*tag, node, bodies@, geoms@),
{
    if tag.id < 0 || tag.id as usize >= bodies.len() {
        return NodePlan::Fail(SyncError::UnknownBody { node });
    }
    let at: usize = tag.id as usize;
    let body = &bodies[at];
    match body.render_geom_index(geoms) {
        None => NodePlan::Skip,
        Some(g) => {
            if body.parent_id < 0 || body.parent_id as usize >= bodies.len() {
                NodePlan::Fail(SyncError::UnknownParent { node })
            } else {
                NodePlan::Update(
                    PoseUpdate {
                        node,
                        body: at,
                        parent: body.parent_id as usize,
                        geom: g,
                        root_body: tag.root_body,
                        anchored: !geoms[g].geom_type.is_mesh(),
                    },
                )
            }
        },
    }
}

/// What the frame does. A paused simulation is not stepped and no pose is
/// written, so the scene stays as it is. Otherwise the simulation is stepped and
/// every scene node whose body has a geom to draw gets the pose of its body
/// relative to the parent's.
pub fn simulate_physics<S>(
    settings: &MuJoCoPluginSettings<S>,
    nodes: &[MuJoCoBody],
    resources: &MuJoCoResources<S>,
) -> (plan: Result<FramePlan, SyncError>)
    ensures
        settings.pause_simulation ==> (plan matches Ok(p) && !p.step && p.updates@.len() == 0),
        !settings.pause_simulation ==> match updates_upto(
            nodes@,
            resources.bodies@,
            resources.geoms@,
            nodes@.len() as int,
        ) {
            Ok(list) => plan matches Ok(p) && p.step && p.updates@ == list,
            Err(e) => plan == Err::<FramePlan, SyncError>(e),
        },
{
    if settings.pause_simulation {
        return Ok(FramePlan { step: false, updates: Vec::new() });
    }
    let mut updates: Vec<PoseUpdate> = Vec::new();
    let mut i: usize = 0;
    while i < nodes.len()
        invariant
            i <= nodes@.len(),
            !settings.pause_simulation,
            updates_upto(nodes@, resources.bodies@, resources.geoms@, i as int) == Ok::<
                Seq<PoseUpdate>,
                SyncError,
            >(updates@),
        decreases nodes@.len() - i,
    {
        match plan_node(&nodes[i], i, resources.bodies.as_slice(), resources.geoms.as_slice()) {
            NodePlan::Skip => {},
            NodePlan::Update(u) => {
                updates.push(u);
            },
            NodePlan::Fail(e) => {
                proof {
                    lemma_updates_fail(
                        nodes@,
                        resources.bodies@,
                        resources.geoms@,
                        i as int + 1,
                        nodes@.len() as int,
                    );
                }
                return Err(e);
            },
        }
        i += 1;
    }
    Ok(FramePlan { step: true, updates })
}

/// Once a node has failed, the failure stays whatever nodes follow.
proof fn lemma_updates_fail<S>(
    nodes: Seq<MuJoCoBody>,
    bodies: Seq<Body<S>>,
    geoms: Seq<Geom<S>>,
    at: int,
    upto: int,
)
    requires
        at <= upto,
        updates_upto(nodes, bodies, geoms, at).is_err(),
    ensures
        updates_upto(nodes, bodies, geoms, upto) == updates_upto(nodes, bodies, geoms, at),
    decreases upto - at,
{
    if at < upto {
        lemma_updates_fail(nodes, bodies, geoms, at, upto - 1);
    }
}

/// One entity to make for a body when the model is loaded.
#[derive(Debug, Clone, Copy, PartialEq, Eq, Structural)]
pub struct SpawnStep {
    /// Table position of the body.
    pub body: usize,
    /// Table position of the geom drawn for the body.
    pub geom: usize,
    /// Depth of the body below the root of its tree.
    pub depth: usize,
    /// The step that made the parent's entity; `None` for the root of a tree,
    /// whose entity hangs from the world's.
    pub parent: Option<usize>,
    /// The body hangs from the world: the quarter turn that lines up the two
    /// world frames is applied to its pose.
    pub root_body: bool,
    /// The geom is a generated shape, no mesh: it is turned upright, and its
    /// anchor correction applies.
    pub generated: bool,
    /// The tag of the mesh node, for a geom of mesh kind.
    pub mesh: Option<MuJoCoMesh>,
}

/// The entity made for the body at table position `body`, drawn by geom `g`.
pub open spec fn spawn_step<S>(
    geoms: Seq<Geom<S>>,
    body: usize,
    g: int,
    depth: nat,
    parent: Option<usize>,
) -> SpawnStep {
    SpawnStep {
        body,
        geom: g as usize,
        depth: depth as usize,
        parent,
        root_body: depth == 0,
        generated: geoms[g].geom_type != GeomType::MESH,
        mesh: if geoms[g].geom_type == GeomType::MESH {
            Some(MuJoCoMesh { id: geoms[g].id })
        } else {
            None
        },
    }
}

/// The entities made for the tree with outline `s`, whose root is at `depth` and
/// hangs from the entity of step `parent`, where `base` steps have been made
/// before. A body with nothing to draw gets no entity, and neither does any body
/// below it.
pub open spec fn spawn_tree<S>(
    bodies: Seq<Body<S>>,
    geoms: Seq<Geom<S>>,
    s: Seq<(nat, usize)>,
    depth: nat,
    parent: Option<usize>,
    base: nat,
) -> Seq<SpawnStep>
    decreases s.len(), 1nat,
{
    if s.len() == 0 {
        Seq::empty()
    } else {
        match render_choice(geoms, bodies[s[0].1 as int].id) {
            None => Seq::empty(),
            Some(g) => seq![spawn_step(geoms, s[0].1, g, depth, parent)] + spawn_below(
                bodies,
                geoms,
                s,
                depth + 1,
                base,
                base + 1,
            ),
        }
    }
}

/// The entities made for what hangs below the root of `s`, the child attached
/// last first. The children are at `depth` and hang from the entity of step
/// `parent`; `base` steps have been made before.
pub open spec fn spawn_below<S>(
    bodies: Seq<Body<S>>,
    geoms: Seq<Geom<S>>,
    s: Seq<(nat, usize)>,
    depth: nat,
    parent: nat,
    base: nat,
) -> Seq<SpawnStep>
    decreases s.len(), 0nat,
{
    let k = last_child_at(s);
    if 1 <= k < s.len() {
        let first = spawn_tree(
            bodies,
            geoms,
            raise(s.subrange(k, s.len() as int)),
            depth,
            Some(parent as usize),
            base,
        );
        first + spawn_below(bodies, geoms, s.subrange(0, k), depth, parent, base + first.len())
    } else {
        Seq::empty()
    }
}

/// The entities made for the trees of the roots among the first `upto` bodies.
pub open spec fn spawn_roots<S>(bodies: Seq<Body<S>>, geoms: Seq<Geom<S>>, upto: int) -> Seq<SpawnStep>
    decreases upto,
{
    if upto <= 0 {
        Seq::empty()
    } else {
        let before = spawn_roots(bodies, geoms, upto - 1);
        if is_root(bodies, upto - 1) {
            before + spawn_tree(
                bodies,
                geoms,
                subtree(bodies, upto - 1, bodies.len()),
                0,
                None,
                before.len(),
            )
        } else {
            before
        }
    }
}

fn spawn_into<S>(
    tree: BodyTree,
    depth: usize,
    parent: Option<usize>,
    bodies: &[Body<S>],
    geoms: &[Geom<S>],
    steps: &mut Vec<SpawnStep>,
)
    requires
        depth + tree@.len() <= usize::MAX,
        in_table(tree@, bodies@.len()),
    ensures
        final(steps)@ == old(steps)@ + spawn_tree(
            bodies@,
            geoms@,
            tree@,
            depth as nat,
            parent,
            old(steps)@.len(),
        ),
    decreases tree@.len(),
{
    let ghost whole = tree@;
    let ghost before = steps@;
    let ghost target = before + spawn_tree(bodies@, geoms@, whole, depth as nat, parent, before.len());
    let mut left = tree;
    let at: usize = left.root();
    assert(whole[0].1 < bodies@.len());
    let g: usize = match bodies[at].render_geom_index(geoms) {
        None => {
            proof {
                assert(before + Seq::<SpawnStep>::empty() =~= before);
            }
            return ;
        },
        Some(g) => g,
    };
    let me: usize = steps.len();
    let is_mesh = geoms[g].geom_type.is_mesh();
    steps.push(
        SpawnStep {
            body: at,
            geom: g,
            depth,
            parent,
            root_body: depth == 0,
            generated: !is_mesh,
            mesh: if is_mesh {
                Some(MuJoCoMesh { id: geoms[g].id })
            } else {
                None
            },
        },
    );
    proof {
        assert(steps@ + spawn_below(
            bodies@,
            geoms@,
            whole,
            (depth + 1) as nat,
            me as nat,
            (me + 1) as nat,
        ) =~= target);
    }
    loop
        invariant
            whole == tree@,
            is_outline(left@),
            in_table(left@, bodies@.len()),
            depth + left@.len() <= usize::MAX,
            left@.len() <= whole.len(),
            me < steps@.len(),
            steps@ + spawn_below(
                bodies@,
                geoms@,
                left@,
                (depth + 1) as nat,
                me as nat,
                steps@.len(),
            ) == target,
        ensures
            steps@ == target,
        decreases left@.len(),
    {
        let ghost cur = left@;
        let ghost done = steps@;
        match left.pop_back() {
            None => {
                proof {
                    assert(steps@ + Seq::<SpawnStep>::empty() =~= steps@);
                }
                break ;
            },
            Some(child) => {
                let ghost rest = left@;
                let ghost sub = child@;
                proof {
                    lemma_last_child(rest, sub);
                    assert(cur.subrange(rest.len() as int, cur.len() as int) =~= crate::tree::deepen(
                        sub,
                    ));
                    assert(raise(crate::tree::deepen(sub)) =~= sub);
                    assert(cur.subrange(0, rest.len() as int) =~= rest);
                    assert forall|j: int| 0 <= j < sub.len() implies (#[trigger] sub[j]).1
                        < bodies@.len() by {
                        assert(cur[rest.len() + j].1 == sub[j].1);
                    }
                    assert forall|j: int| 0 <= j < rest.len() implies (#[trigger] rest[j]).1
                        < bodies@.len() by {
                        assert(cur[j] == rest[j]);
                    }
                }
                spawn_into(child, depth + 1, Some(me), bodies, geoms, steps);
                proof {
                    let first = spawn_tree(
                        bodies@,
                        geoms@,
                        sub,
                        (depth + 1) as nat,
                        Some(me),
                        done.len(),
                    );
                    assert(steps@ == done + first);
                    assert((done + first) + spawn_below(
                        bodies@,
                        geoms@,
                        rest,
                        (depth + 1) as nat,
                        me as nat,
                        done.len() + first.len(),
                    ) =~= done + spawn_below(
                        bodies@,
                        geoms@,
                        cur,
                        (depth + 1) as nat,
                        me as nat,
                        done.len(),
                    ));
                }
            },
        }
    }
}

/// The entities to make when a model is loaded, in the order in which they are
/// made. The forest of the body table is walked tree by tree, each tree from its
/// root down, at every body the child attached last first. A body with a geom to
/// draw gets an entity below that of its parent; a body without one gets none,
/// and nothing below it is visited.
pub fn setup_mujoco<S>(bodies: &[Body<S>], geoms: &[Geom<S>]) -> (steps: Vec<SpawnStep>)
    ensures
        steps@ == spawn_roots(bodies@, geoms@, bodies@.len() as int),
{
    let mut steps: Vec<SpawnStep> = Vec::new();
    let mut i: usize = 0;
    while i < bodies.len()
        invariant
            i <= bodies@.len(),
            steps@ == spawn_roots(bodies@, geoms@, i as int),
        decreases bodies@.len() - i,
    {
        if bodies[i].parent_id == crate::model::WORLD_ID {
            let tree = BodyTree::below(bodies, i);
            steps.reserve(tree.node_count());
            proof {
                lemma_subtree_in_table(bodies@, i as int, bodies@.len());
            }
            spawn_into(tree, 0, None, bodies, geoms, &mut steps);
        }
        i += 1;
    }
    steps
}

} // verus!
