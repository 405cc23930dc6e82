//! The kinematic forest: one tree per body that hangs directly from the world.
//!
//! A tree holds indices into the body table. Its mathematical model is its
//! outline: the nodes in depth-first order, children in the order in which they
//! were attached, each node with its depth below the root.

use crate::census::{lemma_tree_count, root_count_upto};
use crate::model::{Body, WORLD_ID};
use trees::Tree;
use vstd::prelude::*;

verus! {

/// `trees::Tree`, taken as it is: nothing is known of a tree but what the
/// functions below say of its outline.
#[verifier::external_type_specification]
#[verifier::external_body]
#[verifier::reject_recursive_types(T)]
pub struct ExTree<T>(Tree<T>);

/// The outline of a tree of `trees`: its nodes in depth-first order, children
/// first to last, each as (depth below the root, data).
pub uninterp spec fn tree_outline(t: Tree<usize>) -> Seq<(nat, usize)>;

/// The outline `s` moved one level down.
pub open spec fn deepen(s: Seq<(nat, usize)>) -> Seq<(nat, usize)> {
    Seq::new(s.len(), |i: int| ((s[i].0 + 1) as nat, s[i].1))
}

/// `s` is the outline of a tree whose root holds `data`: it starts with the root
/// at depth 0, and every other node lies deeper.
pub open spec fn is_outline_from(s: Seq<(nat, usize)>, data: usize) -> bool {
    &&& s.len() > 0
    &&& s[0] == (0nat, data)
    &&& forall|j: int| 1 <= j < s.len() ==> (#[trigger] s[j]).0 >= 1
}

/// What holds of the outline of every tree: it starts with the root at depth 0,
/// and every other node lies deeper.
pub open spec fn is_outline(s: Seq<(nat, usize)>) -> bool {
    s.len() > 0 && is_outline_from(s, s[0].1)
}

/// `trees::Tree::new`: a tree of one node that holds `data`.
#[verifier::external_body]
fn tree_new(data: usize) -> (t: Tree<usize>)
    ensures
        tree_outline(t) == seq![(0nat, data)],
{
    Tree::new(data)
}

/// `trees::Node::data` on the root: the data of the root, which is the first node
/// of the outline.
#[verifier::external_body]
fn tree_data(t: &Tree<usize>) -> (data: usize)
    ensures
        is_outline_from(tree_outline(*t), data),
{
    *t.data()
}

/// `trees::Tree::push_back`: `child` becomes the last child of the root of
/// `parent`, so its nodes follow all of the parent's, one level down.
#[verifier::external_body]
fn tree_push_back(parent: &mut Tree<usize>, child: Tree<usize>)
    ensures
        tree_outline(*final(parent)) == tree_outline(*old(parent)) + deepen(tree_outline(child)),
{
    parent.push_back(child)
}

/// `trees::Tree::pop_back`: detaches the last child of the root with all below
/// it, or returns `None` where the root has no child.
#[verifier::external_body]
fn tree_pop_back(t: &mut Tree<usize>) -> (last: Option<Tree<usize>>)
    ensures
        match last {
            Some(child) => {
                &&& is_outline(tree_outline(*final(t)))
                &&& is_outline(tree_outline(child))
                &&& tree_outline(*old(t)) == tree_outline(*final(t)) + deepen(tree_outline(child))
            },
            None => tree_outline(*final(t)) == tree_outline(*old(t)) && tree_outline(*old(t)).len() == 1,
        },
{
    t.pop_back()
}

/// `trees::Node::node_count` on the root: the number of nodes of the tree.
#[verifier::external_body]
fn tree_node_count(t: &Tree<usize>) -> (count: usize)
    ensures
        count == tree_outline(*t).len(),
{
    t.node_count()
}

/// Body `i` hangs directly from the world.
pub open spec fn is_root<S>(bodies: Seq<Body<S>>, i: int) -> bool {
    bodies[i].parent_id == WORLD_ID
}

/// Body `c` is a child of body `p`: it names `p` as its parent, is not its own
/// parent, and `p` is not the world.
pub open spec fn is_child<S>(bodies: Seq<Body<S>>, p: int, c: int) -> bool {
    &&& bodies[c].parent_id == bodies[p].id
    &&& bodies[c].id != bodies[c].parent_id
    &&& bodies[p].id != WORLD_ID
}

/// Outline of the subtrees of those children of body `p` that stand at table
/// position `from` or later, the children themselves at depth 0. Below a child
/// the tree is followed for `levels - 1` further levels.
pub open spec fn kids<S>(bodies: Seq<Body<S>>, p: int, from: int, levels: nat) -> Seq<(nat, usize)>
    decreases levels, bodies.len() - from,
{
    if levels == 0 || from < 0 || from >= bodies.len() {
        Seq::empty()
    } else {
        let here = if is_child(bodies, p, from) {
            subtree_of(from, kids(bodies, from, 0, (levels - 1) as nat))
        } else {
            Seq::empty()
        };
        here + kids(bodies, p, from + 1, levels)
    }
}

/// Outline of a tree with root `i` above the child subtrees `below`.
pub open spec fn subtree_of(i: int, below: Seq<(nat, usize)>) -> Seq<(nat, usize)> {
    seq![(0nat, i as usize)] + deepen(below)
}

/// Outline of the tree below body `i`, followed for `levels` levels.
pub open spec fn subtree<S>(bodies: Seq<Body<S>>, i: int, levels: nat) -> Seq<(nat, usize)> {
    subtree_of(i, kids(bodies, i, 0, levels))
}

/// Table positions below `upto` of the bodies that hang directly from the world,
/// in table order.
pub open spec fn roots_upto<S>(bodies: Seq<Body<S>>, upto: int) -> Seq<int>
    decreases upto,
{
    if upto <= 0 {
        Seq::empty()
    } else if is_root(bodies, upto - 1) {
        roots_upto(bodies, upto - 1).push(upto - 1)
    } else {
        roots_upto(bodies, upto - 1)
    }
}

/// Table positions of the bodies that hang directly from the world, in table order.
pub open spec fn roots<S>(bodies: Seq<Body<S>>) -> Seq<int> {
    roots_upto(bodies, bodies.len() as int)
}

/// The outlines of the trees below the roots among the first `upto` bodies, one
/// after the other.
pub open spec fn forest_upto<S>(bodies: Seq<Body<S>>, upto: int) -> Seq<(nat, usize)>
    decreases upto,
{
    if upto <= 0 {
        Seq::empty()
    } else if is_root(bodies, upto - 1) {
        forest_upto(bodies, upto - 1) + subtree(bodies, upto - 1, bodies.len())
    } else {
        forest_upto(bodies, upto - 1)
    }
}

/// The outlines of all trees of the forest, one after the other: every node of
/// the forest once.
pub open spec fn forest<S>(bodies: Seq<Body<S>>) -> Seq<(nat, usize)> {
    forest_upto(bodies, bodies.len() as int)
}

/// The outlines of `trees`, one after the other.
pub open spec fn joined(trees: Seq<BodyTree>) -> Seq<(nat, usize)>
    decreases trees.len(),
{
    if trees.len() == 0 {
        Seq::empty()
    } else {
        joined(trees.drop_last()) + trees.last()@
    }
}

/// Moving down one level distributes over joining two outlines.
pub proof fn lemma_deepen_add(a: Seq<(nat, usize)>, b: Seq<(nat, usize)>)
    ensures
        deepen(a + b) == deepen(a) + deepen(b),
{
    assert(deepen(a + b) =~= deepen(a) + deepen(b));
}

/// Every node of `s` holds a position of a table of `len` entries.
pub open spec fn in_table(s: Seq<(nat, usize)>, len: nat) -> bool {
    forall|j: int| 0 <= j < s.len() ==> (#[trigger] s[j]).1 < len
}

/// The child subtrees of a body hold positions of the body table only.
pub proof fn lemma_kids_in_table<S>(bodies: Seq<Body<S>>, p: int, from: int, levels: nat)
    requires
        bodies.len() <= usize::MAX,
    ensures
        in_table(kids(bodies, p, from, levels), bodies.len()),
    decreases levels, bodies.len() - from,
{
    if levels == 0 || from < 0 || from >= bodies.len() {
    } else {
        lemma_kids_in_table(bodies, p, from + 1, levels);
        if is_child(bodies, p, from) {
            lemma_kids_in_table(bodies, from, 0, (levels - 1) as nat);
        }
    }
}

/// The tree below a body of the table holds positions of the table only, and its
/// outline is that of a tree.
pub proof fn lemma_subtree_in_table<S>(bodies: Seq<Body<S>>, i: int, levels: nat)
    requires
        bodies.len() <= usize::MAX,
        0 <= i < bodies.len(),
    ensures
        in_table(subtree(bodies, i, levels), bodies.len()),
        is_outline(subtree(bodies, i, levels)),
{
    lemma_kids_in_table(bodies, i, 0, levels);
}

/// One tree of the kinematic forest. Each node holds the table position of a body.
pub struct BodyTree(pub Tree<usize>);

impl View for BodyTree {
    type V = Seq<(nat, usize)>;

    open spec fn view(&self) -> Seq<(nat, usize)> {
        tree_outline(self.0)
    }
}

/// Attaches below the root of `parent_leaf` the subtrees of the children of the
/// body it holds, in table order, following the table for `levels` levels.
fn collect_children<S>(parent_leaf: &mut Tree<usize>, bodies: &[Body<S>], levels: usize)
    requires
        tree_outline(*old(parent_leaf)).len() > 0,
        tree_outline(*old(parent_leaf))[0].1 < bodies@.len(),
    ensures
        tree_outline(*final(parent_leaf)) == tree_outline(*old(parent_leaf)) + deepen(
            kids(bodies@, tree_outline(*old(parent_leaf))[0].1 as int, 0, levels as nat),
        ),
    decreases levels,
{
    let ghost before = tree_outline(*parent_leaf);
    if levels == 0 {
        assert(before + deepen(Seq::<(nat, usize)>::empty()) =~= before);
        return ;
    }
    let parent: usize = tree_data(parent_leaf);
    let parent_id: i32 = bodies[parent].id;
    let ghost all = kids(bodies@, parent as int, 0, levels as nat);
    let mut from: usize = 0;
    while from < bodies.len()
        invariant
            from <= bodies@.len(),
            parent < bodies@.len(),
            parent_id == bodies@[parent as int].id,
            levels > 0,
            tree_outline(*parent_leaf) + deepen(kids(bodies@, parent as int, from as int, levels as nat))
                == before + deepen(all),
        decreases bodies@.len() - from,
    {
        let ghost cur = tree_outline(*parent_leaf);
        let ghost rest = kids(bodies@, parent as int, from as int + 1, levels as nat);
        let child = &bodies[from];
        if child.parent_id == parent_id && child.id != child.parent_id && parent_id != WORLD_ID {
            let mut leaf = tree_new(from);
            collect_children(&mut leaf, bodies, levels - 1);
            let ghost here = tree_outline(leaf);
            tree_push_back(parent_leaf, leaf);
            proof {
                assert(here == subtree_of(from as int, kids(bodies@, from as int, 0, (levels - 1) as nat)));
                lemma_deepen_add(here, rest);
                assert((cur + deepen(here)) + deepen(rest) =~= cur + (deepen(here) + deepen(rest)));
            }
        } else {
            proof {
                assert(Seq::<(nat, usize)>::empty() + rest =~= rest);
            }
        }
        from += 1;
    }
    proof {
        assert(tree_outline(*parent_leaf) + deepen(Seq::<(nat, usize)>::empty()) =~= tree_outline(*parent_leaf));
    }
}

/// The kinematic forest of a body table: one tree for each body whose parent is
/// the world, in table order. Below a root the children of a body are the bodies
/// that name it as their parent, in table order; a body that is its own parent is
/// nobody's child, and nothing hangs below a body with the world's id. A chain of
/// parents is followed for as many levels as the table has bodies, which is every
/// level of a table without cycles.
pub fn body_tree<S>(bodies: &[Body<S>]) -> (trees: Vec<BodyTree>)
    ensures
        trees@.len() == roots(bodies@).len(),
        trees@.len() == root_count_upto(bodies@, bodies@.len() as int),
        joined(trees@) == forest(bodies@),
        forall|k: int|
            0 <= k < trees@.len() ==> (#[trigger] trees@[k])@ == subtree(
                bodies@,
                roots(bodies@)[k],
                bodies@.len(),
            ),
{
    let mut trees: Vec<BodyTree> = Vec::new();
    let mut i: usize = 0;
    while i < bodies.len()
        invariant
            i <= bodies@.len(),
            trees@.len() == roots_upto(bodies@, i as int).len(),
            joined(trees@) == forest_upto(bodies@, i as int),
            forall|k: int|
                0 <= k < trees@.len() ==> (#[trigger] trees@[k])@ == subtree(
                    bodies@,
                    roots_upto(bodies@, i as int)[k],
                    bodies@.len(),
                ),
        decreases bodies@.len() - i,
    {
        if bodies[i].parent_id == WORLD_ID {
            let ghost before = trees@;
            trees.push(BodyTree::below(bodies, i));
            assert(trees@.drop_last() =~= before);
        }
        i += 1;
    }
    proof {
        lemma_tree_count(bodies@);
    }
    trees
}

/// Position in `s` of the last node at depth 1, the root's last child; 0 where
/// the root has no child.
pub open spec fn last_child_at(s: Seq<(nat, usize)>) -> int
    decreases s.len(),
{
    if s.len() <= 1 {
        0
    } else if s.last().0 == 1 {
        s.len() - 1
    } else {
        last_child_at(s.drop_last())
    }
}

/// The outline `s` moved one level up.
pub open spec fn raise(s: Seq<(nat, usize)>) -> Seq<(nat, usize)> {
    Seq::new(s.len(), |i: int| ((s[i].0 - 1) as nat, s[i].1))
}

/// Outline of the tree with outline `s` after the children of every node have
/// been put in reverse order.
pub open spec fn mirror(s: Seq<(nat, usize)>) -> Seq<(nat, usize)>
    decreases s.len(), 1nat,
{
    if s.len() == 0 {
        Seq::empty()
    } else {
        seq![s[0]] + mirror_below(s)
    }
}

/// The part of `mirror(s)` after the root: the child subtrees, last child first,
/// each mirrored.
pub open spec fn mirror_below(s: Seq<(nat, usize)>) -> Seq<(nat, usize)>
    decreases s.len(), 0nat,
{
    let k = last_child_at(s);
    if 1 <= k < s.len() {
        deepen(mirror(raise(s.subrange(k, s.len() as int)))) + mirror_below(s.subrange(0, k))
    } else {
        Seq::empty()
    }
}

/// The nodes of `s` as pairs of machine integers, `depth` levels further down.
pub open spec fn placed(s: Seq<(nat, usize)>, depth: nat) -> Seq<(usize, usize)> {
    Seq::new(s.len(), |i: int| ((s[i].0 + depth) as usize, s[i].1))
}

/// Where the root's last child with all below it is `child`, it starts where what
/// precedes it ends.
pub proof fn lemma_last_child(rest: Seq<(nat, usize)>, child: Seq<(nat, usize)>)
    requires
        rest.len() > 0,
        is_outline(child),
    ensures
        last_child_at(rest + deepen(child)) == rest.len(),
    decreases child.len(),
{
    let s = rest + deepen(child);
    if child.len() == 1 {
        assert(s.last() == deepen(child)[0]);
    } else {
        let shorter = child.drop_last();
        assert(s.last() == deepen(child)[child.len() - 1]);
        assert(child[child.len() - 1].0 >= 1);
        assert(s.drop_last() =~= rest + deepen(shorter));
        assert(is_outline(shorter)) by {
            assert forall|j: int| 1 <= j < shorter.len() implies (#[trigger] shorter[j]).0 >= 1 by {
                assert(shorter[j] == child[j]);
            }
        }
        lemma_last_child(rest, shorter);
    }
}

fn walk_into(tree: Tree<usize>, depth: usize, nodes: &mut Vec<(usize, usize)>)
    requires
        depth + tree_outline(tree).len() <= usize::MAX,
    ensures
        final(nodes)@ == old(nodes)@ + placed(mirror(tree_outline(tree)), depth as nat),
    decreases tree_outline(tree).len(),
{
    let ghost whole = tree_outline(tree);
    let ghost target = old(nodes)@ + placed(mirror(whole), depth as nat);
    let mut left = tree;
    let data: usize = tree_data(&left);
    nodes.push((depth, data));
    proof {
        assert(nodes@ + placed(mirror_below(whole), depth as nat) =~= target);
    }
    loop
        invariant
            whole == tree_outline(tree),
            is_outline(tree_outline(left)),
            depth + tree_outline(left).len() <= usize::MAX,
            tree_outline(left).len() <= whole.len(),
            nodes@ + placed(mirror_below(tree_outline(left)), depth as nat) == target,
        ensures
            nodes@ == target,
        decreases tree_outline(left).len(),
    {
        let ghost cur = tree_outline(left);
        let ghost done = nodes@;
        match tree_pop_back(&mut left) {
            None => {
                proof {
                    assert(nodes@ + placed(Seq::<(nat, usize)>::empty(), depth as nat) =~= nodes@);
                }
                break ;
            },
            Some(child) => {
                let ghost rest = tree_outline(left);
                let ghost sub = tree_outline(child);
                proof {
                    lemma_last_child(rest, sub);
                    assert(cur.subrange(rest.len() as int, cur.len() as int) =~= deepen(sub));
                    assert(raise(deepen(sub)) =~= sub);
                    assert(cur.subrange(0, rest.len() as int) =~= rest);
                    assert(mirror_below(cur) == deepen(mirror(sub)) + mirror_below(rest));
                }
                walk_into(child, depth + 1, nodes);
                proof {
                    assert(placed(deepen(mirror(sub)), depth as nat) =~= placed(
                        mirror(sub),
                        (depth + 1) as nat,
                    ));
                    assert(placed(deepen(mirror(sub)) + mirror_below(rest), depth as nat) =~= placed(
                        deepen(mirror(sub)),
                        depth as nat,
                    ) + placed(mirror_below(rest), depth as nat));
                    assert(nodes@ + placed(mirror_below(rest), depth as nat) =~= done + placed(
                        mirror_below(cur),
                        depth as nat,
                    ));
                }
            },
        }
    }
}

impl BodyTree {
    /// The tree below the body at table position `root`: its children are the
    /// bodies that name it as their parent, in table order, and so on below them,
    /// for as many levels as the table has bodies.
    pub fn below<S>(bodies: &[Body<S>], root: usize) -> (tree: BodyTree)
        requires
            root < bodies@.len(),
        ensures
            tree@ == subtree(bodies@, root as int, bodies@.len()),
    {
        let mut root_leaf = tree_new(root);
        collect_children(&mut root_leaf, bodies, bodies.len());
        BodyTree(root_leaf)
    }

    /// The number of nodes of the tree.
    pub fn node_count(&self) -> (count: usize)
        ensures
            count == self@.len(),
    {
        tree_node_count(&self.0)
    }

    /// The table position of the body at the root.
    pub fn root(&self) -> (body: usize)
        ensures
            is_outline(self@),
            body == self@[0].1,
    {
        tree_data(&self.0)
    }

    /// Detaches the child of the root that was attached last, with all below it.
    /// `None` where the root has no child.
    pub fn pop_back(&mut self) -> (last: Option<BodyTree>)
        ensures
            match last {
                Some(child) => {
                    &&& is_outline(final(self)@)
                    &&& is_outline(child@)
                    &&& old(self)@ == final(self)@ + deepen(child@)
                },
                None => final(self)@ == old(self)@ && old(self)@.len() == 1,
            },
    {
        match tree_pop_back(&mut self.0) {
            Some(child) => Some(BodyTree(child)),
            None => None,
        }
    }

    /// The nodes of the tree as (depth, table position of the body), depth first
    /// from the root, at every node the child attached last first.
    pub fn walk(self) -> (nodes: Vec<(usize, usize)>)
        ensures
            nodes@ == placed(mirror(self@), 0),
    {
        let count: usize = tree_node_count(&self.0);
        let mut nodes: Vec<(usize, usize)> = Vec::with_capacity(count);
        walk_into(self.0, 0, &mut nodes);
        proof {
            assert(Seq::<(usize, usize)>::empty() + placed(mirror(self@), 0) =~= placed(mirror(self@), 0));
        }
        nodes
    }
}

/// A tree of bodies written out node by node: the table position of a body, and
/// the trees below it, the child attached last first.
#[derive(Debug, PartialEq, Eq)]
pub struct BodyTreeSerialized {
    pub body: usize,
    pub children: Vec<BodyTreeSerialized>,
}

/// The outlines of the first `upto` of `children`, one after the other.
pub open spec fn records_outline(children: Seq<BodyTreeSerialized>, upto: int) -> Seq<(nat, usize)>
    decreases children, upto,
{
    if upto <= 0 || upto > children.len() {
        Seq::empty()
    } else {
        records_outline(children, upto - 1) + record_outline(children[upto - 1])
    }
}

/// The outline of a tree that is written out: its children in the order in which
/// they are written.
pub open spec fn record_outline(record: BodyTreeSerialized) -> Seq<(nat, usize)>
    decreases record,
{
    seq![(0nat, record.body)] + deepen(
        records_outline(record.children@, record.children@.len() as int),
    )
}

/// The outlines of the first children do not change when another child follows.
proof fn lemma_records_push(children: Seq<BodyTreeSerialized>, last: BodyTreeSerialized, upto: int)
    requires
        upto <= children.len(),
    ensures
        records_outline(children.push(last), upto) == records_outline(children, upto),
    decreases upto,
{
    if upto > 0 {
        lemma_records_push(children, last, upto - 1);
        assert(children.push(last)[upto - 1] == children[upto - 1]);
    }
}

fn serialize_tree(tree: Tree<usize>) -> (record: BodyTreeSerialized)
    ensures
        record_outline(record) == mirror(tree_outline(tree)),
    decreases tree_outline(tree).len(),
{
    let ghost whole = tree_outline(tree);
    let mut left = tree;
    let body: usize = tree_data(&left);
    let mut children: Vec<BodyTreeSerialized> = Vec::new();
    proof {
        assert(deepen(records_outline(children@, 0)) + mirror_below(whole) =~= mirror_below(whole));
    }
    loop
        invariant
            whole == tree_outline(tree),
            is_outline(tree_outline(left)),
            tree_outline(left).len() <= whole.len(),
            deepen(records_outline(children@, children@.len() as int)) + mirror_below(
                tree_outline(left),
            ) == mirror_below(whole),
        ensures
            deepen(records_outline(children@, children@.len() as int)) == mirror_below(whole),
        decreases tree_outline(left).len(),
    {
        let ghost cur = tree_outline(left);
        let ghost written = children@;
        match tree_pop_back(&mut left) {
            None => {
                proof {
                    let all = deepen(records_outline(children@, children@.len() as int));
                    assert(all + Seq::<(nat, usize)>::empty() =~= all);
                }
                break ;
            },
            Some(child) => {
                let ghost rest = tree_outline(left);
                let ghost sub = tree_outline(child);
                proof {
                    lemma_last_child(rest, sub);
                    assert(cur.subrange(rest.len() as int, cur.len() as int) =~= deepen(sub));
                    assert(raise(deepen(sub)) =~= sub);
                    assert(cur.subrange(0, rest.len() as int) =~= rest);
                    assert(mirror_below(cur) == deepen(mirror(sub)) + mirror_below(rest));
                }
                let record = serialize_tree(child);
                children.push(record);
                proof {
                    let before = records_outline(written, written.len() as int);
                    lemma_records_push(written, record, written.len() as int);
                    assert(records_outline(children@, children@.len() as int) == before
                        + record_outline(record));
                    lemma_deepen_add(before, mirror(sub));
                    assert((deepen(before) + deepen(mirror(sub))) + mirror_below(rest) =~= deepen(
                        before,
                    ) + (deepen(mirror(sub)) + mirror_below(rest)));
                }
            },
        }
    }
    BodyTreeSerialized { body, children }
}

impl BodyTree {
    /// The tree written out node by node, at every node the child attached last
    /// first.
    pub fn serialize(self) -> (record: BodyTreeSerialized)
        ensures
            record_outline(record) == mirror(self@),
    {
        serialize_tree(self.0)
    }
}

} // verus!
