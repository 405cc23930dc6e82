//! How many nodes the kinematic forest has, and which bodies they are.
//!
//! In a table whose ids are distinct and whose bodies all hang from the world,
//! every body that is a root or not its own parent is a node of the forest exactly
//! once, and no other body is.

use crate::model::Body;
use crate::tree::{
    deepen, forest, forest_upto, in_table, is_child, is_root, kids, lemma_subtree_in_table, roots,
    roots_upto, subtree,
};
use vstd::prelude::*;

verus! {

/// Body `i` names itself as its parent.
pub open spec fn is_own_parent<S>(bodies: Seq<Body<S>>, i: int) -> bool {
    bodies[i].id == bodies[i].parent_id
}

/// Body `i` hangs from the world through `d` bodies above it: a root for `d == 0`,
/// else the child of a body that hangs from the world through `d - 1`.
pub open spec fn hangs_at<S>(bodies: Seq<Body<S>>, i: int, d: nat) -> bool
    decreases d,
{
    if d == 0 {
        is_root(bodies, i)
    } else {
        exists|p: int|
            0 <= p < bodies.len() && #[trigger] is_child(bodies, p, i) && hangs_at(
                bodies,
                p,
                (d - 1) as nat,
            )
    }
}

/// Body `i` is found `d` levels below body `p`.
pub open spec fn below<S>(bodies: Seq<Body<S>>, p: int, i: int, d: nat) -> bool
    decreases d,
{
    if d == 0 {
        p == i
    } else {
        exists|c: int|
            0 <= c < bodies.len() && #[trigger] is_child(bodies, p, c) && below(
                bodies,
                c,
                i,
                (d - 1) as nat,
            )
    }
}

/// No two bodies of the table have the same id.
pub open spec fn has_distinct_ids<S>(bodies: Seq<Body<S>>) -> bool {
    forall|i: int, j: int|
        #![trigger bodies[i], bodies[j]]
        0 <= i < bodies.len() && 0 <= j < bodies.len() && i != j ==> bodies[i].id != bodies[j].id
}

/// The table describes a mechanism: ids are distinct, and every body that is not
/// its own parent hangs from the world, through fewer bodies than the table has.
pub open spec fn is_model<S>(bodies: Seq<Body<S>>) -> bool {
    &&& bodies.len() <= usize::MAX
    &&& has_distinct_ids(bodies)
    &&& forall|i: int|
        0 <= i < bodies.len() && !#[trigger] is_own_parent(bodies, i) ==> exists|d: nat|
            d < bodies.len() && hangs_at(bodies, i, d)
}

/// Body `i` is a node of the forest of a model: a root, or not its own parent.
pub open spec fn is_node<S>(bodies: Seq<Body<S>>, i: int) -> bool {
    is_root(bodies, i) || !is_own_parent(bodies, i)
}

/// The number of bodies among the first `upto` that are roots or not their own
/// parent.
pub open spec fn node_count_upto<S>(bodies: Seq<Body<S>>, upto: int) -> nat
    decreases upto,
{
    if upto <= 0 {
        0
    } else if is_node(bodies, upto - 1) {
        node_count_upto(bodies, upto - 1) + 1
    } else {
        node_count_upto(bodies, upto - 1)
    }
}

/// The number of bodies among the first `upto` that are not their own parent.
pub open spec fn free_count_upto<S>(bodies: Seq<Body<S>>, upto: int) -> nat
    decreases upto,
{
    if upto <= 0 {
        0
    } else if !is_own_parent(bodies, upto - 1) {
        free_count_upto(bodies, upto - 1) + 1
    } else {
        free_count_upto(bodies, upto - 1)
    }
}

/// The number of bodies among the first `upto` whose parent is the world.
pub open spec fn root_count_upto<S>(bodies: Seq<Body<S>>, upto: int) -> nat
    decreases upto,
{
    if upto <= 0 {
        0
    } else if is_root(bodies, upto - 1) {
        root_count_upto(bodies, upto - 1) + 1
    } else {
        root_count_upto(bodies, upto - 1)
    }
}

/// How often the body at table position `i` occurs in the outline `s`.
pub open spec fn occurrences(s: Seq<(nat, usize)>, i: int) -> nat
    decreases s.len(),
{
    if s.len() == 0 {
        0
    } else {
        occurrences(s.drop_last(), i) + if s.last().1 == i {
            1nat
        } else {
            0nat
        }
    }
}

/// The occurrences in `s` of the first `upto` table positions, added up.
pub open spec fn occurrences_upto(s: Seq<(nat, usize)>, upto: int) -> nat
    decreases upto,
{
    if upto <= 0 {
        0
    } else {
        occurrences_upto(s, upto - 1) + occurrences(s, upto - 1)
    }
}

proof fn lemma_occurrences_add(a: Seq<(nat, usize)>, b: Seq<(nat, usize)>, i: int)
    ensures
        occurrences(a + b, i) == occurrences(a, i) + occurrences(b, i),
    decreases b.len(),
{
    if b.len() == 0 {
        assert(a + b =~= a);
    } else {
        assert((a + b).drop_last() =~= a + b.drop_last());
        assert((a + b).last() == b.last());
        lemma_occurrences_add(a, b.drop_last(), i);
    }
}

proof fn lemma_occurrences_deepen(s: Seq<(nat, usize)>, i: int)
    ensures
        occurrences(deepen(s), i) == occurrences(s, i),
    decreases s.len(),
{
    if s.len() > 0 {
        assert(deepen(s).drop_last() =~= deepen(s.drop_last()));
        assert(deepen(s).last().1 == s.last().1);
        lemma_occurrences_deepen(s.drop_last(), i);
    }
}

proof fn lemma_occurrences_one(e: (nat, usize), i: int)
    ensures
        occurrences(seq![e], i) == if e.1 == i {
            1nat
        } else {
            0nat
        },
{
    let one = seq![e];
    assert(one.drop_last() =~= Seq::<(nat, usize)>::empty());
    assert(one.last() == e);
    assert(occurrences(one.drop_last(), i) == 0);
    assert(occurrences(one, i) == occurrences(one.drop_last(), i) + if one.last().1 == i {
        1nat
    } else {
        0nat
    });
}

/// The occurrences of `i` in the tree with root `c` above `below_it`.
proof fn lemma_occurrences_subtree(c: int, below_it: Seq<(nat, usize)>, i: int)
    requires
        0 <= c <= usize::MAX,
    ensures
        occurrences(crate::tree::subtree_of(c, below_it), i) == occurrences(below_it, i) + if c == i {
            1nat
        } else {
            0nat
        },
{
    lemma_occurrences_add(seq![(0nat, c as usize)], deepen(below_it), i);
    lemma_occurrences_one((0nat, c as usize), i);
    lemma_occurrences_deepen(below_it, i);
}

/// A body has at most one parent in a table of distinct ids.
proof fn lemma_one_parent<S>(bodies: Seq<Body<S>>, p: int, q: int, c: int)
    requires
        has_distinct_ids(bodies),
        0 <= p < bodies.len(),
        0 <= q < bodies.len(),
        is_child(bodies, p, c),
        is_child(bodies, q, c),
    ensures
        p == q,
{
    if p != q {
        assert(bodies[p].id != bodies[q].id);
    }
}

/// A body hangs from the world at one depth only.
proof fn lemma_one_depth<S>(bodies: Seq<Body<S>>, i: int, d: nat, e: nat)
    requires
        has_distinct_ids(bodies),
        hangs_at(bodies, i, d),
        hangs_at(bodies, i, e),
    ensures
        d == e,
    decreases d,
{
    if d == 0 {
        if e != 0 {
            let q = choose|q: int|
                0 <= q < bodies.len() && #[trigger] is_child(bodies, q, i) && hangs_at(
                    bodies,
                    q,
                    (e - 1) as nat,
                );
        }
    } else {
        let p = choose|p: int|
            0 <= p < bodies.len() && #[trigger] is_child(bodies, p, i) && hangs_at(
                bodies,
                p,
                (d - 1) as nat,
            );
        if e == 0 {
        } else {
            let q = choose|q: int|
                0 <= q < bodies.len() && #[trigger] is_child(bodies, q, i) && hangs_at(
                    bodies,
                    q,
                    (e - 1) as nat,
                );
            lemma_one_parent(bodies, p, q, i);
            lemma_one_depth(bodies, p, (d - 1) as nat, (e - 1) as nat);
        }
    }
}

/// Only one body has a given body a given number of levels below it.
proof fn lemma_one_ancestor<S>(bodies: Seq<Body<S>>, p: int, q: int, i: int, d: nat)
    requires
        has_distinct_ids(bodies),
        0 <= p < bodies.len(),
        0 <= q < bodies.len(),
        below(bodies, p, i, d),
        below(bodies, q, i, d),
    ensures
        p == q,
    decreases d,
{
    if d > 0 {
        let x = choose|x: int|
            0 <= x < bodies.len() && #[trigger] is_child(bodies, p, x) && below(
                bodies,
                x,
                i,
                (d - 1) as nat,
            );
        let y = choose|y: int|
            0 <= y < bodies.len() && #[trigger] is_child(bodies, q, y) && below(
                bodies,
                y,
                i,
                (d - 1) as nat,
            );
        lemma_one_ancestor(bodies, x, y, i, (d - 1) as nat);
        lemma_one_parent(bodies, p, q, x);
    }
}

/// A child of the body that lies lowest is one level further down.
proof fn lemma_below_child<S>(bodies: Seq<Body<S>>, r: int, p: int, i: int, d: nat)
    requires
        0 <= i < bodies.len(),
        0 <= p < bodies.len(),
        below(bodies, r, p, d),
        is_child(bodies, p, i),
    ensures
        below(bodies, r, i, d + 1),
    decreases d,
{
    if d == 0 {
        assert(below(bodies, i, i, 0));
        assert(is_child(bodies, r, i) && below(bodies, i, i, 0));
    } else {
        let c = choose|c: int|
            0 <= c < bodies.len() && #[trigger] is_child(bodies, r, c) && below(
                bodies,
                c,
                p,
                (d - 1) as nat,
            );
        lemma_below_child(bodies, c, p, i, (d - 1) as nat);
        assert(is_child(bodies, r, c) && below(bodies, c, i, d));
    }
}

/// A body that hangs from the world at depth `d` lies `d` levels below a root.
proof fn lemma_root_above<S>(bodies: Seq<Body<S>>, i: int, d: nat) -> (r: int)
    requires
        0 <= i < bodies.len(),
        hangs_at(bodies, i, d),
    ensures
        0 <= r < bodies.len(),
        is_root(bodies, r),
        below(bodies, r, i, d),
    decreases d,
{
    if d == 0 {
        i
    } else {
        let p = choose|p: int|
            0 <= p < bodies.len() && #[trigger] is_child(bodies, p, i) && hangs_at(
                bodies,
                p,
                (d - 1) as nat,
            );
        let r = lemma_root_above(bodies, p, (d - 1) as nat);
        lemma_below_child(bodies, r, p, i, (d - 1) as nat);
        r
    }
}

/// A child among those of `p` at table position `from` or later has body `i`
/// `d` levels below it.
pub open spec fn kid_above<S>(bodies: Seq<Body<S>>, p: int, from: int, i: int, d: nat) -> bool {
    exists|c: int|
        from <= c < bodies.len() && 0 <= c && #[trigger] is_child(bodies, p, c) && below(
            bodies,
            c,
            i,
            d,
        )
}

/// Whether body `i`, which hangs at depth `depth`, is found among the child
/// subtrees of body `p`, which hangs at depth `above`: at most once, and exactly
/// where one of the children looked at lies on its chain of parents.
proof fn lemma_occurrences_kids<S>(
    bodies: Seq<Body<S>>,
    p: int,
    from: int,
    levels: nat,
    i: int,
    above: nat,
    depth: nat,
)
    requires
        bodies.len() <= usize::MAX,
        has_distinct_ids(bodies),
        0 <= p < bodies.len(),
        0 <= i < bodies.len(),
        0 <= from,
        hangs_at(bodies, p, above),
        hangs_at(bodies, i, depth),
    ensures
        occurrences(kids(bodies, p, from, levels), i) == if above < depth && depth - above <= levels
            && kid_above(bodies, p, from, i, (depth - above - 1) as nat) {
            1nat
        } else {
            0nat
        },
    decreases levels, bodies.len() - from,
{
    let gap = (depth - above - 1) as nat;
    if levels == 0 || from >= bodies.len() {
    } else {
        let rest = kids(bodies, p, from + 1, levels);
        lemma_occurrences_kids(bodies, p, from + 1, levels, i, above, depth);
        if is_child(bodies, p, from) {
            let under = kids(bodies, from, 0, (levels - 1) as nat);
            let here = crate::tree::subtree_of(from, under);
            assert(kids(bodies, p, from, levels) == here + rest);
            lemma_occurrences_add(here, rest, i);
            lemma_occurrences_subtree(from, under, i);
            assert(hangs_at(bodies, from, above + 1)) by {
                assert(is_child(bodies, p, from) && hangs_at(bodies, p, above));
            }
            lemma_occurrences_kids(bodies, from, 0, (levels - 1) as nat, i, above + 1, depth);
            if from == i {
                lemma_one_depth(bodies, i, above + 1, depth);
                assert(below(bodies, from, i, 0));
            }
            // what the child at `from` contributes
            let hit_here = above < depth && depth - above <= levels && below(bodies, from, i, gap);
            assert(occurrences(here, i) == if hit_here {
                1nat
            } else {
                0nat
            }) by {
                if above + 1 < depth {
                    assert(from != i) by {
                        if from == i {
                            lemma_one_depth(bodies, i, above + 1, depth);
                        }
                    }
                    assert(below(bodies, from, i, gap) == kid_above(
                        bodies,
                        from,
                        0,
                        i,
                        (gap - 1) as nat,
                    ));
                } else if above + 1 == depth {
                    assert(below(bodies, from, i, gap) == (from == i));
                } else {
                    assert(from != i) by {
                        if from == i {
                            lemma_one_depth(bodies, i, above + 1, depth);
                        }
                    }
                }
            }
            let hit_rest = above < depth && depth - above <= levels && kid_above(
                bodies,
                p,
                from + 1,
                i,
                gap,
            );
            if hit_here && hit_rest {
                let c = choose|c: int|
                    from + 1 <= c < bodies.len() && 0 <= c && #[trigger] is_child(bodies, p, c)
                        && below(bodies, c, i, gap);
                lemma_one_ancestor(bodies, from, c, i, gap);
            }
            if hit_here {
                assert(is_child(bodies, p, from) && below(bodies, from, i, gap));
                assert(kid_above(bodies, p, from, i, gap));
            }
            if above < depth && depth - above <= levels && kid_above(bodies, p, from, i, gap) {
                let c = choose|c: int|
                    from <= c < bodies.len() && 0 <= c && #[trigger] is_child(bodies, p, c)
                        && below(bodies, c, i, gap);
                if c != from {
                    assert(is_child(bodies, p, c) && below(bodies, c, i, gap));
                    assert(hit_rest);
                }
            }
        } else {
            assert(kids(bodies, p, from, levels) =~= rest);
            if above < depth && depth - above <= levels && kid_above(bodies, p, from, i, gap) {
                let c = choose|c: int|
                    from <= c < bodies.len() && 0 <= c && #[trigger] is_child(bodies, p, c)
                        && below(bodies, c, i, gap);
                assert(is_child(bodies, p, c) && below(bodies, c, i, gap));
                assert(kid_above(bodies, p, from + 1, i, gap));
            }
        }
    }
}

/// A body that is its own parent is in nobody's child subtrees.
proof fn lemma_own_parent_absent<S>(bodies: Seq<Body<S>>, p: int, from: int, levels: nat, i: int)
    requires
        bodies.len() <= usize::MAX,
        0 <= i < bodies.len(),
        is_own_parent(bodies, i),
    ensures
        occurrences(kids(bodies, p, from, levels), i) == 0,
    decreases levels, bodies.len() - from,
{
    if levels == 0 || from < 0 || from >= bodies.len() {
    } else {
        let rest = kids(bodies, p, from + 1, levels);
        lemma_own_parent_absent(bodies, p, from + 1, levels, i);
        if is_child(bodies, p, from) {
            let under = kids(bodies, from, 0, (levels - 1) as nat);
            let here = crate::tree::subtree_of(from, under);
            lemma_occurrences_add(here, rest, i);
            lemma_occurrences_subtree(from, under, i);
            lemma_own_parent_absent(bodies, from, 0, (levels - 1) as nat, i);
        } else {
            assert(kids(bodies, p, from, levels) =~= rest);
        }
    }
}

/// A root among the first `upto` bodies has body `i` `d` levels below it.
pub open spec fn root_above<S>(bodies: Seq<Body<S>>, upto: int, i: int, d: nat) -> bool {
    exists|r: int| 0 <= r < upto && r < bodies.len() && #[trigger] is_root(bodies, r) && below(bodies, r, i, d)
}

/// A body that hangs from the world is once in the tree of its root, and in no
/// other tree.
proof fn lemma_occurrences_forest<S>(bodies: Seq<Body<S>>, upto: int, i: int, depth: nat)
    requires
        bodies.len() <= usize::MAX,
        has_distinct_ids(bodies),
        0 <= i < bodies.len(),
        upto <= bodies.len(),
        hangs_at(bodies, i, depth),
        depth <= bodies.len(),
    ensures
        occurrences(forest_upto(bodies, upto), i) == if root_above(bodies, upto, i, depth) {
            1nat
        } else {
            0nat
        },
    decreases upto,
{
    if upto <= 0 {
    } else {
        let r = upto - 1;
        lemma_occurrences_forest(bodies, r, i, depth);
        if is_root(bodies, r) {
            let under = kids(bodies, r, 0, bodies.len());
            let tree = subtree(bodies, r, bodies.len());
            lemma_occurrences_add(forest_upto(bodies, r), tree, i);
            lemma_occurrences_subtree(r, under, i);
            assert(hangs_at(bodies, r, 0));
            lemma_occurrences_kids(bodies, r, 0, bodies.len(), i, 0, depth);
            if r == i {
                lemma_one_depth(bodies, i, 0, depth);
            }
            let hit_here = below(bodies, r, i, depth);
            assert(occurrences(tree, i) == if hit_here {
                1nat
            } else {
                0nat
            }) by {
                if depth > 0 {
                    assert(r != i) by {
                        if r == i {
                            lemma_one_depth(bodies, i, 0, depth);
                        }
                    }
                    assert(below(bodies, r, i, depth) == kid_above(
                        bodies,
                        r,
                        0,
                        i,
                        (depth - 1) as nat,
                    ));
                }
            }
            if hit_here && root_above(bodies, r, i, depth) {
                let q = choose|q: int|
                    0 <= q < r && q < bodies.len() && #[trigger] is_root(bodies, q) && below(
                        bodies,
                        q,
                        i,
                        depth,
                    );
                lemma_one_ancestor(bodies, r, q, i, depth);
            }
            if hit_here {
                assert(is_root(bodies, r) && below(bodies, r, i, depth));
            }
            if root_above(bodies, upto, i, depth) {
                let q = choose|q: int|
                    0 <= q < upto && q < bodies.len() && #[trigger] is_root(bodies, q) && below(
                        bodies,
                        q,
                        i,
                        depth,
                    );
                if q != r {
                    assert(is_root(bodies, q) && below(bodies, q, i, depth));
                    assert(root_above(bodies, r, i, depth));
                }
            }
        } else {
            if root_above(bodies, upto, i, depth) {
                let q = choose|q: int|
                    0 <= q < upto && q < bodies.len() && #[trigger] is_root(bodies, q) && below(
                        bodies,
                        q,
                        i,
                        depth,
                    );
                assert(is_root(bodies, q) && below(bodies, q, i, depth));
                assert(root_above(bodies, r, i, depth));
            }
        }
    }
}

/// A body that is its own parent and no root is in no tree.
proof fn lemma_own_parent_not_in_forest<S>(bodies: Seq<Body<S>>, upto: int, i: int)
    requires
        bodies.len() <= usize::MAX,
        0 <= i < bodies.len(),
        upto <= bodies.len(),
        is_own_parent(bodies, i),
        !is_root(bodies, i),
    ensures
        occurrences(forest_upto(bodies, upto), i) == 0,
    decreases upto,
{
    if upto > 0 {
        let r = upto - 1;
        lemma_own_parent_not_in_forest(bodies, r, i);
        if is_root(bodies, r) {
            let under = kids(bodies, r, 0, bodies.len());
            lemma_occurrences_add(forest_upto(bodies, r), subtree(bodies, r, bodies.len()), i);
            lemma_occurrences_subtree(r, under, i);
            lemma_own_parent_absent(bodies, r, 0, bodies.len(), i);
        }
    }
}

/// In the forest of a model, a body is a node once if it is a root or not its own
/// parent, and never otherwise.
pub proof fn lemma_node_once<S>(bodies: Seq<Body<S>>, i: int)
    requires
        is_model(bodies),
        0 <= i < bodies.len(),
    ensures
        occurrences(forest(bodies), i) == if is_node(bodies, i) {
            1nat
        } else {
            0nat
        },
{
    if is_node(bodies, i) {
        let depth: nat = if is_root(bodies, i) {
            0nat
        } else {
            assert(!is_own_parent(bodies, i));
            choose|d: nat| d < bodies.len() && hangs_at(bodies, i, d)
        };
        assert(hangs_at(bodies, i, depth));
        let r = lemma_root_above(bodies, i, depth);
        assert(is_root(bodies, r) && below(bodies, r, i, depth));
        assert(root_above(bodies, bodies.len() as int, i, depth));
        lemma_occurrences_forest(bodies, bodies.len() as int, i, depth);
    } else {
        lemma_own_parent_not_in_forest(bodies, bodies.len() as int, i);
    }
}

proof fn lemma_occurrences_upto_add(a: Seq<(nat, usize)>, b: Seq<(nat, usize)>, upto: int)
    ensures
        occurrences_upto(a + b, upto) == occurrences_upto(a, upto) + occurrences_upto(b, upto),
    decreases upto,
{
    if upto > 0 {
        lemma_occurrences_upto_add(a, b, upto - 1);
        lemma_occurrences_add(a, b, upto - 1);
    }
}

proof fn lemma_occurrences_upto_one(e: (nat, usize), upto: int)
    ensures
        occurrences_upto(seq![e], upto) == if e.1 < upto {
            1nat
        } else {
            0nat
        },
    decreases upto,
{
    if upto > 0 {
        lemma_occurrences_upto_one(e, upto - 1);
        lemma_occurrences_one(e, upto - 1);
    }
}

/// An outline has as many nodes as the bodies of the table occur in it.
pub proof fn lemma_length_by_occurrences(s: Seq<(nat, usize)>, len: nat)
    requires
        in_table(s, len),
    ensures
        occurrences_upto(s, len as int) == s.len(),
    decreases s.len(),
{
    if s.len() == 0 {
        assert(s =~= Seq::<(nat, usize)>::empty());
        lemma_occurrences_upto_none(len as int);
    } else {
        let front = s.drop_last();
        assert(s[s.len() - 1].1 < len);
        assert(s =~= front + seq![s.last()]);
        assert(in_table(front, len)) by {
            assert forall|j: int| 0 <= j < front.len() implies (#[trigger] front[j]).1 < len by {
                assert(front[j] == s[j]);
            }
        }
        lemma_length_by_occurrences(front, len);
        lemma_occurrences_upto_add(front, seq![s.last()], len as int);
        lemma_occurrences_upto_one(s.last(), len as int);
    }
}

proof fn lemma_occurrences_upto_none(upto: int)
    ensures
        occurrences_upto(Seq::<(nat, usize)>::empty(), upto) == 0,
    decreases upto,
{
    if upto > 0 {
        lemma_occurrences_upto_none(upto - 1);
    }
}

proof fn lemma_forest_in_table<S>(bodies: Seq<Body<S>>, upto: int)
    requires
        bodies.len() <= usize::MAX,
        upto <= bodies.len(),
    ensures
        in_table(forest_upto(bodies, upto), bodies.len()),
    decreases upto,
{
    if upto > 0 {
        lemma_forest_in_table(bodies, upto - 1);
        if is_root(bodies, upto - 1) {
            lemma_subtree_in_table(bodies, upto - 1, bodies.len());
        }
    }
}

proof fn lemma_census_upto<S>(bodies: Seq<Body<S>>, upto: int)
    requires
        is_model(bodies),
        upto <= bodies.len(),
    ensures
        occurrences_upto(forest(bodies), upto) == node_count_upto(bodies, upto),
    decreases upto,
{
    if upto > 0 {
        lemma_census_upto(bodies, upto - 1);
        lemma_node_once(bodies, upto - 1);
    }
}

/// The forest of a model has one node for every body that is a root or not its
/// own parent.
pub proof fn lemma_forest_census<S>(bodies: Seq<Body<S>>)
    requires
        is_model(bodies),
    ensures
        forest(bodies).len() == node_count_upto(bodies, bodies.len() as int),
{
    lemma_forest_in_table(bodies, bodies.len() as int);
    lemma_length_by_occurrences(forest(bodies), bodies.len());
    lemma_census_upto(bodies, bodies.len() as int);
}

proof fn lemma_free_count<S>(bodies: Seq<Body<S>>, upto: int)
    requires
        upto <= bodies.len(),
        forall|i: int|
            0 <= i < bodies.len() && #[trigger] is_own_parent(bodies, i) ==> !is_root(bodies, i),
    ensures
        node_count_upto(bodies, upto) == free_count_upto(bodies, upto),
    decreases upto,
{
    if upto > 0 {
        lemma_free_count(bodies, upto - 1);
        if is_own_parent(bodies, upto - 1) {
        }
    }
}

/// In a model where the world has no entry of its own, so that no body with the
/// world as its parent is its own parent, the forest has as many nodes as there
/// are bodies that are not their own parent.
pub proof fn lemma_forest_node_count<S>(bodies: Seq<Body<S>>)
    requires
        is_model(bodies),
        forall|i: int|
            0 <= i < bodies.len() && #[trigger] is_own_parent(bodies, i) ==> !is_root(bodies, i),
    ensures
        forest(bodies).len() == free_count_upto(bodies, bodies.len() as int),
{
    lemma_forest_census(bodies);
    lemma_free_count(bodies, bodies.len() as int);
}

/// The roots among the first `upto` bodies of any table are as many as the bodies
/// among them whose parent is the world, and they are those bodies in table order.
pub proof fn lemma_forest_root_count<S>(bodies: Seq<Body<S>>, upto: int)
    requires
        upto <= bodies.len(),
    ensures
        roots_upto(bodies, upto).len() == root_count_upto(bodies, upto),
        forall|k: int|
            0 <= k < roots_upto(bodies, upto).len() ==> 0 <= (#[trigger] roots_upto(bodies, upto)[k])
                < upto && is_root(bodies, roots_upto(bodies, upto)[k]),
        forall|k: int, l: int|
            0 <= k < l < roots_upto(bodies, upto).len() ==> roots_upto(bodies, upto)[k] < roots_upto(
                bodies,
                upto,
            )[l],
        forall|r: int|
            0 <= r < upto && is_root(bodies, r) ==> roots_upto(bodies, upto).contains(r),
    decreases upto,
{
    if upto > 0 {
        lemma_forest_root_count(bodies, upto - 1);
        let before = roots_upto(bodies, upto - 1);
        let now = roots_upto(bodies, upto);
        assert forall|r: int| 0 <= r < upto && is_root(bodies, r) implies now.contains(r) by {
            if r < upto - 1 {
                let k = choose|k: int| 0 <= k < before.len() && before[k] == r;
                assert(now[k] == r);
            } else {
                assert(now[now.len() - 1] == r);
            }
        }
    }
}

/// The forest of any table has one tree for every body whose parent is the world.
pub proof fn lemma_tree_count<S>(bodies: Seq<Body<S>>)
    ensures
        roots(bodies).len() == root_count_upto(bodies, bodies.len() as int),
{
    lemma_forest_root_count(bodies, bodies.len() as int);
}

} // verus!
