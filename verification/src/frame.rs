//! From the simulation's axis convention to the renderer's.
//!
//! The simulation stores a quaternion scalar first, as (w, x, y, z), and has its
//! third axis pointing up. The renderer stores it scalar last, as (x, y, z, w), and
//! has its second axis pointing up. Trading two axes turns a right hand into a
//! left one, which the sign of the scalar part makes up for.

use crate::model::{Body, Geom};
use core::ops::Neg;
use vstd::prelude::*;
use vstd::std_specs::ops::NegSpec;

verus! {

/// A position and an orientation in the renderer's convention.
#[derive(Debug, Clone, Copy)]
pub struct Pose<S> {
    pub translation: [S; 3],
    pub rotation: [S; 4],
}

/// The renderer's position for the simulation's position `v`.
pub open spec fn render_position<S>(v: Seq<S>) -> Seq<S> {
    seq![v[0], v[2], v[1]]
}

/// The renderer's quaternion for the simulation's quaternion `q`.
pub open spec fn render_orientation<S: Neg<Output = S>>(q: Seq<S>) -> Seq<S> {
    seq![q[1], q[3], q[2], q[0].neg_spec()]
}

/// The simulation's quaternion for the renderer's quaternion `q`.
pub open spec fn sim_orientation<S: Neg<Output = S>>(q: Seq<S>) -> Seq<S> {
    seq![q[3].neg_spec(), q[0], q[2], q[1]]
}

/// Converting a quaternion to the renderer's convention and back gives the
/// quaternion itself, for every scalar type whose negation undoes itself.
pub proof fn lemma_orientation_round_trip<S: Neg<Output = S>>(q: Seq<S>)
    requires
        q.len() == 4,
        q[0].neg_spec().neg_spec() == q[0],
    ensures
        sim_orientation(render_orientation(q)) == q,
{
    assert(sim_orientation(render_orientation(q)) =~= q);
}

/// Converting a quaternion to the simulation's convention and back gives the
/// quaternion itself, for every scalar type whose negation undoes itself.
pub proof fn lemma_orientation_round_trip_back<S: Neg<Output = S>>(q: Seq<S>)
    requires
        q.len() == 4,
        q[3].neg_spec().neg_spec() == q[3],
    ensures
        render_orientation(sim_orientation(q)) == q,
{
    assert(render_orientation(sim_orientation(q)) =~= q);
}

/// Trading the second and third axis twice gives the position itself.
pub proof fn lemma_position_round_trip<S>(v: Seq<S>)
    requires
        v.len() == 3,
    ensures
        render_position(render_position(v)) == v,
{
    assert(render_position(render_position(v)) =~= v);
}

/// Lets the components `i1` and `i2` of a vector trade places.
pub fn replace_values_vec3<S: Copy>(arr: &mut [S; 3], i1: usize, i2: usize)
    requires
        i1 < 3,
        i2 < 3,
    ensures
        final(arr)@ == old(arr)@.update(i1 as int, old(arr)@[i2 as int]).update(
            i2 as int,
            old(arr)@[i1 as int],
        ),
{
    let c_1 = arr[i1];
    let c_2 = arr[i2];
    arr[i1] = c_2;
    arr[i2] = c_1;
}

/// Lets the components `i1` and `i2` of a quaternion trade places.
pub fn replace_values_vec4<S: Copy>(arr: &mut [S; 4], i1: usize, i2: usize)
    requires
        i1 < 4,
        i2 < 4,
    ensures
        final(arr)@ == old(arr)@.update(i1 as int, old(arr)@[i2 as int]).update(
            i2 as int,
            old(arr)@[i1 as int],
        ),
{
    let c_1 = arr[i1];
    let c_2 = arr[i2];
    arr[i1] = c_2;
    arr[i2] = c_1;
}

/// The renderer's position for a position of the simulation: the second and the
/// third component trade places.
pub fn to_render_position<S: Copy>(v: [S; 3]) -> (r: [S; 3])
    ensures
        r@ == render_position(v@),
{
    let mut r = v;
    replace_values_vec3(&mut r, 1, 2);
    assert(r@ =~= render_position(v@));
    r
}

/// The renderer's quaternion for a quaternion of the simulation: the vector part
/// moves to the front with its second and third component trading places, and the
/// scalar part moves to the end with its sign changed.
pub fn to_render_orientation<S: Copy + Neg<Output = S>>(q: [S; 4]) -> (r: [S; 4])
    requires
        q@[0].neg_req(),
    ensures
        r@[0] == q@[1],
        r@[1] == q@[3],
        r@[2] == q@[2],
        S::obeys_neg_spec() ==> r@ == render_orientation(q@),
{
    let r = [q[1], q[3], q[2], q[0].neg()];
    assert(S::obeys_neg_spec() ==> r@ =~= render_orientation(q@));
    r
}

/// The simulation's quaternion for a quaternion of the renderer: what
/// `to_render_orientation` does, undone.
pub fn to_sim_orientation<S: Copy + Neg<Output = S>>(q: [S; 4]) -> (r: [S; 4])
    requires
        q@[3].neg_req(),
    ensures
        r@[1] == q@[0],
        r@[2] == q@[2],
        r@[3] == q@[1],
        S::obeys_neg_spec() ==> r@ == sim_orientation(q@),
{
    let r = [q[3].neg(), q[0], q[2], q[1]];
    assert(S::obeys_neg_spec() ==> r@ =~= sim_orientation(q@));
    r
}

impl<S: Copy> Body<S> {
    /// Where the body stands, in the renderer's convention.
    pub fn translation(&self) -> (r: [S; 3])
        ensures
            r@ == render_position(self.pos@),
    {
        to_render_position(self.pos)
    }
}

impl<S: Copy + Neg<Output = S>> Body<S> {
    /// How the body is turned, in the renderer's convention.
    pub fn rotation(&self) -> (r: [S; 4])
        requires
            self.quat@[0].neg_req(),
        ensures
            S::obeys_neg_spec() ==> r@ == render_orientation(self.quat@),
    {
        to_render_orientation(self.quat)
    }

    /// The body's pose in the renderer's convention.
    pub fn transform(&self) -> (pose: Pose<S>)
        requires
            self.quat@[0].neg_req(),
        ensures
            pose.translation@ == render_position(self.pos@),
            S::obeys_neg_spec() ==> pose.rotation@ == render_orientation(self.quat@),
    {
        Pose { translation: self.translation(), rotation: self.rotation() }
    }
}

impl<S: Copy + Neg<Output = S>> Geom<S> {
    /// How the geom is turned, in the renderer's convention.
    pub fn rotation(&self) -> (r: [S; 4])
        requires
            self.quat@[0].neg_req(),
        ensures
            S::obeys_neg_spec() ==> r@ == render_orientation(self.quat@),
    {
        to_render_orientation(self.quat)
    }
}

} // verus!
