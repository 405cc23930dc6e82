//! Renderable geometry: which geom stands for a body, what shape is drawn for a
//! geom, and how far the drawn shape has to be moved to sit where the simulation
//! has it.

use crate::model::{Body, Geom, GeomType, MuJoCoMesh};
use core::ops::{Div, Mul};
use itertools::Itertools;
use vstd::prelude::*;
use vstd::std_specs::cmp::PartialEqSpec;
use vstd::std_specs::ops::{DivSpec, MulSpec};

verus! {

/// Geoms in a visibility group at or above this one serve collision only and are
/// never drawn for a body that owns several geoms.
pub const VISIBLE_GROUP_LIMIT: i32 = 3;

/// The number of geoms among the first `upto` that body `body_id` owns.
pub open spec fn owned_upto<S>(geoms: Seq<Geom<S>>, body_id: i32, upto: int) -> nat
    decreases upto,
{
    if upto <= 0 {
        0
    } else if geoms[upto - 1].body_id == body_id {
        owned_upto(geoms, body_id, upto - 1) + 1
    } else {
        owned_upto(geoms, body_id, upto - 1)
    }
}

/// The number of geoms that body `body_id` owns.
pub open spec fn owned_count<S>(geoms: Seq<Geom<S>>, body_id: i32) -> nat {
    owned_upto(geoms, body_id, geoms.len() as int)
}

/// Geom `g` belongs to body `body_id` and is in a visibility group that is drawn.
pub open spec fn is_candidate<S>(geoms: Seq<Geom<S>>, body_id: i32, g: int) -> bool {
    &&& 0 <= g < geoms.len()
    &&& geoms[g].body_id == body_id
    &&& geoms[g].geom_group < VISIBLE_GROUP_LIMIT
}

/// 0 for a mesh, 1 for every generated shape: a mesh is drawn before any other.
pub open spec fn kind_rank(kind: GeomType) -> u8 {
    if kind == GeomType::MESH {
        0
    } else {
        1
    }
}

/// The key by which candidates are ordered: mesh before generated shape, then the
/// lower visibility group, then the earlier table position.
pub open spec fn render_key<S>(geoms: Seq<Geom<S>>, g: int) -> (u8, i32, usize) {
    (kind_rank(geoms[g].geom_type), geoms[g].geom_group, g as usize)
}

/// `a` stands before `b` in the order of tuples, component by component.
pub open spec fn key_lt(a: (u8, i32, usize), b: (u8, i32, usize)) -> bool {
    a.0 < b.0 || (a.0 == b.0 && (a.1 < b.1 || (a.1 == b.1 && a.2 < b.2)))
}

/// `a` does not stand after `b` in the order of tuples.
pub open spec fn key_le(a: (u8, i32, usize), b: (u8, i32, usize)) -> bool {
    a == b || key_lt(a, b)
}

/// Geom `g` is the one drawn for body `body_id`: the body's only geom, or, where
/// the body owns none or several, the candidate that stands before every other
/// candidate.
pub open spec fn is_render_geom<S>(geoms: Seq<Geom<S>>, body_id: i32, g: int) -> bool {
    &&& 0 <= g < geoms.len()
    &&& geoms[g].body_id == body_id
    &&& owned_count(geoms, body_id) != 1 ==> {
        &&& is_candidate(geoms, body_id, g)
        &&& forall|h: int|
            is_candidate(geoms, body_id, h) && h != g ==> key_lt(
                render_key(geoms, g),
                #[trigger] render_key(geoms, h),
            )
    }
}

/// Table position of the geom drawn for body `body_id`, if it has one.
pub open spec fn render_choice<S>(geoms: Seq<Geom<S>>, body_id: i32) -> Option<int> {
    if exists|g: int| is_render_geom(geoms, body_id, g) {
        Some(choose|g: int| is_render_geom(geoms, body_id, g))
    } else {
        None
    }
}

/// A body has at most one renderable geom.
pub proof fn lemma_render_geom_unique<S>(geoms: Seq<Geom<S>>, body_id: i32, g: int, h: int)
    requires
        is_render_geom(geoms, body_id, g),
        is_render_geom(geoms, body_id, h),
    ensures
        g == h,
{
    if owned_count(geoms, body_id) == 1 {
        lemma_owned_one(geoms, body_id, geoms.len() as int, g, h);
    } else if g != h {
        assert(key_lt(render_key(geoms, g), render_key(geoms, h)));
        assert(key_lt(render_key(geoms, h), render_key(geoms, g)));
    }
}

/// Two owned geoms among the first `upto`, where only one is owned, are the same.
proof fn lemma_owned_one<S>(geoms: Seq<Geom<S>>, body_id: i32, upto: int, g: int, h: int)
    requires
        0 <= g < upto <= geoms.len(),
        0 <= h < upto,
        geoms[g].body_id == body_id,
        geoms[h].body_id == body_id,
        owned_upto(geoms, body_id, upto) <= 1,
    ensures
        g == h,
    decreases upto,
{
    if g == upto - 1 && h == upto - 1 {
    } else if g == upto - 1 {
        lemma_owned_some(geoms, body_id, upto - 1, h);
    } else if h == upto - 1 {
        lemma_owned_some(geoms, body_id, upto - 1, g);
    } else {
        lemma_owned_one(geoms, body_id, upto - 1, g, h);
    }
}

/// An owned geom among the first `upto` is counted.
proof fn lemma_owned_some<S>(geoms: Seq<Geom<S>>, body_id: i32, upto: int, g: int)
    requires
        0 <= g < upto <= geoms.len(),
        geoms[g].body_id == body_id,
    ensures
        owned_upto(geoms, body_id, upto) >= 1,
    decreases upto,
{
    if g != upto - 1 {
        lemma_owned_some(geoms, body_id, upto - 1, g);
    }
}

/// `itertools::Itertools::sorted` on the keys: the same keys in ascending order of
/// tuples.
#[verifier::external_body]
fn sorted_keys(keys: Vec<(u8, i32, usize)>) -> (sorted: Vec<(u8, i32, usize)>)
    ensures
        sorted@.to_multiset() == keys@.to_multiset(),
        forall|i: int, j: int| 0 <= i < j < sorted@.len() ==> key_le(sorted@[i], sorted@[j]),
{
    keys.into_iter().sorted().collect()
}

/// A body table and a geom table that do not fit together.
#[derive(Debug, Clone, Copy, PartialEq, Eq, Structural)]
pub enum ModelError {
    /// The body at table position `body` is listed with exactly one geom, and
    /// `found` geoms name it as their owner.
    GeomCount { body: usize, found: usize },
}

/// The body at table position `i` is listed with exactly one geom and is not
/// owned by exactly one.
pub open spec fn is_miscounted<S>(bodies: Seq<Body<S>>, geoms: Seq<Geom<S>>, i: int) -> bool {
    bodies[i].geom_n == 1 && owned_count(geoms, bodies[i].id) != 1
}

/// Whether every body that is listed with exactly one geom is owned by exactly
/// one; if not, the first body in the table for which this fails.
pub fn check_render_geoms<S>(bodies: &[Body<S>], geoms: &[Geom<S>]) -> (r: Result<(), ModelError>)
    ensures
        match r {
            Ok(_) => forall|i: int| 0 <= i < bodies@.len() ==> !is_miscounted(bodies@, geoms@, i),
            Err(ModelError::GeomCount { body, found }) => {
                &&& body < bodies@.len()
                &&& is_miscounted(bodies@, geoms@, body as int)
                &&& found == owned_count(geoms@, bodies@[body as int].id)
                &&& forall|i: int| 0 <= i < body ==> !is_miscounted(bodies@, geoms@, i)
            },
        },
{
    let mut i: usize = 0;
    while i < bodies.len()
        invariant
            i <= bodies@.len(),
            forall|j: int| 0 <= j < i ==> !is_miscounted(bodies@, geoms@, j),
        decreases bodies@.len() - i,
    {
        if bodies[i].geom_n == 1 {
            let found = bodies[i].owned(geoms);
            if found != 1 {
                return Err(ModelError::GeomCount { body: i, found });
            }
        }
        i += 1;
    }
    Ok(())
}

/// How far a plane reaches.
#[derive(Debug, Clone, Copy)]
pub enum PlaneExtent<S> {
    /// The plane has no bounds; the renderer draws it as large as it can.
    Unbounded,
    /// Extent of the plane along its first axis.
    Bounded(S),
}

/// What is drawn for a geom, with its measures in the renderer's axes.
#[derive(Debug, Clone, Copy)]
pub enum Shape<'a, S> {
    /// A flat quad.
    Plane(PlaneExtent<S>),
    /// A cuboid with its measures along the renderer's x, y and z.
    Cuboid { x: S, y: S, z: S },
    /// A sphere.
    Sphere { radius: S },
    /// A capsule whose length is twice `half_length`.
    Capsule { radius: S, half_length: S },
    /// A cylinder whose length is twice `half_length`.
    Cylinder { radius: S, half_length: S },
    /// The mesh data that came with the model, drawn as it is.
    Imported(&'a MuJoCoMesh<S>),
}

/// Why no shape can be drawn for a geom.
#[derive(Debug, Clone, Copy, PartialEq, Eq, Structural)]
pub enum GeometryError {
    /// The kind of the geom has no shape in the renderer.
    Unsupported(GeomType),
    /// The geom is of mesh kind and holds no mesh data.
    MissingMesh,
}

/// The shape drawn for `geom`, where `is_zero` says whether its first size
/// component is zero.
pub open spec fn shape_of<'a, S>(geom: &'a Geom<S>, is_zero: bool) -> Result<Shape<'a, S>, GeometryError> {
    match geom.geom_type {
        GeomType::PLANE => Ok(
            Shape::Plane(
                if is_zero {
                    PlaneExtent::Unbounded
                } else {
                    PlaneExtent::Bounded(geom.size@[0])
                },
            ),
        ),
        GeomType::BOX => Ok(Shape::Cuboid { x: geom.size@[0], y: geom.size@[2], z: geom.size@[1] }),
        GeomType::SPHERE => Ok(Shape::Sphere { radius: geom.size@[0] }),
        GeomType::CAPSULE => Ok(Shape::Capsule { radius: geom.size@[0], half_length: geom.size@[1] }),
        GeomType::CYLINDER => Ok(Shape::Cylinder { radius: geom.size@[0], half_length: geom.size@[1] }),
        GeomType::MESH => match &geom.mesh {
            Some(mesh) => Ok(Shape::Imported(mesh)),
            None => Err(GeometryError::MissingMesh),
        },
        GeomType::ELLIPSOID => Err(GeometryError::Unsupported(GeomType::ELLIPSOID)),
        GeomType::HFIELD => Err(GeometryError::Unsupported(GeomType::HFIELD)),
        GeomType::NONE => Err(GeometryError::Unsupported(GeomType::NONE)),
    }
}

/// One component of the vector that moves a drawn shape onto its anchor.
#[derive(Debug, Clone, Copy, PartialEq, Eq, Structural)]
pub enum AnchorTerm {
    /// No offset along this axis.
    Zero,
    /// Half of the size component with this index.
    Half(usize),
    /// Twice the size component with this index.
    Double(usize),
}

/// The anchor correction of each shape kind, along the renderer's x, y and z.
/// Size components are counted as the simulation stores them.
pub open spec fn anchor_policy(kind: GeomType) -> [AnchorTerm; 3] {
    match kind {
        GeomType::BOX => [AnchorTerm::Zero, AnchorTerm::Half(2), AnchorTerm::Zero],
        GeomType::CAPSULE => [AnchorTerm::Zero, AnchorTerm::Double(2), AnchorTerm::Zero],
        GeomType::CYLINDER => [AnchorTerm::Zero, AnchorTerm::Double(1), AnchorTerm::Zero],
        _ => [AnchorTerm::Zero, AnchorTerm::Zero, AnchorTerm::Zero],
    }
}

impl<S> Geom<S> {
    /// The shape drawn for this geom. `zero` is the zero of the scalar type: a
    /// plane whose first size component equals it has no bounds. An ellipsoid, a
    /// height field and a missing kind have no shape, and a mesh geom without mesh
    /// data has none either.
    pub fn mesh(&self, zero: S) -> (shape: Result<Shape<'_, S>, GeometryError>) where S: Copy + PartialEq
        ensures
            S::obeys_eq_spec() ==> shape == shape_of(self, self.size@[0].eq_spec(&zero)),
            self.geom_type != GeomType::PLANE ==> shape == shape_of(self, false),
            self.geom_type == GeomType::PLANE ==> shape == shape_of(self, true) || shape
                == shape_of(self, false),
            shape.is_err() <==> (self.geom_type == GeomType::ELLIPSOID || self.geom_type
                == GeomType::HFIELD || self.geom_type == GeomType::NONE || (self.geom_type
                == GeomType::MESH && self.mesh.is_none())),
    {
        match self.geom_type {
            GeomType::PLANE => {
                let extent = if self.size[0] == zero {
                    PlaneExtent::Unbounded
                } else {
                    PlaneExtent::Bounded(self.size[0])
                };
                Ok(Shape::Plane(extent))
            },
            GeomType::BOX => Ok(Shape::Cuboid { x: self.size[0], y: self.size[2], z: self.size[1] }),
            GeomType::SPHERE => Ok(Shape::Sphere { radius: self.size[0] }),
            GeomType::CAPSULE => Ok(Shape::Capsule { radius: self.size[0], half_length: self.size[1] }),
            GeomType::CYLINDER => Ok(
                Shape::Cylinder { radius: self.size[0], half_length: self.size[1] },
            ),
            GeomType::MESH => match &self.mesh {
                Some(mesh) => Ok(Shape::Imported(mesh)),
                None => Err(GeometryError::MissingMesh),
            },
            GeomType::ELLIPSOID => Err(GeometryError::Unsupported(GeomType::ELLIPSOID)),
            GeomType::HFIELD => Err(GeometryError::Unsupported(GeomType::HFIELD)),
            GeomType::NONE => Err(GeometryError::Unsupported(GeomType::NONE)),
        }
    }

    /// The vector to subtract from the translation of the drawn shape, one term
    /// for each of the renderer's axes. Only the vertical axis, the second, is ever
    /// offset.
    pub fn correction(&self) -> (terms: [AnchorTerm; 3])
        ensures
            terms == anchor_policy(self.geom_type),
            terms@[0] == AnchorTerm::Zero,
            terms@[2] == AnchorTerm::Zero,
    {
        match self.geom_type {
            GeomType::BOX => [AnchorTerm::Zero, AnchorTerm::Half(2), AnchorTerm::Zero],
            GeomType::CAPSULE => [AnchorTerm::Zero, AnchorTerm::Double(2), AnchorTerm::Zero],
            GeomType::CYLINDER => [AnchorTerm::Zero, AnchorTerm::Double(1), AnchorTerm::Zero],
            _ => [AnchorTerm::Zero, AnchorTerm::Zero, AnchorTerm::Zero],
        }
    }
}

/// The size components that `term` names lie within a size, and the scalar type
/// can work `term` out on them.
pub open spec fn term_fits<S: Mul<Output = S> + Div<Output = S>>(
    term: AnchorTerm,
    size: Seq<S>,
    two: S,
) -> bool {
    match term {
        AnchorTerm::Zero => true,
        AnchorTerm::Half(at) => at < size.len() && size[at as int].div_req(two),
        AnchorTerm::Double(at) => at < size.len() && size[at as int].mul_req(two),
    }
}

/// What `term` comes to on `size`, where `zero` and `two` are the scalar type's
/// zero and two.
pub open spec fn term_value<S: Mul<Output = S> + Div<Output = S>>(
    term: AnchorTerm,
    size: Seq<S>,
    zero: S,
    two: S,
) -> S {
    match term {
        AnchorTerm::Zero => zero,
        AnchorTerm::Half(at) => size[at as int].div_spec(two),
        AnchorTerm::Double(at) => size[at as int].mul_spec(two),
    }
}

impl<S: Copy + Mul<Output = S> + Div<Output = S>> Geom<S> {
    /// What one term of the anchor correction comes to on the size of this geom.
    pub fn correction_term(&self, term: AnchorTerm, zero: S, two: S) -> (value: S)
        requires
            term_fits(term, self.size@, two),
        ensures
            term == AnchorTerm::Zero ==> value == zero,
            S::obeys_div_spec() && S::obeys_mul_spec() ==> value == term_value(
                term,
                self.size@,
                zero,
                two,
            ),
    {
        match term {
            AnchorTerm::Zero => zero,
            AnchorTerm::Half(at) => self.size[at].div(two),
            AnchorTerm::Double(at) => self.size[at].mul(two),
        }
    }

    /// The vector to subtract from the translation of the drawn shape, in the
    /// renderer's axes, where `zero` and `two` are the scalar type's zero and
    /// two. The horizontal components, the first and the third, are zero for
    /// every kind of shape.
    pub fn correction_vector(&self, zero: S, two: S) -> (offset: [S; 3])
        requires
            term_fits(anchor_policy(self.geom_type)@[1], self.size@, two),
        ensures
            offset@[0] == zero,
            offset@[2] == zero,
            S::obeys_div_spec() && S::obeys_mul_spec() ==> offset@[1] == term_value(
                anchor_policy(self.geom_type)@[1],
                self.size@,
                zero,
                two,
            ),
    {
        let terms = self.correction();
        [zero, self.correction_term(terms[1], zero, two), zero]
    }
}

impl<S> Body<S> {
    /// The number of geoms that name this body as their owner.
    pub fn owned(&self, geoms: &[Geom<S>]) -> (count: usize)
        ensures
            count == owned_count(geoms@, self.id),
    {
        let mut count: usize = 0;
        let mut i: usize = 0;
        while i < geoms.len()
            invariant
                i <= geoms@.len(),
                count == owned_upto(geoms@, self.id, i as int),
                count <= i,
            decreases geoms@.len() - i,
        {
            if geoms[i].body_id == self.id {
                count += 1;
            }
            i += 1;
        }
        count
    }

    /// The geoms that the model lists for this body: `geom_n` of them from table
    /// position `geom_addr`.
    pub fn geoms<'a>(&self, geoms: &'a [Geom<S>]) -> (body_geoms: Vec<&'a Geom<S>>)
        requires
            0 <= self.geom_addr,
            0 <= self.geom_n,
            self.geom_addr + self.geom_n <= geoms@.len(),
        ensures
            body_geoms@.len() == self.geom_n,
            forall|i: int| 0 <= i < self.geom_n ==> *body_geoms@[i] == geoms@[self.geom_addr + i],
    {
        let mut body_geoms: Vec<&'a Geom<S>> = Vec::new();
        let mut i: i32 = 0;
        while i < self.geom_n
            invariant
                0 <= i <= self.geom_n,
                0 <= self.geom_addr,
                self.geom_addr + self.geom_n <= geoms@.len(),
                body_geoms@.len() == i,
                forall|k: int| 0 <= k < i ==> *body_geoms@[k] == geoms@[self.geom_addr + k],
            decreases self.geom_n - i,
        {
            let at: usize = self.geom_addr as usize + i as usize;
            body_geoms.push(&geoms[at]);
            i += 1;
        }
        body_geoms
    }

    /// Table position of the geom drawn for this body. A body that owns exactly
    /// one geom is drawn by it. Otherwise the geoms it owns in a visibility group
    /// below `VISIBLE_GROUP_LIMIT` are its candidates; a mesh is taken before any
    /// generated shape, then the lowest group, then the earliest in the table.
    /// `None` where the body has no geom to draw.
    pub fn render_geom_index(&self, geoms: &[Geom<S>]) -> (choice: Option<usize>)
        ensures
            match choice {
                Some(g) => is_render_geom(geoms@, self.id, g as int) && render_choice(geoms@, self.id)
                    == Some(g as int),
                None => render_choice(geoms@, self.id).is_none() && forall|g: int|
                    !is_render_geom(geoms@, self.id, g),
            },
    {
        let mut count: usize = 0;
        let mut last: usize = 0;
        let mut keys: Vec<(u8, i32, usize)> = Vec::new();
        let mut i: usize = 0;
        while i < geoms.len()
            invariant
                i <= geoms@.len(),
                count == owned_upto(geoms@, self.id, i as int),
                count <= i,
                count > 0 ==> last < i && geoms@[last as int].body_id == self.id,
                forall|k: int|
                    0 <= k < keys@.len() ==> is_candidate(
                        geoms@,
                        self.id,
                        (#[trigger] keys@[k]).2 as int,
                    ) && keys@[k] == render_key(geoms@, keys@[k].2 as int),
                forall|g: int|
                    0 <= g < i && is_candidate(geoms@, self.id, g) ==> keys@.contains(
                        #[trigger] render_key(geoms@, g),
                    ),
            decreases geoms@.len() - i,
        {
            let geom = &geoms[i];
            if geom.body_id == self.id {
                count += 1;
                last = i;
                if geom.geom_group < VISIBLE_GROUP_LIMIT {
                    let rank: u8 = if geom.geom_type.is_mesh() { 0 } else { 1 };
                    let ghost before = keys@;
                    keys.push((rank, geom.geom_group, i));
                    proof {
                        assert(keys@[before.len() as int] == render_key(geoms@, i as int));
                        assert forall|g: int|
                            0 <= g < i + 1 && is_candidate(
                                geoms@,
                                self.id,
                                g,
                            ) implies keys@.contains(#[trigger] render_key(geoms@, g)) by {
                            if g < i {
                                let k = choose|k: int|
                                    0 <= k < before.len() && before[k] == render_key(geoms@, g);
                                assert(keys@[k] == render_key(geoms@, g));
                            } else {
                                assert(keys@[before.len() as int] == render_key(geoms@, g));
                            }
                        }
                    }
                }
            }
            i += 1;
        }
        if count == 1 {
            proof {
                assert(is_render_geom(geoms@, self.id, last as int));
                lemma_render_geom_unique(
                    geoms@,
                    self.id,
                    last as int,
                    choose|g: int| is_render_geom(geoms@, self.id, g),
                );
            }
            return Some(last);
        }
        let ghost all = keys@;
        let sorted = sorted_keys(keys);
        proof {
            all.to_multiset_ensures();
            sorted@.to_multiset_ensures();
        }
        if sorted.len() == 0 {
            proof {
                assert forall|g: int| !is_render_geom(geoms@, self.id, g) by {
                    if is_candidate(geoms@, self.id, g) {
                        assert(all.contains(render_key(geoms@, g)));
                    }
                }
            }
            return None;
        }
        let first = sorted[0];
        proof {
            assert(sorted@.contains(first));
            assert(sorted@.to_multiset().count(first) > 0);
            assert(all.to_multiset().count(first) > 0);
            assert(all.contains(first));
            let k = choose|k: int| 0 <= k < all.len() && all[k] == first;
            assert(is_candidate(geoms@, self.id, all[k].2 as int));
            assert forall|h: int| is_candidate(geoms@, self.id, h) && h != first.2 implies key_lt(
                render_key(geoms@, first.2 as int),
                #[trigger] render_key(geoms@, h),
            ) by {
                let key = render_key(geoms@, h);
                assert(all.contains(key));
                assert(all.to_multiset().count(key) > 0);
                assert(sorted@.to_multiset().count(key) > 0);
                assert(sorted@.contains(key));
                let j = choose|j: int| 0 <= j < sorted@.len() && sorted@[j] == key;
                if j > 0 {
                    assert(key_le(sorted@[0], sorted@[j]));
                }
            }
        }
        proof {
            assert(is_render_geom(geoms@, self.id, first.2 as int));
            lemma_render_geom_unique(
                geoms@,
                self.id,
                first.2 as int,
                choose|g: int| is_render_geom(geoms@, self.id, g),
            );
        }
        Some(first.2)
    }

    /// The geom drawn for this body, as `render_geom_index` chooses it.
    pub fn render_geom<'a>(&self, geoms: &'a [Geom<S>]) -> (choice: Option<&'a Geom<S>>)
        ensures
            match render_choice(geoms@, self.id) {
                Some(g) => is_render_geom(geoms@, self.id, g) && choice == Some(&geoms@[g]),
                None => choice.is_none(),
            },
    {
        match self.render_geom_index(geoms) {
            Some(g) => Some(&geoms[g]),
            None => None,
        }
    }
}

} // verus!
