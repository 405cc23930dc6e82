//! The flat model table: bodies, geoms and mesh data as the simulation lists them.

use vstd::prelude::*;
use vstd::string::StringExecFns;

verus! {

/// Id of the immovable world frame. A body whose `parent_id` is this id is the
/// root of a tree.
pub const WORLD_ID: i32 = 0;

/// Shape kind of a geom.
#[allow(non_camel_case_types)]
#[derive(Debug, Clone, Copy, PartialEq, Eq, Structural)]
pub enum GeomType {
    /// plane
    PLANE,
    /// height field
    HFIELD,
    /// sphere
    SPHERE,
    /// capsule
    CAPSULE,
    /// ellipsoid
    ELLIPSOID,
    /// cylinder
    CYLINDER,
    /// box
    BOX,
    /// mesh
    MESH,
    /// missing geom type
    NONE,
}

/// Whether `val` is one of the simulation's codes for a shape kind.
pub open spec fn is_kind_code(val: usize) -> bool {
    val <= 7 || val == 1001
}

impl GeomType {
    /// The simulation's numeric code of this kind.
    pub open spec fn spec_code(self) -> usize {
        match self {
            GeomType::PLANE => 0,
            GeomType::HFIELD => 1,
            GeomType::SPHERE => 2,
            GeomType::CAPSULE => 3,
            GeomType::ELLIPSOID => 4,
            GeomType::CYLINDER => 5,
            GeomType::BOX => 6,
            GeomType::MESH => 7,
            GeomType::NONE => 1001,
        }
    }

    /// The simulation's numeric code of this kind.
    pub fn code(self) -> (val: usize)
        ensures
            val == self.spec_code(),
            is_kind_code(val),
    {
        match self {
            GeomType::PLANE => 0,
            GeomType::HFIELD => 1,
            GeomType::SPHERE => 2,
            GeomType::CAPSULE => 3,
            GeomType::ELLIPSOID => 4,
            GeomType::CYLINDER => 5,
            GeomType::BOX => 6,
            GeomType::MESH => 7,
            GeomType::NONE => 1001,
        }
    }

    /// The kind with code `val`, if `val` is a code.
    pub fn try_from_code(val: usize) -> (kind: Option<GeomType>)
        ensures
            kind.is_some() == is_kind_code(val),
            kind matches Some(k) ==> k.spec_code() == val,
    {
        if val == 0 {
            Some(GeomType::PLANE)
        } else if val == 1 {
            Some(GeomType::HFIELD)
        } else if val == 2 {
            Some(GeomType::SPHERE)
        } else if val == 3 {
            Some(GeomType::CAPSULE)
        } else if val == 4 {
            Some(GeomType::ELLIPSOID)
        } else if val == 5 {
            Some(GeomType::CYLINDER)
        } else if val == 6 {
            Some(GeomType::BOX)
        } else if val == 7 {
            Some(GeomType::MESH)
        } else if val == 1001 {
            Some(GeomType::NONE)
        } else {
            None
        }
    }

    /// The kind with code `val`.
    pub fn from(val: usize) -> (kind: GeomType)
        requires
            is_kind_code(val),
        ensures
            kind.spec_code() == val,
    {
        match GeomType::try_from_code(val) {
            Some(kind) => kind,
            None => GeomType::NONE,
        }
    }

    /// Whether this kind is drawn from imported mesh data rather than generated.
    pub fn is_mesh(self) -> (b: bool)
        ensures
            b == (self == GeomType::MESH),
    {
        match self {
            GeomType::MESH => true,
            _ => false,
        }
    }
}

/// Triangulated mesh taken from the simulation's mesh store.
#[derive(Debug, Clone)]
pub struct MuJoCoMesh<S> {
    pub vertices: Vec<[S; 3]>,
    pub normals: Vec<[S; 3]>,
    pub indices: Vec<u32>,
    pub name: String,
}

impl<S> MuJoCoMesh<S> {
    /// Where the mesh is kept as a file: in the directory `assets_path`, under its
    /// name, with the ending `.obj`.
    pub fn asset_path(&self, assets_path: &str) -> (path: String)
        ensures
            path@ == assets_path@ + "/"@ + self.name@ + ".obj"@,
    {
        let mut path = String::from_str(assets_path);
        path.append("/");
        path.append(self.name.as_str());
        path.append(".obj");
        path
    }
}

/// A collision or visual primitive attached to a body. Position, orientation and
/// size are in the simulation's convention; the quaternion is stored scalar first.
#[derive(Debug, Clone)]
pub struct Geom<S> {
    pub id: i32,
    pub name: String,
    pub geom_type: GeomType,
    pub body_id: i32,
    pub pos: [S; 3],
    pub quat: [S; 4],
    pub size: [S; 3],
    pub color: [S; 4],
    pub mesh: Option<MuJoCoMesh<S>>,
    pub geom_group: i32,
    pub geom_contype: i32,
}

/// A rigid link of the mechanism. Position and orientation are in the simulation's
/// convention; the quaternion is stored scalar first.
#[derive(Debug, Clone)]
pub struct Body<S> {
    pub id: i32,
    pub name: String,
    pub parent_id: i32,
    pub geom_n: i32,
    pub geom_addr: i32,
    pub pos: [S; 3],
    pub quat: [S; 4],
}

} // verus!
