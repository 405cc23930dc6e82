//! Reading the model out of the simulation's flat tables.
//!
//! The simulation keeps one flat table per property: three scalars per position,
//! four per quaternion, three indices per triangle, and all names in one buffer,
//! each ended by a zero byte. Here the tables are cut into bodies, geoms and meshes.

use crate::model::{is_kind_code, Body, Geom, GeomType, MuJoCoMesh};
use crate::tree::{body_tree, forest, joined, roots, subtree, BodyTree};
use arrayvec::ArrayVec;
use vstd::prelude::*;
use vstd::slice::{slice_subrange, spec_slice_len};

verus! {

/// `arrayvec::ArrayVec::from_iter` on the items of `chunk`, then
/// `ArrayVec::into_inner`: the array of the same items in the same order. The
/// first panics on more items than the array holds and the second hands back no
/// array for fewer, so `chunk` has to hold exactly as many.
#[verifier::external_body]
fn array_from<S: Copy, const N: usize>(chunk: &[S]) -> (array: [S; N])
    requires
        chunk@.len() == N,
    ensures
        array@ == chunk@,
{
    let items: ArrayVec<S, N> = chunk.iter().copied().collect();
    items.into_inner().ok().unwrap()
}

/// `String::push`: `c` is added at the end of `text`.
#[verifier::external_body]
fn push_char(text: &mut String, c: char)
    ensures
        final(text)@ == old(text)@.push(c),
{
    text.push(c)
}

/// Where the name that starts at `from` ends: at the first zero byte from there,
/// or at the end of the buffer.
pub open spec fn name_end(names: Seq<u8>, from: int) -> int
    decreases names.len() - from,
{
    if from < 0 || from >= names.len() || names[from] == 0 {
        from
    } else {
        name_end(names, from + 1)
    }
}

/// The bytes `names[start..end]` as characters.
pub open spec fn chars_of(names: Seq<u8>, start: int, end: int) -> Seq<char> {
    Seq::new((end - start) as nat, |k: int| names[start + k] as char)
}

/// The name that starts at `start`.
pub open spec fn name_at(names: Seq<u8>, start: int) -> Seq<char> {
    chars_of(names, start, name_end(names, start))
}

/// Where the run of bytes without a zero that ends before `end` starts.
pub open spec fn name_start(names: Seq<u8>, end: int) -> int
    decreases end,
{
    if end <= 0 || end > names.len() || names[end - 1] == 0 {
        end
    } else {
        name_start(names, end - 1)
    }
}

/// The names whose closing zero byte is among the first `upto` bytes, in the order
/// of the buffer. Bytes after the last zero byte belong to no name.
pub open spec fn names_upto(names: Seq<u8>, upto: int) -> Seq<Seq<char>>
    decreases upto,
{
    if upto <= 0 {
        Seq::empty()
    } else if names[upto - 1] == 0 {
        names_upto(names, upto - 1).push(chars_of(names, name_start(names, upto - 1), upto - 1))
    } else {
        names_upto(names, upto - 1)
    }
}

/// The name that starts at `start`: the bytes from there to the first zero byte,
/// or to the end of the buffer where none follows, each byte a character.
pub fn extract_string(names: &[u8], start: usize) -> (name: String)
    requires
        start <= names@.len(),
    ensures
        name@ == name_at(names@, start as int),
{
    let mut name = String::new();
    let mut i: usize = start;
    while i < names.len() && names[i] != 0
        invariant
            start <= i <= names@.len(),
            name_end(names@, i as int) == name_end(names@, start as int),
            name@ == chars_of(names@, start as int, i as int),
        decreases names@.len() - i,
    {
        let ghost before = name@;
        push_char(&mut name, names[i] as char);
        assert(before.push(names@[i as int] as char) =~= chars_of(names@, start as int, i + 1));
        i += 1;
    }
    name
}

/// The triple with number `i` of a flat table of triples.
pub fn triple_at<S: Copy>(flat: &[S], i: usize) -> (triple: [S; 3])
    requires
        3 * i + 3 <= flat@.len(),
    ensures
        triple@ == flat@.subrange(3 * i, 3 * i + 3),
{
    assert(spec_slice_len(flat) == flat@.len());
    array_from::<S, 3>(slice_subrange(flat, 3 * i, 3 * i + 3))
}

/// The quadruple with number `i` of a flat table of quadruples.
pub fn quad_at<S: Copy>(flat: &[S], i: usize) -> (quad: [S; 4])
    requires
        4 * i + 4 <= flat@.len(),
    ensures
        quad@ == flat@.subrange(4 * i, 4 * i + 4),
{
    assert(spec_slice_len(flat) == flat@.len());
    array_from::<S, 4>(slice_subrange(flat, 4 * i, 4 * i + 4))
}

/// `count` points of a flat table of triples, from the point with number `offset`.
pub fn extract_mesh_attribute<S: Copy>(array: &[S], offset: usize, count: usize) -> (points: Vec<
    [S; 3],
>)
    requires
        3 * (offset + count) <= array@.len(),
    ensures
        points@.len() == count,
        forall|k: int|
            0 <= k < count ==> (#[trigger] points@[k])@ == array@.subrange(
                3 * (offset + k),
                3 * (offset + k) + 3,
            ),
{
    assert(spec_slice_len(array) == array@.len());
    let mut points: Vec<[S; 3]> = Vec::with_capacity(count);
    let mut k: usize = 0;
    while k < count
        invariant
            k <= count,
            3 * (offset + count) <= array@.len(),
            array@.len() <= usize::MAX,
            points@.len() == k,
            forall|j: int|
                0 <= j < k ==> (#[trigger] points@[j])@ == array@.subrange(
                    3 * (offset + j),
                    3 * (offset + j) + 3,
                ),
        decreases count - k,
    {
        points.push(triple_at(array, offset + k));
        k += 1;
    }
    points
}

/// The corner indices of `face_num` triangles of a flat table of triangles, from
/// the triangle with number `face_addr`, three for each.
pub fn extract_indices(array: &[i32], face_addr: usize, face_num: usize) -> (indices: Vec<u32>)
    requires
        3 * (face_addr + face_num) <= array@.len(),
    ensures
        indices@.len() == 3 * face_num,
        forall|k: int|
            0 <= k < 3 * face_num ==> #[trigger] indices@[k] == array@[3 * face_addr + k] as u32,
{
    assert(spec_slice_len(array) == array@.len());
    let mut indices: Vec<u32> = Vec::new();
    let first: usize = 3 * face_addr;
    let count: usize = 3 * face_num;
    let mut k: usize = 0;
    while k < count
        invariant
            k <= count,
            first + count <= array@.len(),
            array@.len() <= usize::MAX,
            indices@.len() == k,
            forall|j: int| 0 <= j < k ==> #[trigger] indices@[j] == array@[first + j] as u32,
        decreases count - k,
    {
        let corner: u32 = #[verifier::truncate]
        (array[first + k] as u32);
        indices.push(corner);
        k += 1;
    }
    indices
}

/// The model and its latest poses as the simulation lays them out.
#[derive(Debug, Clone)]
pub struct MuJoCo<S> {
    /// All names, each ended by a zero byte.
    pub names: Vec<u8>,
    /// Id of each body's parent.
    pub body_parentid: Vec<i32>,
    /// Number of geoms of each body.
    pub body_geomnum: Vec<i32>,
    /// Position of each body's first geom in the geom tables.
    pub body_geomadr: Vec<i32>,
    /// Position of each body relative to its parent, three scalars each.
    pub body_pos: Vec<S>,
    /// Orientation of each body relative to its parent, four scalars each.
    pub body_quat: Vec<S>,
    /// Where each body's name starts in `names`.
    pub name_bodyadr: Vec<i32>,
    /// Code of each geom's shape kind.
    pub geom_type: Vec<i32>,
    /// Id of the body that owns each geom.
    pub geom_bodyid: Vec<i32>,
    /// Visibility group of each geom.
    pub geom_group: Vec<i32>,
    /// Contact type of each geom.
    pub geom_contype: Vec<i32>,
    /// Position of each geom's mesh in the mesh tables, or -1.
    pub geom_dataid: Vec<i32>,
    /// Position of each geom, three scalars each.
    pub geom_pos: Vec<S>,
    /// Orientation of each geom, four scalars each.
    pub geom_quat: Vec<S>,
    /// Size of each geom, three scalars each.
    pub geom_size: Vec<S>,
    /// Colour of each geom, four scalars each.
    pub geom_rgba: Vec<S>,
    /// Where each geom's name starts in `names`.
    pub name_geomadr: Vec<i32>,
    /// Number of each mesh's first vertex.
    pub mesh_vertadr: Vec<i32>,
    /// How many vertices each mesh has.
    pub mesh_vertnum: Vec<i32>,
    /// Number of each mesh's first triangle.
    pub mesh_faceadr: Vec<i32>,
    /// How many triangles each mesh has.
    pub mesh_facenum: Vec<i32>,
    /// The vertices of all meshes, three scalars each.
    pub mesh_vert: Vec<S>,
    /// The normals of all meshes, three scalars each.
    pub mesh_normal: Vec<S>,
    /// The triangles of all meshes, three vertex numbers each.
    pub mesh_face: Vec<i32>,
    /// Where each mesh's name starts in `names`.
    pub name_meshadr: Vec<i32>,
    /// Absolute position of each body after the latest step, three scalars each.
    pub body_xpos: Vec<S>,
    /// Absolute orientation of each body after the latest step, four scalars each.
    pub body_xquat: Vec<S>,
}

/// All entries of `adr` are positions of a buffer of `len` bytes, its end included.
pub open spec fn are_addresses(adr: Seq<i32>, len: nat) -> bool {
    forall|i: int| 0 <= i < adr.len() ==> 0 <= #[trigger] adr[i] <= len
}

fn check_addresses(adr: &[i32], len: usize) -> (ok: bool)
    ensures
        ok == are_addresses(adr@, len as nat),
{
    let mut i: usize = 0;
    while i < adr.len()
        invariant
            i <= adr@.len(),
            forall|j: int| 0 <= j < i ==> 0 <= #[trigger] adr@[j] <= len,
        decreases adr@.len() - i,
    {
        if adr[i] < 0 || adr[i] as usize > len {
            return false;
        }
        i += 1;
    }
    true
}

impl<S> MuJoCo<S> {
    /// The number of bodies.
    pub open spec fn body_count(&self) -> nat {
        self.body_parentid@.len()
    }

    /// The number of geoms.
    pub open spec fn geom_count(&self) -> nat {
        self.geom_type@.len()
    }

    /// The number of meshes.
    pub open spec fn mesh_count(&self) -> nat {
        self.mesh_vertadr@.len()
    }

    /// The body tables have one entry for every body.
    pub open spec fn has_bodies(&self) -> bool {
        let n = self.body_count();
        &&& n <= i32::MAX
        &&& self.body_geomnum@.len() == n
        &&& self.body_geomadr@.len() == n
        &&& self.name_bodyadr@.len() == n
        &&& self.body_pos@.len() == 3 * n
        &&& self.body_quat@.len() == 4 * n
        &&& self.body_xpos@.len() == 3 * n
        &&& self.body_xquat@.len() == 4 * n
        &&& are_addresses(self.name_bodyadr@, self.names@.len())
    }

    /// Geom `i` has a shape kind that exists, and a mesh that exists or none.
    pub open spec fn is_geom_entry(&self, i: int) -> bool {
        &&& 0 <= self.geom_type@[i]
        &&& is_kind_code(self.geom_type@[i] as usize)
        &&& -1 <= self.geom_dataid@[i] < self.mesh_count()
    }

    /// The geom tables have one entry for every geom.
    pub open spec fn has_geoms(&self) -> bool {
        let n = self.geom_count();
        &&& n <= i32::MAX
        &&& self.geom_bodyid@.len() == n
        &&& self.geom_group@.len() == n
        &&& self.geom_contype@.len() == n
        &&& self.geom_dataid@.len() == n
        &&& self.name_geomadr@.len() == n
        &&& self.geom_pos@.len() == 3 * n
        &&& self.geom_quat@.len() == 4 * n
        &&& self.geom_size@.len() == 3 * n
        &&& self.geom_rgba@.len() == 4 * n
        &&& are_addresses(self.name_geomadr@, self.names@.len())
        &&& forall|i: int| 0 <= i < n ==> #[trigger] self.is_geom_entry(i)
    }

    /// The vertices and triangles of mesh `m` lie within the tables.
    pub open spec fn is_mesh_entry(&self, m: int) -> bool {
        &&& 0 <= self.mesh_vertadr@[m]
        &&& 0 <= self.mesh_vertnum@[m]
        &&& 0 <= self.mesh_faceadr@[m]
        &&& 0 <= self.mesh_facenum@[m]
        &&& 3 * (self.mesh_vertadr@[m] + self.mesh_vertnum@[m]) <= self.mesh_vert@.len()
        &&& 3 * (self.mesh_vertadr@[m] + self.mesh_vertnum@[m]) <= self.mesh_normal@.len()
        &&& 3 * (self.mesh_faceadr@[m] + self.mesh_facenum@[m]) <= self.mesh_face@.len()
    }

    /// The mesh tables have one entry for every mesh.
    pub open spec fn has_meshes(&self) -> bool {
        let n = self.mesh_count();
        &&& self.mesh_vertnum@.len() == n
        &&& self.mesh_faceadr@.len() == n
        &&& self.mesh_facenum@.len() == n
        &&& self.name_meshadr@.len() == n
        &&& are_addresses(self.name_meshadr@, self.names@.len())
        &&& forall|m: int| 0 <= m < n ==> #[trigger] self.is_mesh_entry(m)
    }

    /// The tables fit together: each has the length that the counts call for, and
    /// every address and id in them points into the table it refers to.
    pub open spec fn is_consistent(&self) -> bool {
        self.has_bodies() && self.has_geoms() && self.has_meshes()
    }

    fn check_bodies(&self) -> (ok: bool)
        ensures
            ok == self.has_bodies(),
    {
        let n: usize = self.body_parentid.len();
        if n > i32::MAX as usize {
            return false;
        }
        let wide: u64 = n as u64;
        self.body_geomnum.len() == n && self.body_geomadr.len() == n && self.name_bodyadr.len() == n
            && self.body_pos.len() as u64 == 3 * wide && self.body_quat.len() as u64 == 4 * wide
            && self.body_xpos.len() as u64 == 3 * wide && self.body_xquat.len() as u64 == 4 * wide
            && check_addresses(self.name_bodyadr.as_slice(), self.names.len())
    }

    fn check_geoms(&self) -> (ok: bool)
        ensures
            ok == self.has_geoms(),
    {
        let n: usize = self.geom_type.len();
        if n > i32::MAX as usize {
            return false;
        }
        let wide: u64 = n as u64;
        if !(self.geom_bodyid.len() == n && self.geom_group.len() == n && self.geom_contype.len() == n
            && self.geom_dataid.len() == n && self.name_geomadr.len() == n
            && self.geom_pos.len() as u64 == 3 * wide && self.geom_quat.len() as u64 == 4 * wide
            && self.geom_size.len() as u64 == 3 * wide && self.geom_rgba.len() as u64 == 4 * wide
            && check_addresses(self.name_geomadr.as_slice(), self.names.len())) {
            return false;
        }
        let meshes: usize = self.mesh_vertadr.len();
        let mut i: usize = 0;
        while i < n
            invariant
                i <= n,
                n == self.geom_count(),
                meshes == self.mesh_count(),
                self.geom_dataid@.len() == n,
                forall|j: int| 0 <= j < i ==> #[trigger] self.is_geom_entry(j),
            decreases n - i,
        {
            let code: i32 = self.geom_type[i];
            let data: i32 = self.geom_dataid[i];
            if code < 0 || GeomType::try_from_code(code as usize).is_none() || data < -1 || (data >= 0
                && data as usize >= meshes) {
                assert(!self.is_geom_entry(i as int));
                return false;
            }
            i += 1;
        }
        true
    }

    fn check_meshes(&self) -> (ok: bool)
        ensures
            ok == self.has_meshes(),
    {
        let n: usize = self.mesh_vertadr.len();
        if !(self.mesh_vertnum.len() == n && self.mesh_faceadr.len() == n && self.mesh_facenum.len()
            == n && self.name_meshadr.len() == n && check_addresses(
            self.name_meshadr.as_slice(),
            self.names.len(),
        )) {
            return false;
        }
        let verts: u64 = self.mesh_vert.len() as u64;
        let normals: u64 = self.mesh_normal.len() as u64;
        let faces: u64 = self.mesh_face.len() as u64;
        let mut m: usize = 0;
        while m < n
            invariant
                m <= n,
                n == self.mesh_count(),
                self.mesh_vertnum@.len() == n,
                self.mesh_faceadr@.len() == n,
                self.mesh_facenum@.len() == n,
                verts == self.mesh_vert@.len(),
                normals == self.mesh_normal@.len(),
                faces == self.mesh_face@.len(),
                forall|j: int| 0 <= j < m ==> #[trigger] self.is_mesh_entry(j),
            decreases n - m,
        {
            let vertadr: i32 = self.mesh_vertadr[m];
            let vertnum: i32 = self.mesh_vertnum[m];
            let faceadr: i32 = self.mesh_faceadr[m];
            let facenum: i32 = self.mesh_facenum[m];
            if vertadr < 0 || vertnum < 0 || faceadr < 0 || facenum < 0 {
                assert(!self.is_mesh_entry(m as int));
                return false;
            }
            let vert_end: u64 = 3 * (vertadr as u64 + vertnum as u64);
            let face_end: u64 = 3 * (faceadr as u64 + facenum as u64);
            if vert_end > verts || vert_end > normals || face_end > faces {
                assert(!self.is_mesh_entry(m as int));
                return false;
            }
            m += 1;
        }
        true
    }

    /// Whether the tables fit together.
    pub fn check(&self) -> (ok: bool)
        ensures
            ok == self.is_consistent(),
    {
        self.check_bodies() && self.check_geoms() && self.check_meshes()
    }

    /// Returns a number of geoms in the model
    pub fn ngeom(&self) -> (n: usize)
        ensures
            n == self.geom_count(),
    {
        self.geom_type.len()
    }

    /// Returns a number of bodies in the model
    pub fn nbody(&self) -> (n: usize)
        ensures
            n == self.body_count(),
    {
        self.body_parentid.len()
    }

    /// Returns a number of meshes
    pub fn nmesh(&self) -> (n: usize)
        ensures
            n == self.mesh_count(),
    {
        self.mesh_vertadr.len()
    }

    /// Returns a number of vertices in all meshes
    pub fn nmeshvert(&self) -> (n: usize)
        ensures
            n == self.mesh_vert@.len() / 3,
    {
        self.mesh_vert.len() / 3
    }

    /// Returns a number of triangular faces in all meshes
    pub fn nmeshface(&self) -> (n: usize)
        ensures
            n == self.mesh_face@.len() / 3,
    {
        self.mesh_face.len() / 3
    }

    /// Returns start index of vertices for a given mesh
    pub fn mesh_vertadr(&self, mesh_id: usize) -> (adr: usize)
        requires
            self.has_meshes(),
            mesh_id < self.mesh_count(),
        ensures
            adr == self.mesh_vertadr@[mesh_id as int],
    {
        assert(self.is_mesh_entry(mesh_id as int));
        self.mesh_vertadr[mesh_id] as usize
    }

    /// Returns number of vertices for a given mesh
    pub fn mesh_vertnum(&self, mesh_id: usize) -> (num: usize)
        requires
            self.has_meshes(),
            mesh_id < self.mesh_count(),
        ensures
            num == self.mesh_vertnum@[mesh_id as int],
    {
        assert(self.is_mesh_entry(mesh_id as int));
        self.mesh_vertnum[mesh_id] as usize
    }

    /// Returns start index of faces for a given mesh
    pub fn mesh_faceadr(&self, mesh_id: usize) -> (adr: usize)
        requires
            self.has_meshes(),
            mesh_id < self.mesh_count(),
        ensures
            adr == self.mesh_faceadr@[mesh_id as int],
    {
        assert(self.is_mesh_entry(mesh_id as int));
        self.mesh_faceadr[mesh_id] as usize
    }

    /// Returns number of faces for a given mesh
    pub fn mesh_facenum(&self, mesh_id: usize) -> (num: usize)
        requires
            self.has_meshes(),
            mesh_id < self.mesh_count(),
        ensures
            num == self.mesh_facenum@[mesh_id as int],
    {
        assert(self.is_mesh_entry(mesh_id as int));
        self.mesh_facenum[mesh_id] as usize
    }

    /// All names of the model in the order of the name buffer. Bytes after the
    /// last zero byte belong to no name.
    pub fn names(&self) -> (names: Vec<String>)
        ensures
            names@.len() == names_upto(self.names@, self.names@.len() as int).len(),
            forall|k: int|
                0 <= k < names@.len() ==> (#[trigger] names@[k])@ == names_upto(
                    self.names@,
                    self.names@.len() as int,
                )[k],
    {
        let mut names: Vec<String> = Vec::new();
        let mut current = String::new();
        let mut i: usize = 0;
        while i < self.names.len()
            invariant
                i <= self.names@.len(),
                names@.len() == names_upto(self.names@, i as int).len(),
                forall|k: int|
                    0 <= k < names@.len() ==> (#[trigger] names@[k])@ == names_upto(
                        self.names@,
                        i as int,
                    )[k],
                current@ == chars_of(self.names@, name_start(self.names@, i as int), i as int),
                0 <= name_start(self.names@, i as int) <= i,
            decreases self.names@.len() - i,
        {
            let byte: u8 = self.names[i];
            if byte == 0 {
                names.push(current);
                current = String::new();
                assert(current@ =~= chars_of(self.names@, i + 1, i + 1));
            } else {
                let ghost before = current@;
                push_char(&mut current, byte as char);
                assert(before.push(byte as char) =~= chars_of(
                    self.names@,
                    name_start(self.names@, i as int),
                    i + 1,
                ));
            }
            i += 1;
        }
        names
    }
}

impl<S: Copy> MuJoCo<S> {
    /// `body` is the body with number `i` of the tables.
    pub open spec fn is_body(&self, i: int, body: Body<S>) -> bool {
        &&& body.id == i
        &&& body.name@ == name_at(self.names@, self.name_bodyadr@[i] as int)
        &&& body.parent_id == self.body_parentid@[i]
        &&& body.geom_n == self.body_geomnum@[i]
        &&& body.geom_addr == self.body_geomadr@[i]
        &&& body.pos@ == self.body_pos@.subrange(3 * i, 3 * i + 3)
        &&& body.quat@ == self.body_quat@.subrange(4 * i, 4 * i + 4)
    }

    /// `mesh` is the mesh with number `m` of the tables.
    pub open spec fn is_mesh(&self, m: int, mesh: MuJoCoMesh<S>) -> bool {
        let vertadr = self.mesh_vertadr@[m] as int;
        let faceadr = self.mesh_faceadr@[m] as int;
        &&& mesh.name@ == name_at(self.names@, self.name_meshadr@[m] as int)
        &&& mesh.vertices@.len() == self.mesh_vertnum@[m]
        &&& mesh.normals@.len() == self.mesh_vertnum@[m]
        &&& mesh.indices@.len() == 3 * self.mesh_facenum@[m]
        &&& forall|k: int|
            0 <= k < mesh.vertices@.len() ==> (#[trigger] mesh.vertices@[k])@
                == self.mesh_vert@.subrange(3 * (vertadr + k), 3 * (vertadr + k) + 3)
        &&& forall|k: int|
            0 <= k < mesh.normals@.len() ==> (#[trigger] mesh.normals@[k])@
                == self.mesh_normal@.subrange(3 * (vertadr + k), 3 * (vertadr + k) + 3)
        &&& forall|k: int|
            0 <= k < mesh.indices@.len() ==> #[trigger] mesh.indices@[k] == self.mesh_face@[3
                * faceadr + k] as u32
    }

    /// `geom` is the geom with number `i` of the tables.
    pub open spec fn is_geom(&self, i: int, geom: Geom<S>) -> bool {
        &&& geom.id == i
        &&& geom.name@ == name_at(self.names@, self.name_geomadr@[i] as int)
        &&& geom.geom_type.spec_code() == self.geom_type@[i]
        &&& geom.body_id == self.geom_bodyid@[i]
        &&& geom.geom_group == self.geom_group@[i]
        &&& geom.geom_contype == self.geom_contype@[i]
        &&& geom.pos@ == self.geom_pos@.subrange(3 * i, 3 * i + 3)
        &&& geom.quat@ == self.geom_quat@.subrange(4 * i, 4 * i + 4)
        &&& geom.size@ == self.geom_size@.subrange(3 * i, 3 * i + 3)
        &&& geom.color@ == self.geom_rgba@.subrange(4 * i, 4 * i + 4)
        &&& match geom.mesh {
            Some(mesh) => self.geom_dataid@[i] >= 0 && self.is_mesh(self.geom_dataid@[i] as int, mesh),
            None => self.geom_dataid@[i] == -1,
        }
    }

    /// Returns positions of bodies in inertial frame, in the simulation's axes
    pub fn xpos(&self) -> (positions: Vec<[S; 3]>)
        requires
            self.has_bodies(),
        ensures
            positions@.len() == self.body_count(),
            forall|i: int|
                0 <= i < positions@.len() ==> (#[trigger] positions@[i])@
                    == self.body_xpos@.subrange(3 * i, 3 * i + 3),
    {
        let n: usize = self.nbody();
        extract_mesh_attribute(self.body_xpos.as_slice(), 0, n)
    }

    /// Returns rotations of bodies, scalar part first
    pub fn xquat(&self) -> (rotations: Vec<[S; 4]>)
        requires
            self.has_bodies(),
        ensures
            rotations@.len() == self.body_count(),
            forall|i: int|
                0 <= i < rotations@.len() ==> (#[trigger] rotations@[i])@
                    == self.body_xquat@.subrange(4 * i, 4 * i + 4),
    {
        let n: usize = self.nbody();
        let mut rotations: Vec<[S; 4]> = Vec::new();
        let mut i: usize = 0;
        while i < n
            invariant
                i <= n,
                n == self.body_count(),
                self.body_xquat@.len() == 4 * n,
                rotations@.len() == i,
                forall|j: int|
                    0 <= j < i ==> (#[trigger] rotations@[j])@ == self.body_xquat@.subrange(
                        4 * j,
                        4 * j + 4,
                    ),
            decreases n - i,
        {
            rotations.push(quad_at(self.body_xquat.as_slice(), i));
            i += 1;
        }
        rotations
    }

    /// The mesh with number `m`.
    pub fn mesh(&self, m: usize) -> (mesh: MuJoCoMesh<S>)
        requires
            self.has_meshes(),
            m < self.mesh_count(),
        ensures
            self.is_mesh(m as int, mesh),
    {
        assert(self.is_mesh_entry(m as int));
        let vertadr: usize = self.mesh_vertadr(m);
        let vertnum: usize = self.mesh_vertnum(m);
        let faceadr: usize = self.mesh_faceadr(m);
        let facenum: usize = self.mesh_facenum(m);
        let vertices = extract_mesh_attribute(self.mesh_vert.as_slice(), vertadr, vertnum);
        let normals = extract_mesh_attribute(self.mesh_normal.as_slice(), vertadr, vertnum);
        let indices = extract_indices(self.mesh_face.as_slice(), faceadr, facenum);
        assert(0 <= self.name_meshadr@[m as int] <= self.names@.len());
        let name = extract_string(self.names.as_slice(), self.name_meshadr[m] as usize);
        MuJoCoMesh { vertices, normals, indices, name }
    }

    /// Returns list of meshes in a scene
    pub fn meshes(&self) -> (meshes: Vec<MuJoCoMesh<S>>)
        requires
            self.has_meshes(),
        ensures
            meshes@.len() == self.mesh_count(),
            forall|m: int| 0 <= m < meshes@.len() ==> self.is_mesh(m, #[trigger] meshes@[m]),
    {
        let n: usize = self.nmesh();
        let mut meshes: Vec<MuJoCoMesh<S>> = Vec::new();
        let mut m: usize = 0;
        while m < n
            invariant
                m <= n,
                n == self.mesh_count(),
                self.has_meshes(),
                meshes@.len() == m,
                forall|j: int| 0 <= j < m ==> self.is_mesh(j, #[trigger] meshes@[j]),
            decreases n - m,
        {
            meshes.push(self.mesh(m));
            m += 1;
        }
        meshes
    }

    /// Get bodies of the model
    pub fn bodies(&self) -> (bodies: Vec<Body<S>>)
        requires
            self.has_bodies(),
        ensures
            bodies@.len() == self.body_count(),
            forall|i: int| 0 <= i < bodies@.len() ==> self.is_body(i, #[trigger] bodies@[i]),
    {
        let n: usize = self.nbody();
        let mut bodies: Vec<Body<S>> = Vec::new();
        let mut i: usize = 0;
        while i < n
            invariant
                i <= n,
                n == self.body_count(),
                self.has_bodies(),
                bodies@.len() == i,
                forall|j: int| 0 <= j < i ==> self.is_body(j, #[trigger] bodies@[j]),
            decreases n - i,
        {
            assert(0 <= self.name_bodyadr@[i as int] <= self.names@.len());
            let body = Body {
                id: i as i32,
                name: extract_string(self.names.as_slice(), self.name_bodyadr[i] as usize),
                parent_id: self.body_parentid[i],
                geom_n: self.body_geomnum[i],
                geom_addr: self.body_geomadr[i],
                pos: triple_at(self.body_pos.as_slice(), i),
                quat: quad_at(self.body_quat.as_slice(), i),
            };
            bodies.push(body);
            i += 1;
        }
        bodies
    }

    /// Get geoms of the model
    pub fn geoms(&self) -> (geoms: Vec<Geom<S>>)
        requires
            self.has_geoms(),
            self.has_meshes(),
        ensures
            geoms@.len() == self.geom_count(),
            forall|i: int| 0 <= i < geoms@.len() ==> self.is_geom(i, #[trigger] geoms@[i]),
    {
        let n: usize = self.ngeom();
        let mut geoms: Vec<Geom<S>> = Vec::new();
        let mut i: usize = 0;
        while i < n
            invariant
                i <= n,
                n == self.geom_count(),
                self.has_geoms(),
                self.has_meshes(),
                geoms@.len() == i,
                forall|j: int| 0 <= j < i ==> self.is_geom(j, #[trigger] geoms@[j]),
            decreases n - i,
        {
            assert(self.is_geom_entry(i as int));
            assert(0 <= self.name_geomadr@[i as int] <= self.names@.len());
            let mesh_id: i32 = self.geom_dataid[i];
            let mesh = if mesh_id != -1 {
                Some(self.mesh(mesh_id as usize))
            } else {
                None
            };
            let geom = Geom {
                id: i as i32,
                name: extract_string(self.names.as_slice(), self.name_geomadr[i] as usize),
                geom_type: GeomType::from(self.geom_type[i] as usize),
                body_id: self.geom_bodyid[i],
                pos: triple_at(self.geom_pos.as_slice(), i),
                quat: quad_at(self.geom_quat.as_slice(), i),
                size: triple_at(self.geom_size.as_slice(), i),
                color: quad_at(self.geom_rgba.as_slice(), i),
                mesh,
                geom_group: self.geom_group[i],
                geom_contype: self.geom_contype[i],
            };
            geoms.push(geom);
            i += 1;
        }
        geoms
    }

    /// `trees` is the kinematic forest of `bodies`.
    pub open spec fn is_forest_of(trees: Seq<BodyTree>, bodies: Seq<Body<S>>) -> bool {
        &&& trees.len() == roots(bodies).len()
        &&& joined(trees) == forest(bodies)
        &&& forall|k: int|
            0 <= k < trees.len() ==> (#[trigger] trees[k])@ == subtree(
                bodies,
                roots(bodies)[k],
                bodies.len(),
            )
    }

    /// Returns tree of bodies: the kinematic forest of the bodies of the tables
    pub fn body_tree(&self) -> (trees: Vec<BodyTree>)
        requires
            self.has_bodies(),
        ensures
            exists|bodies: Seq<Body<S>>|
                {
                    &&& bodies.len() == self.body_count()
                    &&& forall|i: int| 0 <= i < bodies.len() ==> self.is_body(i, #[trigger] bodies[i])
                    &&& #[trigger] Self::is_forest_of(trees@, bodies)
                },
    {
        let bodies = self.bodies();
        let trees = body_tree(bodies.as_slice());
        assert(Self::is_forest_of(trees@, bodies@));
        trees
    }
}

} // verus!
