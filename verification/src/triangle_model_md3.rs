use vstd::prelude::*;
use crate::triangle_model_iqm::{chunk_fits, read_u16_le, read_u32_le, u16_le, u32_le};

verus! {

/// Size of the MD3 file header in bytes.
pub const MD3_HEADER_SIZE: usize = 108;

/// Size of the header of an MD3 mesh in bytes.
pub const MD3_MESH_HEADER_SIZE: usize = 108;

pub const MD3_VERSION: u32 = 15;

/// Sizes in bytes of the MD3 records that are read to check the file but not kept.
pub const MD3_FRAME_SIZE: u64 = 56;
pub const MD3_TAG_SIZE: u64 = 112;
pub const MD3_SHADER_SIZE: u64 = 68;

/// Bytes `o .. o + 4` hold the MD3 identifier `IDP3`.
pub open spec fn md3_ident_at(bytes: Seq<u8>, o: int) -> bool {
    &&& bytes[o] == 73
    &&& bytes[o + 1] == 68
    &&& bytes[o + 2] == 80
    &&& bytes[o + 3] == 51
}

/// Why an MD3 file gives no model.
#[derive(Copy, Clone, PartialEq, Eq, Structural, Debug)]
pub enum Md3LoadError {
    /// The file is shorter than the header.
    NoHeader,
    /// The file does not start with the MD3 identifier.
    NotMd3,
    /// The file has another format version (the one it has).
    WrongVersion(u32),
    /// A part that the header or a mesh header names lies past the end of the file.
    UnexpectedEof,
}

/// A vertex of one frame: its position in the file's fixed point and its packed normal.
#[derive(Copy, Clone, Debug)]
pub struct Md3Vertex {
    pub origin: [i16; 3],
    pub normal_pitch_yaw: i16,
}

/// A mesh of an MD3 model as the file holds it: the triangles (indices cut to 16 bits), the
/// texture coordinates of each vertex as the bits of two 32-bit floats, and the vertices of every
/// frame, frame after frame.
pub struct Md3MeshParts {
    pub num_frames: u32,
    pub triangles: Vec<[u16; 3]>,
    pub tex_coords: Vec<[u32; 2]>,
    pub vertices: Vec<Md3Vertex>,
}

/// Field of the mesh header at `o`, `at` bytes into it.
pub open spec fn mesh_field(bytes: Seq<u8>, o: int, at: int) -> int {
    u32_le(bytes, o + at) as int
}

/// Number of frame vertices of the mesh at `o`: vertices times frames, in 32-bit arithmetic.
pub open spec fn mesh_vertex_count(bytes: Seq<u8>, o: int) -> int {
    (mesh_field(bytes, o, 80) * mesh_field(bytes, o, 72)) % 0x1_0000_0000
}

/// The triangles, texture coordinates, frame vertices and shaders of the mesh at `o` lie within
/// the file.
pub open spec fn mesh_chunks_fit(bytes: Seq<u8>, o: int) -> bool {
    let len = bytes.len() as int;
    &&& chunk_fits(len, o + mesh_field(bytes, o, 88), 12 * mesh_field(bytes, o, 84))
    &&& chunk_fits(len, o + mesh_field(bytes, o, 96), 8 * mesh_field(bytes, o, 80))
    &&& chunk_fits(len, o + mesh_field(bytes, o, 100), 8 * mesh_vertex_count(bytes, o))
    &&& chunk_fits(len, o + mesh_field(bytes, o, 92), 68 * mesh_field(bytes, o, 76))
}

/// Little-endian signed 16-bit value at `at`.
pub open spec fn i16_le(bytes: Seq<u8>, at: int) -> i16 {
    u16_le(bytes, at) as i16
}

/// `m` holds the mesh whose header is at `o`.
pub open spec fn mesh_read(bytes: Seq<u8>, o: int, m: Md3MeshParts) -> bool {
    let nt = mesh_field(bytes, o, 84);
    let nv = mesh_field(bytes, o, 80);
    let vc = mesh_vertex_count(bytes, o);
    let lt = o + mesh_field(bytes, o, 88);
    let lc = o + mesh_field(bytes, o, 96);
    let lv = o + mesh_field(bytes, o, 100);
    &&& m.num_frames == mesh_field(bytes, o, 72)
    &&& m.triangles@.len() == nt
    &&& forall|k: int, c: int|
        0 <= k < nt && 0 <= c < 3 ==> #[trigger] m.triangles@[k][c] == u32_le(bytes, lt + 12 * k + 4 * c) as u16
    &&& m.tex_coords@.len() == nv
    &&& forall|k: int, c: int|
        0 <= k < nv && 0 <= c < 2 ==> #[trigger] m.tex_coords@[k][c] == u32_le(bytes, lc + 8 * k + 4 * c)
    &&& m.vertices@.len() == vc
    &&& forall|k: int|
        0 <= k < vc ==> {
            &&& (#[trigger] m.vertices@[k]).origin[0] == i16_le(bytes, lv + 8 * k)
            &&& m.vertices@[k].origin[1] == i16_le(bytes, lv + 8 * k + 2)
            &&& m.vertices@[k].origin[2] == i16_le(bytes, lv + 8 * k + 4)
            &&& m.vertices@[k].normal_pitch_yaw == i16_le(bytes, lv + 8 * k + 6)
        }
}

/// Where the mesh after the mesh at `o` starts: `o` plus the mesh's end offset.
pub open spec fn next_mesh(bytes: Seq<u8>, o: int) -> int {
    o + mesh_field(bytes, o, 104)
}

/// Reading `remaining` meshes from `o` on meets no part past the end of the file. The meshes
/// stop early where no whole mesh header is left; a mesh without the identifier is passed over.
pub open spec fn meshes_fit(bytes: Seq<u8>, o: int, remaining: nat) -> bool
    decreases remaining,
{
    if remaining == 0 || o + 108 > bytes.len() {
        true
    } else if !md3_ident_at(bytes, o) {
        meshes_fit(bytes, next_mesh(bytes, o), (remaining - 1) as nat)
    } else {
        mesh_chunks_fit(bytes, o) && meshes_fit(bytes, next_mesh(bytes, o), (remaining - 1) as nat)
    }
}

/// `ms` holds the meshes read from `o` on, `remaining` of them at most (see `meshes_fit`).
pub open spec fn meshes_read(bytes: Seq<u8>, o: int, remaining: nat, ms: Seq<Md3MeshParts>) -> bool
    decreases remaining,
{
    if remaining == 0 || o + 108 > bytes.len() {
        ms.len() == 0
    } else if !md3_ident_at(bytes, o) {
        meshes_read(bytes, next_mesh(bytes, o), (remaining - 1) as nat, ms)
    } else {
        &&& ms.len() > 0
        &&& mesh_read(bytes, o, ms[0])
        &&& meshes_read(bytes, next_mesh(bytes, o), (remaining - 1) as nat, ms.drop_first())
    }
}

/// Why the header refuses the file, if it does: too short, no identifier, another version.
pub open spec fn md3_header_error(bytes: Seq<u8>) -> Option<Md3LoadError> {
    if bytes.len() < MD3_HEADER_SIZE {
        Some(Md3LoadError::NoHeader)
    } else if !md3_ident_at(bytes, 0) {
        Some(Md3LoadError::NotMd3)
    } else if u32_le(bytes, 4) != MD3_VERSION {
        Some(Md3LoadError::WrongVersion(u32_le(bytes, 4)))
    } else {
        None
    }
}

/// The frame records, the tags and the meshes that the header names lie within the file.
pub open spec fn md3_parts_fit(bytes: Seq<u8>) -> bool {
    let len = bytes.len() as int;
    &&& chunk_fits(len, u32_le(bytes, 92) as int, 56 * u32_le(bytes, 76))
    &&& chunk_fits(len, u32_le(bytes, 96) as int, 112 * u32_le(bytes, 80))
    &&& meshes_fit(bytes, u32_le(bytes, 100) as int, u32_le(bytes, 84) as nat)
}

/// A part of `size` bytes at `at` lies within a file of `len` bytes (see `chunk_fits`).
fn chunk_in_file(len: usize, at: u64, size: u64) -> (r: bool)
    ensures
        r == chunk_fits(len as int, at as int, size as int),
{
    size == 0 || (at <= len as u64 && size <= len as u64 - at)
}

/// A part of `size` bytes at `base + rel` lies within a file of `len` bytes (see `chunk_fits`).
fn part_fits(len: usize, base: u64, rel: u32, size: u64) -> (r: bool)
    ensures
        r == chunk_fits(len as int, base + rel, size as int),
{
    if size == 0 {
        return true;
    }
    match base.checked_add(rel as u64) {
        Some(at) => at <= len as u64 && size <= len as u64 - at,
        None => false,
    }
}

/// Reads `count` triangles of three 32-bit indices at `at`, each index cut to 16 bits.
fn read_triangles(bytes: &Vec<u8>, at: usize, count: usize) -> (r: Vec<[u16; 3]>)
    requires
        at + 12 * count <= bytes@.len(),
    ensures
        r@.len() == count,
        forall|k: int, c: int|
            0 <= k < count && 0 <= c < 3 ==> #[trigger] r@[k][c] == u32_le(bytes@, at + 12 * k + 4 * c) as u16,
{
    let len = bytes.len();
    let mut r: Vec<[u16; 3]> = Vec::new();
    let mut k: usize = 0;
    while k < count
        invariant
            len == bytes@.len(),
            k <= count,
            at + 12 * count <= bytes@.len(),
            r@.len() == k,
            forall|j: int, c: int|
                0 <= j < k && 0 <= c < 3 ==> #[trigger] r@[j][c] == u32_le(bytes@, at + 12 * j + 4 * c) as u16,
        decreases count - k,
    {
        let p = at + 12 * k;
        let t: [u16; 3] = [
            read_u32_le(bytes, p) as u16,
            read_u32_le(bytes, p + 4) as u16,
            read_u32_le(bytes, p + 8) as u16,
        ];
        r.push(t);
        k = k + 1;
        assert forall|j: int, c: int| 0 <= j < k && 0 <= c < 3 implies #[trigger] r@[j][c] == u32_le(
            bytes@,
            at + 12 * j + 4 * c,
        ) as u16 by {
            if j == k - 1 {
                if c == 0 {
                } else if c == 1 {
                } else {
                }
            }
        }
    }
    r
}

/// Reads `count` pairs of 32-bit values at `at`.
fn read_word_pairs(bytes: &Vec<u8>, at: usize, count: usize) -> (r: Vec<[u32; 2]>)
    requires
        at + 8 * count <= bytes@.len(),
    ensures
        r@.len() == count,
        forall|k: int, c: int|
            0 <= k < count && 0 <= c < 2 ==> #[trigger] r@[k][c] == u32_le(bytes@, at + 8 * k + 4 * c),
{
    let len = bytes.len();
    let mut r: Vec<[u32; 2]> = Vec::new();
    let mut k: usize = 0;
    while k < count
        invariant
            len == bytes@.len(),
            k <= count,
            at + 8 * count <= bytes@.len(),
            r@.len() == k,
            forall|j: int, c: int|
                0 <= j < k && 0 <= c < 2 ==> #[trigger] r@[j][c] == u32_le(bytes@, at + 8 * j + 4 * c),
        decreases count - k,
    {
        let p = at + 8 * k;
        let t: [u32; 2] = [read_u32_le(bytes, p), read_u32_le(bytes, p + 4)];
        r.push(t);
        k = k + 1;
        assert forall|j: int, c: int| 0 <= j < k && 0 <= c < 2 implies #[trigger] r@[j][c] == u32_le(
            bytes@,
            at + 8 * j + 4 * c,
        ) by {
            if j == k - 1 {
                if c == 0 {
                } else {
                }
            }
        }
    }
    r
}

/// Reads `count` frame vertices (three signed 16-bit coordinates and a packed normal) at `at`.
fn read_vertices(bytes: &Vec<u8>, at: usize, count: usize) -> (r: Vec<Md3Vertex>)
    requires
        at + 8 * count <= bytes@.len(),
    ensures
        r@.len() == count,
        forall|k: int|
            0 <= k < count ==> {
                &&& (#[trigger] r@[k]).origin[0] == i16_le(bytes@, at + 8 * k)
                &&& r@[k].origin[1] == i16_le(bytes@, at + 8 * k + 2)
                &&& r@[k].origin[2] == i16_le(bytes@, at + 8 * k + 4)
                &&& r@[k].normal_pitch_yaw == i16_le(bytes@, at + 8 * k + 6)
            },
{
    let len = bytes.len();
    let mut r: Vec<Md3Vertex> = Vec::new();
    let mut k: usize = 0;
    while k < count
        invariant
            len == bytes@.len(),
            k <= count,
            at + 8 * count <= bytes@.len(),
            r@.len() == k,
            forall|j: int|
                0 <= j < k ==> {
                    &&& (#[trigger] r@[j]).origin[0] == i16_le(bytes@, at + 8 * j)
                    &&& r@[j].origin[1] == i16_le(bytes@, at + 8 * j + 2)
                    &&& r@[j].origin[2] == i16_le(bytes@, at + 8 * j + 4)
                    &&& r@[j].normal_pitch_yaw == i16_le(bytes@, at + 8 * j + 6)
                },
        decreases count - k,
    {
        let p = at + 8 * k;
        let v = Md3Vertex {
            origin: [
                read_u16_le(bytes, p) as i16,
                read_u16_le(bytes, p + 2) as i16,
                read_u16_le(bytes, p + 4) as i16,
            ],
            normal_pitch_yaw: read_u16_le(bytes, p + 6) as i16,
        };
        r.push(v);
        k = k + 1;
    }
    r
}

/// Reads the mesh whose header is at `o`; fails where one of its parts lies past the end.
fn load_md3_mesh(bytes: &Vec<u8>, o: usize) -> (r: Result<Md3MeshParts, Md3LoadError>)
    requires
        o + MD3_MESH_HEADER_SIZE <= bytes@.len(),
    ensures
        mesh_chunks_fit(bytes@, o as int) ==> (r matches Ok(m) && mesh_read(bytes@, o as int, m)),
        !mesh_chunks_fit(bytes@, o as int) ==> r == Err::<Md3MeshParts, Md3LoadError>(
            Md3LoadError::UnexpectedEof,
        ),
{
    let len = bytes.len();
    let num_frames = read_u32_le(bytes, o + 72);
    let num_shaders = read_u32_le(bytes, o + 76);
    let num_vertices = read_u32_le(bytes, o + 80);
    let num_triangles = read_u32_le(bytes, o + 84);
    let lump_triangles = read_u32_le(bytes, o + 88);
    let lump_shaders = read_u32_le(bytes, o + 92);
    let lump_texcoords = read_u32_le(bytes, o + 96);
    let lump_framevertices = read_u32_le(bytes, o + 100);
    assert((num_vertices as int) * (num_frames as int) <= 0xffff_ffff * 0xffff_ffff) by (nonlinear_arith)
        requires
            num_vertices <= 0xffff_ffff,
            num_frames <= 0xffff_ffff,
    ;
    let vertex_count: u64 = ((num_vertices as u64) * (num_frames as u64)) % 0x1_0000_0000;
    let base = o as u64;
    if !part_fits(len, base, lump_triangles, 12 * (num_triangles as u64)) || !part_fits(
        len,
        base,
        lump_texcoords,
        8 * (num_vertices as u64),
    ) || !part_fits(len, base, lump_framevertices, 8 * vertex_count) || !part_fits(
        len,
        base,
        lump_shaders,
        MD3_SHADER_SIZE * (num_shaders as u64),
    ) {
        return Err(Md3LoadError::UnexpectedEof);
    }
    let triangles = if num_triangles == 0 {
        Vec::new()
    } else {
        read_triangles(bytes, o + lump_triangles as usize, num_triangles as usize)
    };
    let tex_coords = if num_vertices == 0 {
        Vec::new()
    } else {
        read_word_pairs(bytes, o + lump_texcoords as usize, num_vertices as usize)
    };
    let vertices = if vertex_count == 0 {
        Vec::new()
    } else {
        read_vertices(bytes, o + lump_framevertices as usize, vertex_count as usize)
    };
    Ok(Md3MeshParts { num_frames, triangles, tex_coords, vertices })
}

/// Reads an MD3 model file: the header must be whole, start with `IDP3` and have version 15; the
/// frame records and tags it names must lie within the file; then, from the meshes offset on, each
/// mesh header in turn (up to the mesh count, stopping where no whole mesh header is left, passing
/// over a mesh without the identifier) and the parts it names, which must lie within the file.
pub fn load_md3_parts(bytes: &Vec<u8>) -> (r: Result<Vec<Md3MeshParts>, Md3LoadError>)
    ensures
        match md3_header_error(bytes@) {
            Some(e) => r == Err::<Vec<Md3MeshParts>, Md3LoadError>(e),
            None => if md3_parts_fit(bytes@) {
                r matches Ok(ms) && meshes_read(bytes@, u32_le(bytes@, 100) as int, u32_le(bytes@, 84) as nat, ms@)
            } else {
                r == Err::<Vec<Md3MeshParts>, Md3LoadError>(Md3LoadError::UnexpectedEof)
            },
        },
{
    let len = bytes.len();
    if len < MD3_HEADER_SIZE {
        return Err(Md3LoadError::NoHeader);
    }
    if !(bytes[0] == 73 && bytes[1] == 68 && bytes[2] == 80 && bytes[3] == 51) {
        return Err(Md3LoadError::NotMd3);
    }
    let version = read_u32_le(bytes, 4);
    if version != MD3_VERSION {
        return Err(Md3LoadError::WrongVersion(version));
    }
    let num_frames = read_u32_le(bytes, 76);
    let num_tags = read_u32_le(bytes, 80);
    let num_meshes = read_u32_le(bytes, 84);
    let lump_frameinfo = read_u32_le(bytes, 92);
    let lump_tags = read_u32_le(bytes, 96);
    let lump_meshes = read_u32_le(bytes, 100);
    if !chunk_in_file(len, lump_frameinfo as u64, MD3_FRAME_SIZE * (num_frames as u64)) {
        return Err(Md3LoadError::UnexpectedEof);
    }
    if !chunk_in_file(len, lump_tags as u64, MD3_TAG_SIZE * (num_tags as u64)) {
        return Err(Md3LoadError::UnexpectedEof);
    }
    let ghost o0 = lump_meshes as int;
    let ghost n = num_meshes as nat;
    let mut meshes: Vec<Md3MeshParts> = Vec::new();
    let mut o: u64 = lump_meshes as u64;
    let mut k: u32 = 0;
    while k < num_meshes
        invariant
            len == bytes@.len(),
            md3_header_error(bytes@) is None,
            chunk_fits(len as int, u32_le(bytes@, 92) as int, 56 * u32_le(bytes@, 76)),
            chunk_fits(len as int, u32_le(bytes@, 96) as int, 112 * u32_le(bytes@, 80)),
            o0 == u32_le(bytes@, 100),
            n == u32_le(bytes@, 84),
            k <= num_meshes,
            n == num_meshes,
            meshes_fit(bytes@, o0, n) == meshes_fit(bytes@, o as int, (n - k) as nat),
            forall|rest: Seq<Md3MeshParts>|
                #[trigger] meshes_read(bytes@, o as int, (n - k) as nat, rest) ==> meshes_read(
                    bytes@,
                    o0,
                    n,
                    meshes@ + rest,
                ),
        decreases num_meshes - k,
    {
        if o > (len - MD3_MESH_HEADER_SIZE) as u64 {
            assert forall|rest: Seq<Md3MeshParts>| #[trigger] meshes_read(bytes@, o as int, 0, rest) implies meshes_read(
                bytes@,
                o0,
                n,
                meshes@ + rest,
            ) by {
                assert(meshes_read(bytes@, o as int, (n - k) as nat, rest));
            }
            k = num_meshes;
        } else {
            let at = o as usize;
            let lump_end = read_u32_le(bytes, at + 104);
            let ghost next = o + lump_end;
            let ghost rem = (n - k) as nat;
            assert(next == next_mesh(bytes@, o as int));
            if bytes[at] == 73 && bytes[at + 1] == 68 && bytes[at + 2] == 80 && bytes[at + 3] == 51 {
                assert(md3_ident_at(bytes@, o as int));
                match load_md3_mesh(bytes, at) {
                    Ok(m) => {
                        let ghost before = meshes@;
                        meshes.push(m);
                        assert forall|rest: Seq<Md3MeshParts>| #[trigger] meshes_read(
                            bytes@,
                            next as int,
                            (rem - 1) as nat,
                            rest,
                        ) implies meshes_read(bytes@, o0, n, meshes@ + rest) by {
                            let whole = seq![m] + rest;
                            assert(whole.drop_first() =~= rest);
                            assert(whole[0] == m);
                            assert(meshes_read(bytes@, o as int, rem, whole));
                            assert(before + whole =~= meshes@ + rest);
                        }
                    },
                    Err(e) => {
                        assert(!meshes_fit(bytes@, o as int, rem));
                        return Err(e);
                    },
                }
            } else {
                assert forall|rest: Seq<Md3MeshParts>| #[trigger] meshes_read(
                    bytes@,
                    next as int,
                    (rem - 1) as nat,
                    rest,
                ) implies meshes_read(bytes@, o0, n, meshes@ + rest) by {
                    assert(meshes_read(bytes@, o as int, rem, rest));
                }
            }
            match o.checked_add(lump_end as u64) {
                Some(p) => {
                    o = p;
                    k = k + 1;
                },
                None => {
                    assert forall|rest: Seq<Md3MeshParts>| #[trigger] meshes_read(bytes@, o as int, 0, rest) implies meshes_read(
                        bytes@,
                        o0,
                        n,
                        meshes@ + rest,
                    ) by {
                        assert(meshes_read(bytes@, next, (rem - 1) as nat, rest));
                    }
                    assert(meshes_fit(bytes@, next, (rem - 1) as nat));
                    k = num_meshes;
                },
            }
        }
    }
    assert(meshes_read(bytes@, o as int, 0, Seq::<Md3MeshParts>::empty()));
    assert(meshes@ + Seq::<Md3MeshParts>::empty() =~= meshes@);
    Ok(meshes)
}

} // verus!
