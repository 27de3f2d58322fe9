use vstd::prelude::*;
use vstd::utf8::{decode_utf8, valid_utf8};

verus! {

/// Size of the IQM file header in bytes.
pub const IQM_HEADER_SIZE: usize = 124;

/// The magic text an IQM file starts with.
pub open spec fn iqm_magic() -> Seq<u8> {
    seq![73u8, 78, 84, 69, 82, 81, 85, 65, 75, 69, 77, 79, 68, 69, 76, 0]
}

pub const IQM_VERSION: u32 = 2;
pub const IQM_UBYTE: u32 = 1;
pub const IQM_FLOAT: u32 = 7;
pub const IQM_POSITION: u32 = 0;
pub const IQM_TEXCOORD: u32 = 1;
pub const IQM_NORMAL: u32 = 2;
pub const IQM_TANGENT: u32 = 3;
pub const IQM_BLENDINDEXES: u32 = 4;
pub const IQM_BLENDWEIGHTS: u32 = 5;
pub const IQM_LOOP: u32 = 1;

/// Little-endian 32-bit value at `offset`.
pub open spec fn u32_le(bytes: Seq<u8>, offset: int) -> u32 {
    (bytes[offset] as int + bytes[offset + 1] as int * 256 + bytes[offset + 2] as int * 65536 + bytes[offset + 3] as int
        * 16777216) as u32
}

/// The fields of the IQM header after the magic, in file order.
#[derive(Copy, Clone)]
pub struct IqmHeader {
    pub magic: [u8; 16],
    pub version: u32,
    pub filesize: u32,
    pub flags: u32,
    pub num_text: u32,
    pub ofs_text: u32,
    pub num_meshes: u32,
    pub ofs_meshes: u32,
    pub num_vertexarrays: u32,
    pub num_vertexes: u32,
    pub ofs_vertexarrays: u32,
    pub num_triangles: u32,
    pub ofs_triangles: u32,
    pub ofs_adjacency: u32,
    pub num_joints: u32,
    pub ofs_joints: u32,
    pub num_poses: u32,
    pub ofs_poses: u32,
    pub num_anims: u32,
    pub ofs_anims: u32,
    pub num_frames: u32,
    pub num_framechannels: u32,
    pub ofs_frames: u32,
    pub ofs_bounds: u32,
    pub num_comment: u32,
    pub ofs_comment: u32,
    pub num_extensions: u32,
    pub ofs_extensions: u32,
}

/// Why a model file is refused.
#[derive(Copy, Clone, PartialEq, Eq, Structural)]
pub enum IqmHeaderError {
    /// The file is shorter than the header.
    NoHeader,
    /// The file does not start with the IQM magic.
    NotIqm,
    /// The file has another format version (the one it has).
    WrongVersion(u32),
    /// The model has no meshes.
    NoMeshes,
    /// Joint and pose counts differ.
    JointsPosesMismatch(u32, u32),
}

/// Reading a part of the file failed: it lies past the end of the file.
#[derive(Copy, Clone, PartialEq, Eq, Structural)]
pub enum IqmReadError {
    UnexpectedEof,
}

/// The header field number `k` (0 = version) read from the file bytes.
pub open spec fn header_field(bytes: Seq<u8>, k: int) -> u32 {
    u32_le(bytes, 16 + 4 * k)
}

/// `h` holds the header read from the first bytes of the file.
pub open spec fn header_read(bytes: Seq<u8>, h: IqmHeader) -> bool {
    &&& h.magic@ == bytes.take(16)
    &&& h.version == header_field(bytes, 0)
    &&& h.filesize == header_field(bytes, 1)
    &&& h.flags == header_field(bytes, 2)
    &&& h.num_text == header_field(bytes, 3)
    &&& h.ofs_text == header_field(bytes, 4)
    &&& h.num_meshes == header_field(bytes, 5)
    &&& h.ofs_meshes == header_field(bytes, 6)
    &&& h.num_vertexarrays == header_field(bytes, 7)
    &&& h.num_vertexes == header_field(bytes, 8)
    &&& h.ofs_vertexarrays == header_field(bytes, 9)
    &&& h.num_triangles == header_field(bytes, 10)
    &&& h.ofs_triangles == header_field(bytes, 11)
    &&& h.ofs_adjacency == header_field(bytes, 12)
    &&& h.num_joints == header_field(bytes, 13)
    &&& h.ofs_joints == header_field(bytes, 14)
    &&& h.num_poses == header_field(bytes, 15)
    &&& h.ofs_poses == header_field(bytes, 16)
    &&& h.num_anims == header_field(bytes, 17)
    &&& h.ofs_anims == header_field(bytes, 18)
    &&& h.num_frames == header_field(bytes, 19)
    &&& h.num_framechannels == header_field(bytes, 20)
    &&& h.ofs_frames == header_field(bytes, 21)
    &&& h.ofs_bounds == header_field(bytes, 22)
    &&& h.num_comment == header_field(bytes, 23)
    &&& h.ofs_comment == header_field(bytes, 24)
    &&& h.num_extensions == header_field(bytes, 25)
    &&& h.ofs_extensions == header_field(bytes, 26)
}

/// Reads the little-endian 32-bit value at `offset`.
pub fn read_u32_le(bytes: &Vec<u8>, offset: usize) -> (r: u32)
    requires
        offset + 4 <= bytes@.len(),
    ensures
        r == u32_le(bytes@, offset as int),
{
    let len = bytes.len();
    assert(offset + 4 <= len);
    let b0 = bytes[offset] as u32;
    let b1 = bytes[offset + 1] as u32;
    let b2 = bytes[offset + 2] as u32;
    let b3 = bytes[offset + 3] as u32;
    assert(b0 | (b1 << 8u32) | (b2 << 16u32) | (b3 << 24u32) == b0 + b1 * 256 + b2 * 65536 + b3 * 16777216) by (bit_vector)
        requires
            b0 < 256,
            b1 < 256,
            b2 < 256,
            b3 < 256,
    ;
    b0 | (b1 << 8u32) | (b2 << 16u32) | (b3 << 24u32)
}

/// What is wrong with the header of the file, checked in this order; `None` for a usable header.
pub open spec fn header_error(bytes: Seq<u8>) -> Option<IqmHeaderError> {
    if bytes.len() < IQM_HEADER_SIZE {
        Some(IqmHeaderError::NoHeader)
    } else if bytes.take(16) != iqm_magic() {
        Some(IqmHeaderError::NotIqm)
    } else if header_field(bytes, 0) != IQM_VERSION {
        Some(IqmHeaderError::WrongVersion(header_field(bytes, 0)))
    } else if header_field(bytes, 5) == 0 {
        Some(IqmHeaderError::NoMeshes)
    } else if header_field(bytes, 13) != header_field(bytes, 15) {
        Some(IqmHeaderError::JointsPosesMismatch(header_field(bytes, 13), header_field(bytes, 15)))
    } else {
        None
    }
}

/// Reads and checks the header: the file must hold a whole header with the IQM
/// magic, format version 2, at least one mesh and as many poses as joints.
pub fn parse_iqm_header(bytes: &Vec<u8>) -> (r: Result<IqmHeader, IqmHeaderError>)
    ensures
        match header_error(bytes@) {
            Some(e) => r == Err::<IqmHeader, IqmHeaderError>(e),
            None => r matches Ok(h) && header_read(bytes@, h),
        },
{
    if bytes.len() < IQM_HEADER_SIZE {
        return Err(IqmHeaderError::NoHeader);
    }
    let magic: [u8; 16] = [
        bytes[0], bytes[1], bytes[2], bytes[3], bytes[4], bytes[5], bytes[6], bytes[7],
        bytes[8], bytes[9], bytes[10], bytes[11], bytes[12], bytes[13], bytes[14], bytes[15],
    ];
    assert(magic@ =~= bytes@.take(16));
    let expected: [u8; 16] = [73, 78, 84, 69, 82, 81, 85, 65, 75, 69, 77, 79, 68, 69, 76, 0];
    assert(expected@ =~= iqm_magic());
    let mut k: usize = 0;
    while k < 16
        invariant
            k <= 16,
            bytes@.len() >= IQM_HEADER_SIZE,
            magic@ == bytes@.take(16),
            expected@ == iqm_magic(),
            forall|t: int| 0 <= t < k ==> magic@[t] == expected@[t],
        decreases 16 - k,
    {
        if magic[k] != expected[k] {
            assert(bytes@.take(16)[k as int] != iqm_magic()[k as int]);
            return Err(IqmHeaderError::NotIqm);
        }
        k = k + 1;
    }
    assert(magic@ =~= expected@);
    let h = IqmHeader {
        magic,
        version: read_u32_le(bytes, 16),
        filesize: read_u32_le(bytes, 20),
        flags: read_u32_le(bytes, 24),
        num_text: read_u32_le(bytes, 28),
        ofs_text: read_u32_le(bytes, 32),
        num_meshes: read_u32_le(bytes, 36),
        ofs_meshes: read_u32_le(bytes, 40),
        num_vertexarrays: read_u32_le(bytes, 44),
        num_vertexes: read_u32_le(bytes, 48),
        ofs_vertexarrays: read_u32_le(bytes, 52),
        num_triangles: read_u32_le(bytes, 56),
        ofs_triangles: read_u32_le(bytes, 60),
        ofs_adjacency: read_u32_le(bytes, 64),
        num_joints: read_u32_le(bytes, 68),
        ofs_joints: read_u32_le(bytes, 72),
        num_poses: read_u32_le(bytes, 76),
        ofs_poses: read_u32_le(bytes, 80),
        num_anims: read_u32_le(bytes, 84),
        ofs_anims: read_u32_le(bytes, 88),
        num_frames: read_u32_le(bytes, 92),
        num_framechannels: read_u32_le(bytes, 96),
        ofs_frames: read_u32_le(bytes, 100),
        ofs_bounds: read_u32_le(bytes, 104),
        num_comment: read_u32_le(bytes, 108),
        ofs_comment: read_u32_le(bytes, 112),
        num_extensions: read_u32_le(bytes, 116),
        ofs_extensions: read_u32_le(bytes, 120),
    };
    if h.version != IQM_VERSION {
        return Err(IqmHeaderError::WrongVersion(h.version));
    }
    if h.num_meshes == 0 {
        return Err(IqmHeaderError::NoMeshes);
    }
    if h.num_joints != h.num_poses {
        return Err(IqmHeaderError::JointsPosesMismatch(h.num_joints, h.num_poses));
    }
    Ok(h)
}

} // verus!

verus! {

/// A part of `size` bytes at `offset` can be read: it is empty or lies within the file.
pub open spec fn chunk_fits(len: int, offset: int, size: int) -> bool {
    size == 0 || offset + size <= len
}

/// `v` holds the `count` little-endian 32-bit values at `offset`.
pub open spec fn words_read(bytes: Seq<u8>, offset: int, count: int, v: Seq<u32>) -> bool {
    &&& v.len() == count
    &&& forall|k: int| 0 <= k < count ==> #[trigger] v[k] == u32_le(bytes, offset + 4 * k)
}

pub open spec fn texts_fit(bytes: Seq<u8>, h: IqmHeader) -> bool {
    chunk_fits(bytes.len() as int, h.ofs_text as int, h.num_text as int)
}

/// `t` is the text block.
pub open spec fn texts_read(bytes: Seq<u8>, h: IqmHeader, t: Seq<u8>) -> bool {
    &&& t.len() == h.num_text
    &&& forall|k: int| 0 <= k < h.num_text ==> #[trigger] t[k] == bytes[h.ofs_text + k]
}

pub open spec fn meshes_fit(bytes: Seq<u8>, h: IqmHeader) -> bool {
    chunk_fits(bytes.len() as int, h.ofs_meshes as int, 24 * h.num_meshes)
}

/// `m` holds the mesh records, six words each.
pub open spec fn meshes_read(bytes: Seq<u8>, h: IqmHeader, m: Seq<IqmMesh>) -> bool {
    &&& m.len() == h.num_meshes
    &&& forall|k: int|
        0 <= k < h.num_meshes ==> {
            let base = h.ofs_meshes + 24 * k;
            &&& (#[trigger] m[k]).name == u32_le(bytes, base)
            &&& m[k].material == u32_le(bytes, base + 4)
            &&& m[k].first_vertex == u32_le(bytes, base + 8)
            &&& m[k].num_vertexes == u32_le(bytes, base + 12)
            &&& m[k].first_triangle == u32_le(bytes, base + 16)
            &&& m[k].num_triangles == u32_le(bytes, base + 20)
        }
}

pub open spec fn triangles_fit(bytes: Seq<u8>, h: IqmHeader) -> bool {
    chunk_fits(bytes.len() as int, h.ofs_triangles as int, 12 * h.num_triangles)
}

/// `t` holds the triangles, three words each, every index cut to 16 bits.
pub open spec fn triangles_read(bytes: Seq<u8>, h: IqmHeader, t: Seq<[u16; 3]>) -> bool {
    &&& t.len() == h.num_triangles
    &&& forall|k: int, c: int|
        0 <= k < h.num_triangles && 0 <= c < 3 ==> #[trigger] t[k][c] == u32_le(
            bytes,
            h.ofs_triangles + 12 * k + 4 * c,
        ) as u16
}

pub open spec fn vertex_arrays_fit(bytes: Seq<u8>, h: IqmHeader) -> bool {
    chunk_fits(bytes.len() as int, h.ofs_vertexarrays as int, 20 * h.num_vertexarrays)
}

/// `a` holds the vertex array records, five words each.
pub open spec fn vertex_arrays_read(bytes: Seq<u8>, h: IqmHeader, a: Seq<IqmVertexArray>) -> bool {
    &&& a.len() == h.num_vertexarrays
    &&& forall|k: int|
        0 <= k < h.num_vertexarrays ==> {
            let base = h.ofs_vertexarrays + 20 * k;
            &&& (#[trigger] a[k]).type_ == u32_le(bytes, base)
            &&& a[k].flags == u32_le(bytes, base + 4)
            &&& a[k].format == u32_le(bytes, base + 8)
            &&& a[k].size == u32_le(bytes, base + 12)
            &&& a[k].offset == u32_le(bytes, base + 16)
        }
}

/// Reads `count` little-endian 32-bit values at `offset`; fails when they do not lie within the file.
pub fn read_u32_values(bytes: &Vec<u8>, offset: u32, count: u64) -> (r: Result<Vec<u32>, IqmReadError>)
    ensures
        chunk_fits(bytes@.len() as int, offset as int, 4 * count) ==> (r matches Ok(v) && words_read(
            bytes@,
            offset as int,
            count as int,
            v@,
        )),
        !chunk_fits(bytes@.len() as int, offset as int, 4 * count) ==> r == Err::<Vec<u32>, IqmReadError>(
            IqmReadError::UnexpectedEof,
        ),
{
    let len = bytes.len();
    if count == 0 {
        return Ok(Vec::new());
    }
    if offset as usize > len || count > ((len - offset as usize) as u64) / 4 {
        return Err(IqmReadError::UnexpectedEof);
    }
    let mut v: Vec<u32> = Vec::new();
    let mut k: u64 = 0;
    while k < count
        invariant
            len == bytes@.len(),
            offset + 4 * count <= len,
            k <= count,
            v@.len() == k,
            forall|t: int| 0 <= t < k ==> #[trigger] v@[t] == u32_le(bytes@, offset + 4 * t),
        decreases count - k,
    {
        let at = offset as usize + 4 * (k as usize);
        v.push(read_u32_le(bytes, at));
        k = k + 1;
    }
    Ok(v)
}

/// A mesh record: names (text offsets) and ranges of vertices and triangles.
#[derive(Copy, Clone, PartialEq, Eq, Structural)]
pub struct IqmMesh {
    pub name: u32,
    pub material: u32,
    pub first_vertex: u32,
    pub num_vertexes: u32,
    pub first_triangle: u32,
    pub num_triangles: u32,
}

/// A vertex array record: what it holds, in which format, where.
#[derive(Copy, Clone, PartialEq, Eq, Structural)]
pub struct IqmVertexArray {
    pub type_: u32,
    pub flags: u32,
    pub format: u32,
    pub size: u32,
    pub offset: u32,
}

/// Bone influence on a vertex.
#[derive(Copy, Clone, PartialEq, Eq, Structural)]
pub struct VertexBoneDescription {
    pub bone_index: u8,
    pub weight: u8,
}

/// A bone: its name and the index of its parent (an invalid index for a root).
pub struct TriangleModelBoneInfo {
    pub name: String,
    pub parent: u32,
}

/// The text block of the file.
pub fn load_texts(bytes: &Vec<u8>, header: &IqmHeader) -> (r: Result<Vec<u8>, IqmReadError>)
    ensures
        texts_fit(bytes@, *header) ==> (r matches Ok(t) && texts_read(bytes@, *header, t@)),
        !texts_fit(bytes@, *header) ==> r == Err::<Vec<u8>, IqmReadError>(IqmReadError::UnexpectedEof),
{
    let len = bytes.len();
    if header.num_text == 0 {
        return Ok(Vec::new());
    }
    if (header.ofs_text as u64) + (header.num_text as u64) > len as u64 {
        return Err(IqmReadError::UnexpectedEof);
    }
    let start = header.ofs_text as usize;
    let end = start + header.num_text as usize;
    let mut t: Vec<u8> = Vec::new();
    let mut i = start;
    while i < end
        invariant
            start <= i <= end <= bytes@.len(),
            start == header.ofs_text,
            end == start + header.num_text,
            t@.len() == i - start,
            forall|k: int| 0 <= k < i - start ==> #[trigger] t@[k] == bytes@[start + k],
        decreases end - i,
    {
        t.push(bytes[i]);
        i = i + 1;
    }
    Ok(t)
}

/// Mesh records.
pub fn load_meshes(bytes: &Vec<u8>, header: &IqmHeader) -> (r: Result<Vec<IqmMesh>, IqmReadError>)
    ensures
        meshes_fit(bytes@, *header) ==> (r matches Ok(m) && meshes_read(bytes@, *header, m@)),
        !meshes_fit(bytes@, *header) ==> r == Err::<Vec<IqmMesh>, IqmReadError>(IqmReadError::UnexpectedEof),
{
    let values = read_u32_values(bytes, header.ofs_meshes, 6 * (header.num_meshes as u64))?;
    let mut m: Vec<IqmMesh> = Vec::new();
    let mut k: usize = 0;
    let n = header.num_meshes as usize;
    let vl = values.len();
    while k < n
        invariant
            n == header.num_meshes,
            vl == values@.len(),
            values@.len() == 6 * n,
            k <= n,
            m@.len() == k,
            forall|t: int| 0 <= t < 6 * n ==> #[trigger] values@[t] == u32_le(bytes@, header.ofs_meshes + 4 * t),
            forall|j: int|
                0 <= j < k ==> {
                    let base = header.ofs_meshes + 24 * j;
                    &&& (#[trigger] m@[j]).name == u32_le(bytes@, base)
                    &&& m@[j].material == u32_le(bytes@, base + 4)
                    &&& m@[j].first_vertex == u32_le(bytes@, base + 8)
                    &&& m@[j].num_vertexes == u32_le(bytes@, base + 12)
                    &&& m@[j].first_triangle == u32_le(bytes@, base + 16)
                    &&& m@[j].num_triangles == u32_le(bytes@, base + 20)
                },
        decreases n - k,
    {
        let b = 6 * k;
        assert(values@[b as int] == u32_le(bytes@, header.ofs_meshes + 4 * b));
        assert(values@[b + 1] == u32_le(bytes@, header.ofs_meshes + 4 * (b + 1)));
        assert(values@[b + 2] == u32_le(bytes@, header.ofs_meshes + 4 * (b + 2)));
        assert(values@[b + 3] == u32_le(bytes@, header.ofs_meshes + 4 * (b + 3)));
        assert(values@[b + 4] == u32_le(bytes@, header.ofs_meshes + 4 * (b + 4)));
        assert(values@[b + 5] == u32_le(bytes@, header.ofs_meshes + 4 * (b + 5)));
        m.push(
            IqmMesh {
                name: values[b],
                material: values[b + 1],
                first_vertex: values[b + 2],
                num_vertexes: values[b + 3],
                first_triangle: values[b + 4],
                num_triangles: values[b + 5],
            },
        );
        k = k + 1;
    }
    Ok(m)
}

} // verus!

verus! {

/// Triangles, each vertex index cut to the 16-bit index type of the renderer.
pub fn load_triangles(bytes: &Vec<u8>, header: &IqmHeader) -> (r: Result<Vec<[u16; 3]>, IqmReadError>)
    ensures
        triangles_fit(bytes@, *header) ==> (r matches Ok(t) && triangles_read(bytes@, *header, t@)),
        !triangles_fit(bytes@, *header) ==> r == Err::<Vec<[u16; 3]>, IqmReadError>(IqmReadError::UnexpectedEof),
{
    let values = read_u32_values(bytes, header.ofs_triangles, 3 * (header.num_triangles as u64))?;
    let mut t: Vec<[u16; 3]> = Vec::new();
    let n = header.num_triangles as usize;
    let vl = values.len();
    let mut k: usize = 0;
    while k < n
        invariant
            n == header.num_triangles,
            vl == values@.len(),
            values@.len() == 3 * n,
            k <= n,
            t@.len() == k,
            forall|i: int| 0 <= i < 3 * n ==> #[trigger] values@[i] == u32_le(bytes@, header.ofs_triangles + 4 * i),
            forall|j: int, c: int|
                0 <= j < k && 0 <= c < 3 ==> #[trigger] t@[j][c] == u32_le(
                    bytes@,
                    header.ofs_triangles + 12 * j + 4 * c,
                ) as u16,
        decreases n - k,
    {
        let b = 3 * k;
        assert(values@[b as int] == u32_le(bytes@, header.ofs_triangles + 4 * b));
        assert(values@[b + 1] == u32_le(bytes@, header.ofs_triangles + 4 * (b + 1)));
        assert(values@[b + 2] == u32_le(bytes@, header.ofs_triangles + 4 * (b + 2)));
        let tri: [u16; 3] = [values[b] as u16, values[b + 1] as u16, values[b + 2] as u16];
        t.push(tri);
        proof {
            assert forall|j: int, c: int| 0 <= j < k + 1 && 0 <= c < 3 implies #[trigger] t@[j][c] == u32_le(
                bytes@,
                header.ofs_triangles + 12 * j + 4 * c,
            ) as u16 by {
                if j == k {
                    assert(t@[j] == tri);
                    if c == 0 {
                    } else if c == 1 {
                    } else {
                    }
                }
            }
        }
        k = k + 1;
    }
    Ok(t)
}

/// Vertex array records.
pub fn load_vertex_arrays(bytes: &Vec<u8>, header: &IqmHeader) -> (r: Result<Vec<IqmVertexArray>, IqmReadError>)
    ensures
        vertex_arrays_fit(bytes@, *header) ==> (r matches Ok(a) && vertex_arrays_read(bytes@, *header, a@)),
        !vertex_arrays_fit(bytes@, *header) ==> r == Err::<Vec<IqmVertexArray>, IqmReadError>(
            IqmReadError::UnexpectedEof,
        ),
{
    let values = read_u32_values(bytes, header.ofs_vertexarrays, 5 * (header.num_vertexarrays as u64))?;
    let mut a: Vec<IqmVertexArray> = Vec::new();
    let n = header.num_vertexarrays as usize;
    let vl = values.len();
    let mut k: usize = 0;
    while k < n
        invariant
            n == header.num_vertexarrays,
            vl == values@.len(),
            values@.len() == 5 * n,
            k <= n,
            a@.len() == k,
            forall|i: int| 0 <= i < 5 * n ==> #[trigger] values@[i] == u32_le(bytes@, header.ofs_vertexarrays + 4 * i),
            forall|j: int|
                0 <= j < k ==> {
                    let base = header.ofs_vertexarrays + 20 * j;
                    &&& (#[trigger] a@[j]).type_ == u32_le(bytes@, base)
                    &&& a@[j].flags == u32_le(bytes@, base + 4)
                    &&& a@[j].format == u32_le(bytes@, base + 8)
                    &&& a@[j].size == u32_le(bytes@, base + 12)
                    &&& a@[j].offset == u32_le(bytes@, base + 16)
                },
        decreases n - k,
    {
        let b = 5 * k;
        assert(values@[b as int] == u32_le(bytes@, header.ofs_vertexarrays + 4 * b));
        assert(values@[b + 1] == u32_le(bytes@, header.ofs_vertexarrays + 4 * (b + 1)));
        assert(values@[b + 2] == u32_le(bytes@, header.ofs_vertexarrays + 4 * (b + 2)));
        assert(values@[b + 3] == u32_le(bytes@, header.ofs_vertexarrays + 4 * (b + 3)));
        assert(values@[b + 4] == u32_le(bytes@, header.ofs_vertexarrays + 4 * (b + 4)));
        a.push(
            IqmVertexArray {
                type_: values[b],
                flags: values[b + 1],
                format: values[b + 2],
                size: values[b + 3],
                offset: values[b + 4],
            },
        );
        k = k + 1;
    }
    Ok(a)
}

/// The array holds the attribute `type_` with `size` components of format `format`.
pub open spec fn array_matches(a: IqmVertexArray, type_: u32, size: u32, format: u32) -> bool {
    a.type_ == type_ && a.size == size && a.format == format
}

/// Index of the last array among the first `n` that matches, or -1: later arrays overwrite earlier ones.
pub open spec fn last_matching(arrays: Seq<IqmVertexArray>, n: int, type_: u32, size: u32, format: u32) -> int
    decreases n,
{
    if n <= 0 {
        -1
    } else if array_matches(arrays[n - 1], type_, size, format) {
        n - 1
    } else {
        last_matching(arrays, n - 1, type_, size, format)
    }
}

/// Every matching array among the first `n` has its `elem_bytes * count` bytes within the file.
pub open spec fn matching_arrays_fit(
    len: int,
    arrays: Seq<IqmVertexArray>,
    n: int,
    type_: u32,
    size: u32,
    format: u32,
    chunk: int,
) -> bool {
    forall|j: int|
        0 <= j < n && #[trigger] array_matches(arrays[j], type_, size, format) ==> chunk_fits(
            len,
            arrays[j].offset as int,
            chunk,
        )
}

pub open spec fn attribute_words_fit(bytes: Seq<u8>, arrays: Seq<IqmVertexArray>, nv: u32, type_: u32, size: u32) -> bool {
    matching_arrays_fit(bytes.len() as int, arrays, arrays.len() as int, type_, size, IQM_FLOAT, 4 * (size * nv))
}

/// `w` holds `size` words per vertex from the last float array of the attribute, zeros where there is none.
pub open spec fn attribute_words(
    bytes: Seq<u8>,
    arrays: Seq<IqmVertexArray>,
    nv: u32,
    type_: u32,
    size: u32,
    w: Seq<u32>,
) -> bool {
    let last = last_matching(arrays, arrays.len() as int, type_, size, IQM_FLOAT);
    &&& w.len() == size * nv
    &&& forall|k: int|
        0 <= k < size * nv ==> #[trigger] w[k] == if last >= 0 {
            u32_le(bytes, arrays[last].offset + 4 * k)
        } else {
            0u32
        }
}

pub open spec fn attribute_bytes_fit(bytes: Seq<u8>, arrays: Seq<IqmVertexArray>, nv: u32, type_: u32) -> bool {
    matching_arrays_fit(bytes.len() as int, arrays, arrays.len() as int, type_, 4, IQM_UBYTE, 4 * nv)
}

/// `w` holds four bytes per vertex from the last unsigned-byte array of the attribute, zeros where there is none.
pub open spec fn attribute_bytes(bytes: Seq<u8>, arrays: Seq<IqmVertexArray>, nv: u32, type_: u32, w: Seq<u8>) -> bool {
    let last = last_matching(arrays, arrays.len() as int, type_, 4, IQM_UBYTE);
    &&& w.len() == 4 * nv
    &&& forall|k: int|
        0 <= k < 4 * nv ==> #[trigger] w[k] == if last >= 0 {
            bytes[arrays[last].offset + k]
        } else {
            0u8
        }
}

/// Float attribute `type_` of `size` components per vertex, kept as the raw little-endian words:
/// the last matching float array gives the words, zeros where none matches.
pub fn load_vertex_attribute_words(
    bytes: &Vec<u8>,
    arrays: &Vec<IqmVertexArray>,
    num_vertexes: u32,
    type_: u32,
    size: u32,
) -> (r: Result<Vec<u32>, IqmReadError>)
    requires
        1 <= size <= 4,
    ensures
        attribute_words_fit(bytes@, arrays@, num_vertexes, type_, size) ==> (r matches Ok(w) && attribute_words(
            bytes@,
            arrays@,
            num_vertexes,
            type_,
            size,
            w@,
        )),
        !attribute_words_fit(bytes@, arrays@, num_vertexes, type_, size) ==> r == Err::<Vec<u32>, IqmReadError>(
            IqmReadError::UnexpectedEof,
        ),
{
    assert((size as int) * (num_vertexes as int) <= 4 * 4294967295) by (nonlinear_arith)
        requires
            size <= 4,
            num_vertexes <= 4294967295,
    ;
    let count: u64 = (size as u64) * (num_vertexes as u64);
    let mut w: Vec<u32> = Vec::new();
    let mut z: u64 = 0;
    while z < count
        invariant
            z <= count,
            w@.len() == z,
            forall|k: int| 0 <= k < z ==> #[trigger] w@[k] == 0u32,
        decreases count - z,
    {
        w.push(0);
        z = z + 1;
    }
    let mut i: usize = 0;
    while i < arrays.len()
        invariant
            i <= arrays@.len(),
            count == size * num_vertexes,
            w@.len() == count,
            matching_arrays_fit(bytes@.len() as int, arrays@, i as int, type_, size, IQM_FLOAT, 4 * count),
            forall|k: int|
                0 <= k < count ==> #[trigger] w@[k] == if last_matching(arrays@, i as int, type_, size, IQM_FLOAT) >= 0 {
                    u32_le(bytes@, arrays@[last_matching(arrays@, i as int, type_, size, IQM_FLOAT)].offset + 4 * k)
                } else {
                    0u32
                },
        decreases arrays@.len() - i,
    {
        let a = arrays[i];
        if a.type_ == type_ && a.size == size && a.format == IQM_FLOAT {
            match read_u32_values(bytes, a.offset, count) {
                Ok(values) => {
                    w = values;
                },
                Err(e) => {
                    assert(!matching_arrays_fit(bytes@.len() as int, arrays@, arrays@.len() as int, type_, size, IQM_FLOAT, 4 * count)) by {
                        assert(array_matches(arrays@[i as int], type_, size, IQM_FLOAT));
                    }
                    return Err(e);
                },
            }
        }
        i = i + 1;
    }
    assert(arrays@.len() == i);
    Ok(w)
}

/// Byte attribute `type_` with four unsigned bytes per vertex: the last matching array gives the bytes,
/// zeros where none matches.
pub fn load_vertex_attribute_bytes(bytes: &Vec<u8>, arrays: &Vec<IqmVertexArray>, num_vertexes: u32, type_: u32) -> (r:
    Result<Vec<u8>, IqmReadError>)
    ensures
        attribute_bytes_fit(bytes@, arrays@, num_vertexes, type_) ==> (r matches Ok(w) && attribute_bytes(
            bytes@,
            arrays@,
            num_vertexes,
            type_,
            w@,
        )),
        !attribute_bytes_fit(bytes@, arrays@, num_vertexes, type_) ==> r == Err::<Vec<u8>, IqmReadError>(
            IqmReadError::UnexpectedEof,
        ),
{
    let count: u64 = 4 * (num_vertexes as u64);
    let len = bytes.len();
    let mut w: Vec<u8> = Vec::new();
    let mut z: u64 = 0;
    while z < count
        invariant
            z <= count,
            w@.len() == z,
            forall|k: int| 0 <= k < z ==> #[trigger] w@[k] == 0u8,
        decreases count - z,
    {
        w.push(0);
        z = z + 1;
    }
    let mut i: usize = 0;
    while i < arrays.len()
        invariant
            i <= arrays@.len(),
            len == bytes@.len(),
            count == 4 * num_vertexes,
            w@.len() == count,
            matching_arrays_fit(len as int, arrays@, i as int, type_, 4, IQM_UBYTE, count as int),
            forall|k: int|
                0 <= k < count ==> #[trigger] w@[k] == if last_matching(arrays@, i as int, type_, 4, IQM_UBYTE) >= 0 {
                    bytes@[arrays@[last_matching(arrays@, i as int, type_, 4, IQM_UBYTE)].offset + k]
                } else {
                    0u8
                },
        decreases arrays@.len() - i,
    {
        let a = arrays[i];
        if a.type_ == type_ && a.size == 4 && a.format == IQM_UBYTE {
            if count > 0 && (a.offset as usize > len || count > (len - a.offset as usize) as u64) {
                assert(!matching_arrays_fit(len as int, arrays@, arrays@.len() as int, type_, 4, IQM_UBYTE, count as int)) by {
                    assert(array_matches(arrays@[i as int], type_, 4, IQM_UBYTE));
                }
                return Err(IqmReadError::UnexpectedEof);
            }
            let mut v: Vec<u8> = Vec::new();
            let mut k: u64 = 0;
            while k < count
                invariant
                    k <= count,
                    len == bytes@.len(),
                    count > 0 ==> a.offset + count <= len,
                    v@.len() == k,
                    forall|t: int| 0 <= t < k ==> #[trigger] v@[t] == bytes@[a.offset + t],
                decreases count - k,
            {
                v.push(bytes[a.offset as usize + k as usize]);
                k = k + 1;
            }
            w = v;
        }
        i = i + 1;
    }
    assert(arrays@.len() == i);
    Ok(w)
}

} // verus!

verus! {

/// Why loading a model file failed.
#[derive(Copy, Clone, PartialEq, Eq, Structural)]
pub enum IqmLoadError {
    /// The header is refused.
    Header(IqmHeaderError),
    /// A part lies past the end of the file.
    Read(IqmReadError),
}

/// Everything the loader takes from the file. Float data stays as raw little-endian words:
/// `positions` and `normals` hold three words per vertex, `tex_coords` two, `bounds` eight per frame,
/// `joints` twelve per joint (name, parent, translation, rotation, scale), `poses` twenty-two per pose
/// (parent, channel mask, ten channel offsets, ten channel scales) and `anims` five per animation
/// (name, first frame, frame count, frame rate, flags).
pub struct IqmParts {
    pub header: IqmHeader,
    pub texts: Vec<u8>,
    pub meshes: Vec<IqmMesh>,
    pub triangles: Vec<[u16; 3]>,
    pub positions: Vec<u32>,
    pub tex_coords: Vec<u32>,
    pub normals: Vec<u32>,
    pub blend_indexes: Vec<u8>,
    pub blend_weights: Vec<u8>,
    pub bounds: Vec<u32>,
    pub joints: Vec<u32>,
    pub poses: Vec<u32>,
    pub anims: Vec<u32>,
}

pub const IQM_JOINT_WORDS: u32 = 12;
pub const IQM_POSE_WORDS: u32 = 22;
pub const IQM_ANIM_WORDS: u32 = 5;
pub const IQM_BOUNDS_WORDS: u32 = 8;

/// The vertex array records of a file whose vertex array block fits.
pub open spec fn vertex_arrays_of(bytes: Seq<u8>, h: IqmHeader) -> Seq<IqmVertexArray> {
    Seq::new(
        h.num_vertexarrays as nat,
        |k: int|
            {
                let base = h.ofs_vertexarrays + 20 * k;
                IqmVertexArray {
                    type_: u32_le(bytes, base),
                    flags: u32_le(bytes, base + 4),
                    format: u32_le(bytes, base + 8),
                    size: u32_le(bytes, base + 12),
                    offset: u32_le(bytes, base + 16),
                }
            },
    )
}

/// Every part of the file that the loader reads lies within it.
pub open spec fn parts_fit(bytes: Seq<u8>, h: IqmHeader) -> bool {
    let len = bytes.len() as int;
    let arrays = vertex_arrays_of(bytes, h);
    &&& texts_fit(bytes, h)
    &&& meshes_fit(bytes, h)
    &&& triangles_fit(bytes, h)
    &&& vertex_arrays_fit(bytes, h)
    &&& attribute_words_fit(bytes, arrays, h.num_vertexes, IQM_POSITION, 3)
    &&& attribute_words_fit(bytes, arrays, h.num_vertexes, IQM_TEXCOORD, 2)
    &&& attribute_words_fit(bytes, arrays, h.num_vertexes, IQM_NORMAL, 3)
    &&& attribute_bytes_fit(bytes, arrays, h.num_vertexes, IQM_BLENDINDEXES)
    &&& attribute_bytes_fit(bytes, arrays, h.num_vertexes, IQM_BLENDWEIGHTS)
    &&& chunk_fits(len, h.ofs_bounds as int, 4 * (IQM_BOUNDS_WORDS * h.num_frames))
    &&& chunk_fits(len, h.ofs_joints as int, 4 * (IQM_JOINT_WORDS * h.num_joints))
    &&& chunk_fits(len, h.ofs_poses as int, 4 * (IQM_POSE_WORDS * h.num_poses))
    &&& chunk_fits(len, h.ofs_anims as int, 4 * (IQM_ANIM_WORDS * h.num_anims))
}

/// `p` holds the parts of the file as the loader reads them.
pub open spec fn parts_read(bytes: Seq<u8>, p: IqmParts) -> bool {
    let h = p.header;
    let arrays = vertex_arrays_of(bytes, h);
    &&& header_read(bytes, h)
    &&& texts_read(bytes, h, p.texts@)
    &&& meshes_read(bytes, h, p.meshes@)
    &&& triangles_read(bytes, h, p.triangles@)
    &&& attribute_words(bytes, arrays, h.num_vertexes, IQM_POSITION, 3, p.positions@)
    &&& attribute_words(bytes, arrays, h.num_vertexes, IQM_TEXCOORD, 2, p.tex_coords@)
    &&& attribute_words(bytes, arrays, h.num_vertexes, IQM_NORMAL, 3, p.normals@)
    &&& attribute_bytes(bytes, arrays, h.num_vertexes, IQM_BLENDINDEXES, p.blend_indexes@)
    &&& attribute_bytes(bytes, arrays, h.num_vertexes, IQM_BLENDWEIGHTS, p.blend_weights@)
    &&& words_read(bytes, h.ofs_bounds as int, IQM_BOUNDS_WORDS * h.num_frames, p.bounds@)
    &&& words_read(bytes, h.ofs_joints as int, IQM_JOINT_WORDS * h.num_joints, p.joints@)
    &&& words_read(bytes, h.ofs_poses as int, IQM_POSE_WORDS * h.num_poses, p.poses@)
    &&& words_read(bytes, h.ofs_anims as int, IQM_ANIM_WORDS * h.num_anims, p.anims@)
}

/// Reads a whole model file: the header is checked first, then every part is read; the first
/// refusal is returned.
pub fn load_iqm_parts(bytes: &Vec<u8>) -> (r: Result<IqmParts, IqmLoadError>)
    ensures
        header_error(bytes@) matches Some(e) ==> r == Err::<IqmParts, IqmLoadError>(IqmLoadError::Header(e)),
        header_error(bytes@) is None ==> {
            &&& r matches Ok(p) ==> parts_read(bytes@, p) && parts_fit(bytes@, p.header)
            &&& r is Err ==> r == Err::<IqmParts, IqmLoadError>(IqmLoadError::Read(IqmReadError::UnexpectedEof))
            &&& forall|h: IqmHeader| #[trigger] header_read(bytes@, h) ==> (r is Ok <==> parts_fit(bytes@, h))
        },
{
    let header = match parse_iqm_header(bytes) {
        Ok(h) => h,
        Err(e) => {
            return Err(IqmLoadError::Header(e));
        },
    };
    proof {
        assert forall|h: IqmHeader| #[trigger] header_read(bytes@, h) implies parts_fit(bytes@, h) == parts_fit(
            bytes@,
            header,
        ) by {
            assert(h.num_vertexarrays == header.num_vertexarrays);
        }
    }
    let texts = match load_texts(bytes, &header) {
        Ok(t) => t,
        Err(e) => {
            return Err(IqmLoadError::Read(e));
        },
    };
    let meshes = match load_meshes(bytes, &header) {
        Ok(m) => m,
        Err(e) => {
            return Err(IqmLoadError::Read(e));
        },
    };
    let triangles = match load_triangles(bytes, &header) {
        Ok(t) => t,
        Err(e) => {
            return Err(IqmLoadError::Read(e));
        },
    };
    let arrays = match load_vertex_arrays(bytes, &header) {
        Ok(a) => a,
        Err(e) => {
            return Err(IqmLoadError::Read(e));
        },
    };
    assert(arrays@ =~= vertex_arrays_of(bytes@, header));
    let nv = header.num_vertexes;
    let positions = match load_vertex_attribute_words(bytes, &arrays, nv, IQM_POSITION, 3) {
        Ok(w) => w,
        Err(e) => {
            return Err(IqmLoadError::Read(e));
        },
    };
    let tex_coords = match load_vertex_attribute_words(bytes, &arrays, nv, IQM_TEXCOORD, 2) {
        Ok(w) => w,
        Err(e) => {
            return Err(IqmLoadError::Read(e));
        },
    };
    let normals = match load_vertex_attribute_words(bytes, &arrays, nv, IQM_NORMAL, 3) {
        Ok(w) => w,
        Err(e) => {
            return Err(IqmLoadError::Read(e));
        },
    };
    let blend_indexes = match load_vertex_attribute_bytes(bytes, &arrays, nv, IQM_BLENDINDEXES) {
        Ok(w) => w,
        Err(e) => {
            return Err(IqmLoadError::Read(e));
        },
    };
    let blend_weights = match load_vertex_attribute_bytes(bytes, &arrays, nv, IQM_BLENDWEIGHTS) {
        Ok(w) => w,
        Err(e) => {
            return Err(IqmLoadError::Read(e));
        },
    };
    let bounds = match read_u32_values(bytes, header.ofs_bounds, (IQM_BOUNDS_WORDS as u64) * (header.num_frames as u64)) {
        Ok(w) => w,
        Err(e) => {
            return Err(IqmLoadError::Read(e));
        },
    };
    let joints = match read_u32_values(bytes, header.ofs_joints, (IQM_JOINT_WORDS as u64) * (header.num_joints as u64)) {
        Ok(w) => w,
        Err(e) => {
            return Err(IqmLoadError::Read(e));
        },
    };
    let poses = match read_u32_values(bytes, header.ofs_poses, (IQM_POSE_WORDS as u64) * (header.num_poses as u64)) {
        Ok(w) => w,
        Err(e) => {
            return Err(IqmLoadError::Read(e));
        },
    };
    let anims = match read_u32_values(bytes, header.ofs_anims, (IQM_ANIM_WORDS as u64) * (header.num_anims as u64)) {
        Ok(w) => w,
        Err(e) => {
            return Err(IqmLoadError::Read(e));
        },
    };
    Ok(
        IqmParts {
            header,
            texts,
            meshes,
            triangles,
            positions,
            tex_coords,
            normals,
            blend_indexes,
            blend_weights,
            bounds,
            joints,
            poses,
            anims,
        },
    )
}

} // verus!

verus! {

/// End of the zero-terminated text at `start`: the first zero byte at or after it, or the end of the block.
pub open spec fn text_end(texts: Seq<u8>, start: int) -> int
    decreases texts.len() - start,
{
    if start >= texts.len() || texts[start] == 0 {
        start
    } else {
        text_end(texts, start + 1)
    }
}

/// The name stored at `offset`: its bytes up to the terminator, decoded as UTF-8; empty where they
/// are not valid UTF-8.
pub open spec fn text_at(texts: Seq<u8>, offset: int) -> Seq<char> {
    let bytes = texts.subrange(offset, text_end(texts, offset));
    if valid_utf8(bytes) {
        decode_utf8(bytes)
    } else {
        Seq::empty()
    }
}

/// `std::str::from_utf8`, the text copied into a `String`: some text exactly where the bytes are valid
/// UTF-8, holding the characters they encode.
#[verifier::external_body]
fn text_from_utf8(bytes: &[u8]) -> (r: Option<String>)
    ensures
        r is Some <==> valid_utf8(bytes@),
        r matches Some(s) ==> s@ == decode_utf8(bytes@),
{
    match std::str::from_utf8(bytes) {
        Ok(s) => Some(s.to_string()),
        Err(_) => None,
    }
}

/// The zero-terminated name at `offset` of the text block.
pub fn get_text_str(texts: &Vec<u8>, offset: u32) -> (r: String)
    requires
        offset <= texts@.len(),
    ensures
        r@ == text_at(texts@, offset as int),
{
    let start = offset as usize;
    let mut end = start;
    while end < texts.len() && texts[end] != 0
        invariant
            start <= end <= texts@.len(),
            text_end(texts@, start as int) == text_end(texts@, end as int),
        decreases texts@.len() - end,
    {
        end = end + 1;
    }
    let slice = vstd::slice::slice_subrange(texts.as_slice(), start, end);
    match text_from_utf8(slice) {
        Some(s) => s,
        None => String::new(),
    }
}

/// Every name offset that the model uses lies within the text block, and there is a mesh.
pub open spec fn text_offsets_valid(p: IqmParts) -> bool {
    let len = p.texts@.len();
    &&& p.meshes@.len() > 0
    &&& p.meshes@[0].name <= len
    &&& p.meshes@[0].material <= len
    &&& p.joints@.len() == IQM_JOINT_WORDS * p.header.num_joints
    &&& p.anims@.len() == IQM_ANIM_WORDS * p.header.num_anims
    &&& forall|k: int| 0 <= k < p.header.num_joints ==> #[trigger] p.joints@[IQM_JOINT_WORDS * k] <= len
    &&& forall|k: int| 0 <= k < p.header.num_anims ==> #[trigger] p.anims@[IQM_ANIM_WORDS * k] <= len
}

/// Tells whether every name offset that the model uses lies within the text block.
pub fn check_text_offsets(p: &IqmParts) -> (r: bool)
    ensures
        r == text_offsets_valid(*p),
{
    let len = p.texts.len();
    if p.meshes.len() == 0 || p.meshes[0].name as usize > len || p.meshes[0].material as usize > len {
        return false;
    }
    let nj = p.header.num_joints as u64;
    let na = p.header.num_anims as u64;
    if p.joints.len() as u64 != 12 * nj || p.anims.len() as u64 != 5 * na {
        return false;
    }
    let jl = p.joints.len();
    let mut k: usize = 0;
    while (k as u64) < nj
        invariant
            jl == p.joints@.len(),
            len == p.texts@.len(),
            nj == p.header.num_joints,
            p.joints@.len() == 12 * nj,
            k <= nj,
            forall|t: int| 0 <= t < k ==> #[trigger] p.joints@[IQM_JOINT_WORDS * t] <= len,
        decreases nj - k,
    {
        if p.joints[12 * k] as usize > len {
            return false;
        }
        k = k + 1;
    }
    let al = p.anims.len();
    let mut k: usize = 0;
    while (k as u64) < na
        invariant
            al == p.anims@.len(),
            len == p.texts@.len(),
            na == p.header.num_anims,
            p.anims@.len() == 5 * na,
            k <= na,
            forall|t: int| 0 <= t < k ==> #[trigger] p.anims@[IQM_ANIM_WORDS * t] <= len,
        decreases na - k,
    {
        if p.anims[5 * k] as usize > len {
            return false;
        }
        k = k + 1;
    }
    true
}

/// The bones of the model: each joint's name and parent index.
pub fn model_bones(p: &IqmParts) -> (r: Vec<TriangleModelBoneInfo>)
    requires
        text_offsets_valid(*p),
    ensures
        r@.len() == p.header.num_joints,
        forall|k: int|
            0 <= k < p.header.num_joints ==> (#[trigger] r@[k]).name@ == text_at(
                p.texts@,
                p.joints@[IQM_JOINT_WORDS * k] as int,
            ) && r@[k].parent == p.joints@[IQM_JOINT_WORDS * k + 1],
{
    let n = p.header.num_joints as usize;
    let mut r: Vec<TriangleModelBoneInfo> = Vec::new();
    let jl = p.joints.len();
    let mut k: usize = 0;
    while k < n
        invariant
            jl == p.joints@.len(),
            n == p.header.num_joints,
            text_offsets_valid(*p),
            k <= n,
            r@.len() == k,
            forall|j: int|
                0 <= j < k ==> (#[trigger] r@[j]).name@ == text_at(p.texts@, p.joints@[IQM_JOINT_WORDS * j] as int)
                    && r@[j].parent == p.joints@[IQM_JOINT_WORDS * j + 1],
        decreases n - k,
    {
        assert(p.joints@[IQM_JOINT_WORDS * k] <= p.texts@.len());
        let name = get_text_str(&p.texts, p.joints[12 * k]);
        r.push(TriangleModelBoneInfo { name, parent: p.joints[12 * k + 1] });
        k = k + 1;
    }
    r
}

/// An animation of the model; its frame rate stays the raw word of the file.
pub struct IqmAnimation {
    pub name: String,
    pub first_frame: u32,
    pub num_frames: u32,
    pub framerate_word: u32,
    pub looped: bool,
}

/// The animations of the model, looped where the loop flag is set.
pub fn model_animations(p: &IqmParts) -> (r: Vec<IqmAnimation>)
    requires
        text_offsets_valid(*p),
    ensures
        r@.len() == p.header.num_anims,
        forall|k: int|
            0 <= k < p.header.num_anims ==> {
                let base = IQM_ANIM_WORDS * k;
                &&& (#[trigger] r@[k]).name@ == text_at(p.texts@, p.anims@[base] as int)
                &&& r@[k].first_frame == p.anims@[base + 1]
                &&& r@[k].num_frames == p.anims@[base + 2]
                &&& r@[k].framerate_word == p.anims@[base + 3]
                &&& r@[k].looped == (p.anims@[base + 4] & IQM_LOOP != 0)
            },
{
    let n = p.header.num_anims as usize;
    let mut r: Vec<IqmAnimation> = Vec::new();
    let al = p.anims.len();
    let mut k: usize = 0;
    while k < n
        invariant
            al == p.anims@.len(),
            n == p.header.num_anims,
            text_offsets_valid(*p),
            k <= n,
            r@.len() == k,
            forall|j: int|
                0 <= j < k ==> {
                    let base = IQM_ANIM_WORDS * j;
                    &&& (#[trigger] r@[j]).name@ == text_at(p.texts@, p.anims@[base] as int)
                    &&& r@[j].first_frame == p.anims@[base + 1]
                    &&& r@[j].num_frames == p.anims@[base + 2]
                    &&& r@[j].framerate_word == p.anims@[base + 3]
                    &&& r@[j].looped == (p.anims@[base + 4] & IQM_LOOP != 0)
                },
        decreases n - k,
    {
        let b = 5 * k;
        assert(p.anims@[IQM_ANIM_WORDS * k] <= p.texts@.len());
        let name = get_text_str(&p.texts, p.anims[b]);
        r.push(
            IqmAnimation {
                name,
                first_frame: p.anims[b + 1],
                num_frames: p.anims[b + 2],
                framerate_word: p.anims[b + 3],
                looped: (p.anims[b + 4] & IQM_LOOP) != 0,
            },
        );
        k = k + 1;
    }
    r
}

/// Name and material name of the first mesh, the one the renderer uses.
pub fn first_mesh_names(p: &IqmParts) -> (r: (String, String))
    requires
        text_offsets_valid(*p),
    ensures
        r.0@ == text_at(p.texts@, p.meshes@[0].name as int),
        r.1@ == text_at(p.texts@, p.meshes@[0].material as int),
{
    (get_text_str(&p.texts, p.meshes[0].name), get_text_str(&p.texts, p.meshes[0].material))
}

/// The bone influences of each vertex: the four blend indexes paired with the four blend weights.
pub fn vertex_bones(p: &IqmParts) -> (r: Vec<[VertexBoneDescription; 4]>)
    requires
        p.blend_indexes@.len() == 4 * p.header.num_vertexes,
        p.blend_weights@.len() == 4 * p.header.num_vertexes,
    ensures
        r@.len() == p.header.num_vertexes,
        forall|k: int, c: int|
            0 <= k < p.header.num_vertexes && 0 <= c < 4 ==> (#[trigger] r@[k][c]).bone_index == p.blend_indexes@[4 * k
                + c] && r@[k][c].weight == p.blend_weights@[4 * k + c],
{
    let n = p.header.num_vertexes as usize;
    let mut r: Vec<[VertexBoneDescription; 4]> = Vec::new();
    let il = p.blend_indexes.len();
    let mut k: usize = 0;
    while k < n
        invariant
            il == p.blend_indexes@.len(),
            n == p.header.num_vertexes,
            p.blend_indexes@.len() == 4 * n,
            p.blend_weights@.len() == 4 * n,
            k <= n,
            r@.len() == k,
            forall|j: int, c: int|
                0 <= j < k && 0 <= c < 4 ==> (#[trigger] r@[j][c]).bone_index == p.blend_indexes@[4 * j + c]
                    && r@[j][c].weight == p.blend_weights@[4 * j + c],
        decreases n - k,
    {
        let b = 4 * k;
        let d: [VertexBoneDescription; 4] = [
            VertexBoneDescription { bone_index: p.blend_indexes[b], weight: p.blend_weights[b] },
            VertexBoneDescription { bone_index: p.blend_indexes[b + 1], weight: p.blend_weights[b + 1] },
            VertexBoneDescription { bone_index: p.blend_indexes[b + 2], weight: p.blend_weights[b + 2] },
            VertexBoneDescription { bone_index: p.blend_indexes[b + 3], weight: p.blend_weights[b + 3] },
        ];
        r.push(d);
        proof {
            assert forall|j: int, c: int| 0 <= j < k + 1 && 0 <= c < 4 implies (#[trigger] r@[j][c]).bone_index
                == p.blend_indexes@[4 * j + c] && r@[j][c].weight == p.blend_weights@[4 * j + c] by {
                if j == k {
                    assert(r@[j] == d);
                    if c == 0 {
                    } else if c == 1 {
                    } else if c == 2 {
                    } else {
                    }
                }
            }
        }
        k = k + 1;
    }
    r
}

} // verus!

verus! {

/// Channels of a pose: three translation, four rotation, three scale.
pub const IQM_POSE_CHANNELS: u32 = 10;

/// The channel `c` of a pose is animated: its bit is set in the channel mask.
pub open spec fn channel_animated(mask: u32, c: int) -> bool {
    (mask >> (c as u32)) & 1 == 1
}

/// Animated channels of the mask among channels `0..c`.
pub open spec fn animated_before(mask: u32, c: int) -> int
    decreases c,
{
    if c <= 0 {
        0
    } else {
        animated_before(mask, c - 1) + if channel_animated(mask, c - 1) { 1int } else { 0 }
    }
}

/// Animated channels of the poses `0..p`.
pub open spec fn pose_channels_before(masks: Seq<u32>, p: int) -> int
    decreases p,
{
    if p <= 0 {
        0
    } else {
        pose_channels_before(masks, p - 1) + animated_before(masks[p - 1], IQM_POSE_CHANNELS as int)
    }
}

/// Little-endian 16-bit value at `offset`.
pub open spec fn u16_le(bytes: Seq<u8>, offset: int) -> u16 {
    (bytes[offset] as int + bytes[offset + 1] as int * 256) as u16
}

/// Number of 16-bit values of frame data, which runs from `ofs_frames` to the end of the file.
pub open spec fn frame_words(len: int, ofs_frames: int) -> int {
    if ofs_frames >= len {
        0
    } else {
        (len - ofs_frames) / 2
    }
}

/// Index in the frame data of channel `c` of pose `p` in frame `f`: frames follow one another, and
/// within a frame the animated channels of each pose, in pose order.
pub open spec fn channel_word_index(masks: Seq<u32>, f: int, p: int, c: int) -> int {
    f * pose_channels_before(masks, masks.len() as int) + pose_channels_before(masks, p) + animated_before(masks[p], c)
}

proof fn lemma_animated_before_bounds(mask: u32, c: int)
    requires
        0 <= c,
    ensures
        0 <= animated_before(mask, c) <= c,
    decreases c,
{
    if c > 0 {
        lemma_animated_before_bounds(mask, c - 1);
    }
}

proof fn lemma_pose_channels_monotone(masks: Seq<u32>, p: int, q: int)
    requires
        0 <= p <= q <= masks.len(),
    ensures
        0 <= pose_channels_before(masks, p) <= pose_channels_before(masks, q),
        pose_channels_before(masks, q) <= 10 * q,
    decreases q,
{
    if q > 0 {
        lemma_animated_before_bounds(masks[q - 1], 10);
        if p < q {
            lemma_pose_channels_monotone(masks, p, q - 1);
        } else {
            lemma_pose_channels_monotone(masks, q - 1, q - 1);
        }
    }
}

/// Reads the little-endian 16-bit value at `offset`.
pub(crate) fn read_u16_le(bytes: &Vec<u8>, offset: usize) -> (r: u16)
    requires
        offset + 2 <= bytes@.len(),
    ensures
        r == u16_le(bytes@, offset as int),
{
    let len = bytes.len();
    let b0 = bytes[offset] as u16;
    let b1 = bytes[offset + 1] as u16;
    assert(b0 | (b1 << 8u16) == b0 + b1 * 256) by (bit_vector)
        requires
            b0 < 256,
            b1 < 256,
    ;
    b0 | (b1 << 8u16)
}

/// The raw channel values of every pose in every frame (frame after frame, pose after pose): the
/// value of each animated channel, in order, from the frame data; zero for channels that are not
/// animated. `None` where the frame data holds too few values.
pub fn frame_channel_values(bytes: &Vec<u8>, ofs_frames: u32, num_frames: u32, masks: &Vec<u32>) -> (r: Option<
    Vec<[u16; 10]>,
>)
    requires
        masks@.len() <= u32::MAX,
    ensures
        match r {
            Some(v) => {
                &&& num_frames * pose_channels_before(masks@, masks@.len() as int) <= frame_words(
                    bytes@.len() as int,
                    ofs_frames as int,
                )
                &&& v@.len() == num_frames * masks@.len()
                &&& forall|f: int, p: int, c: int|
                    0 <= f < num_frames && 0 <= p < masks@.len() && 0 <= c < 10 ==> #[trigger] v@[f * masks@.len()
                        + p][c] == if channel_animated(masks@[p], c) {
                        u16_le(bytes@, ofs_frames + 2 * channel_word_index(masks@, f, p, c))
                    } else {
                        0u16
                    }
            },
            None => num_frames * pose_channels_before(masks@, masks@.len() as int) > frame_words(
                bytes@.len() as int,
                ofs_frames as int,
            ),
        },
{
    let len = bytes.len();
    let np = masks.len();
    let available: u64 = if ofs_frames as usize >= len {
        0
    } else {
        ((len - ofs_frames as usize) / 2) as u64
    };
    let mut per_frame: u64 = 0;
    let mut p: usize = 0;
    while p < np
        invariant
            np == masks@.len(),
            np <= u32::MAX,
            p <= np,
            per_frame == pose_channels_before(masks@, p as int),
            per_frame <= 10 * p,
        decreases np - p,
    {
        let m = masks[p];
        let mut c: u32 = 0;
        let ghost start = per_frame;
        while c < 10
            invariant
                c <= 10,
                m == masks@[p as int],
                per_frame == start + animated_before(m, c as int),
                p < np,
                np <= u32::MAX,
                start == pose_channels_before(masks@, p as int),
                start <= 10 * p,
                per_frame <= start + c,
            decreases 10 - c,
        {
            if (m >> c) & 1 == 1 {
                per_frame = per_frame + 1;
            }
            c = c + 1;
        }
        p = p + 1;
    }
    assert(per_frame == pose_channels_before(masks@, np as int));
    if per_frame > 0 && (num_frames as u64) > available / per_frame {
        assert(num_frames * per_frame > available) by (nonlinear_arith)
            requires
                per_frame > 0,
                num_frames > available / per_frame,
        ;
        return None;
    }
    assert(num_frames * per_frame <= available) by (nonlinear_arith)
        requires
            per_frame > 0 ==> num_frames <= available / per_frame,
    ;
    let mut r: Vec<[u16; 10]> = Vec::new();
    let mut pos: u64 = 0;
    let mut f: u32 = 0;
    while f < num_frames
        invariant
            np == masks@.len(),
            len == bytes@.len(),
            available == frame_words(len as int, ofs_frames as int),
            per_frame == pose_channels_before(masks@, np as int),
            num_frames * per_frame <= available,
            f <= num_frames,
            pos == f * per_frame,
            r@.len() == f * np,
            forall|ff: int, pp: int, cc: int|
                0 <= ff < f && 0 <= pp < np && 0 <= cc < 10 ==> #[trigger] r@[ff * np + pp][cc] == if channel_animated(
                    masks@[pp],
                    cc,
                ) {
                    u16_le(bytes@, ofs_frames + 2 * channel_word_index(masks@, ff, pp, cc))
                } else {
                    0u16
                },
        decreases num_frames - f,
    {
        let mut p: usize = 0;
        while p < np
            invariant
                np == masks@.len(),
                len == bytes@.len(),
                available == frame_words(len as int, ofs_frames as int),
                per_frame == pose_channels_before(masks@, np as int),
                num_frames * per_frame <= available,
                f < num_frames,
                p <= np,
                pos == f * per_frame + pose_channels_before(masks@, p as int),
                r@.len() == f * np + p,
                forall|ff: int, pp: int, cc: int|
                    0 <= ff < f && 0 <= pp < np && 0 <= cc < 10 ==> #[trigger] r@[ff * np + pp][cc] == if channel_animated(
                        masks@[pp],
                        cc,
                    ) {
                        u16_le(bytes@, ofs_frames + 2 * channel_word_index(masks@, ff, pp, cc))
                    } else {
                        0u16
                    },
                forall|pp: int, cc: int|
                    0 <= pp < p && 0 <= cc < 10 ==> #[trigger] r@[f * np + pp][cc] == if channel_animated(
                        masks@[pp],
                        cc,
                    ) {
                        u16_le(bytes@, ofs_frames + 2 * channel_word_index(masks@, f as int, pp, cc))
                    } else {
                        0u16
                    },
            decreases np - p,
        {
            proof {
                lemma_pose_channels_monotone(masks@, p as int + 1, np as int);
                lemma_pose_channels_monotone(masks@, p as int, p as int + 1);
                assert((f + 1) * per_frame <= num_frames * per_frame) by (nonlinear_arith)
                    requires
                        f < num_frames,
                        per_frame >= 0,
                ;
                assert((f + 1) * per_frame == f * per_frame + per_frame) by (nonlinear_arith);
            }
            let m = masks[p];
            let mut values: [u16; 10] = [0; 10];
            let mut c: u32 = 0;
            let ghost pose_start = pos;
            while c < 10
                invariant
                    c <= 10,
                    m == masks@[p as int],
                    p < np,
                    np == masks@.len(),
                    len == bytes@.len(),
                    available == frame_words(len as int, ofs_frames as int),
                    pose_start == f * per_frame + pose_channels_before(masks@, p as int),
                    pose_channels_before(masks@, p as int + 1) <= per_frame,
                    f * per_frame + per_frame <= available,
                    pos == pose_start + animated_before(m, c as int),
                    forall|cc: int| 0 <= cc < c ==> #[trigger] values[cc] == if channel_animated(m, cc) {
                        u16_le(bytes@, ofs_frames + 2 * (pose_start + animated_before(m, cc)))
                    } else {
                        0u16
                    },
                    forall|cc: int| c <= cc < 10 ==> #[trigger] values[cc] == 0u16,
                decreases 10 - c,
            {
                proof {
                    lemma_animated_before_bounds(m, c as int + 1);
                    lemma_animated_before_bounds(m, 10);
                    assert(animated_before(m, 10) >= animated_before(m, c as int + 1)) by {
                        lemma_animated_monotone(m, c as int + 1, 10);
                    }
                }
                if (m >> c) & 1 == 1 {
                    let at = ofs_frames as usize + 2 * (pos as usize);
                    values[c as usize] = read_u16_le(bytes, at);
                    pos = pos + 1;
                }
                c = c + 1;
            }
            r.push(values);
            proof {
                assert forall|pp: int, cc: int|
                    0 <= pp < p + 1 && 0 <= cc < 10 implies #[trigger] r@[f * np + pp][cc] == if channel_animated(
                    masks@[pp],
                    cc,
                ) {
                    u16_le(bytes@, ofs_frames + 2 * channel_word_index(masks@, f as int, pp, cc))
                } else {
                    0u16
                } by {
                    if pp == p {
                        assert(r@[f * np + pp] == values);
                    } else {
                        assert(r@[f * np + pp] == r@.drop_last()[f * np + pp]);
                    }
                }
                assert forall|ff: int, pp: int, cc: int|
                    0 <= ff < f && 0 <= pp < np && 0 <= cc < 10 implies #[trigger] r@[ff * np + pp][cc] == if channel_animated(
                    masks@[pp],
                    cc,
                ) {
                    u16_le(bytes@, ofs_frames + 2 * channel_word_index(masks@, ff, pp, cc))
                } else {
                    0u16
                } by {
                    assert(ff * np + pp < f * np) by (nonlinear_arith)
                        requires
                            0 <= ff < f,
                            0 <= pp < np,
                    ;
                    assert(r@[ff * np + pp] == r@.drop_last()[ff * np + pp]);
                }
            }
            p = p + 1;
        }
        proof {
            assert((f + 1) * np == f * np + np) by (nonlinear_arith);
            assert((f + 1) * per_frame == f * per_frame + per_frame) by (nonlinear_arith);
        }
        f = f + 1;
    }
    Some(r)
}

proof fn lemma_animated_monotone(mask: u32, c: int, d: int)
    requires
        0 <= c <= d,
    ensures
        animated_before(mask, c) <= animated_before(mask, d),
    decreases d - c,
{
    if c < d {
        lemma_animated_monotone(mask, c, d - 1);
    }
}

} // verus!
