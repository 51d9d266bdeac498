//! Voxel payload parsing and face geometry.
//!
//! A voxel asset arrives as the raw bytes of an `.xraw` file.  Parsing
//! follows the fixed binary layout: a four-byte magic, a byte width marker at
//! offset seven, three little-endian 32-bit extents at offsets eight, twelve
//! and sixteen, and the dense voxel payload from offset twenty-four on.

use vstd::arithmetic::div_mod::lemma_fundamental_div_mod_converse;
use vstd::slice::slice_subrange;
use vstd::prelude::*;

use crate::bits::{bits_of, bv_repeat, bv_set};
use crate::node::{
    nb_of, opposite, socket_of, spec_rotate_full, spec_rotate_vert, spec_sockets_match, Direction,
    Neighbors, Node, Socket, SocketKind, Sockets,
};

verus! {

/// Why tile-set construction failed.
#[derive(Debug)]
pub enum TileError {
    /// A voxel file could not be parsed, or its name has no room for the
    /// extension.
    BadVoxelFile { path: String, reason: String },
    /// The files do not form a usable tile set: none were given, or one is
    /// not a cube of the requested edge length.
    BadTileSet { reason: String },
}

/// One voxel file: its file name and its raw bytes.
pub struct VoxFile {
    pub name: String,
    pub bytes: Vec<u8>,
}

/// A dense three-dimensional byte grid in row-major `[w, h, l]` order.
#[derive(Debug)]
pub struct VoxArray {
    pub w: usize,
    pub h: usize,
    pub l: usize,
    pub data: Vec<u8>,
}

impl VoxArray {
    pub open spec fn wf(self) -> bool {
        self.data@.len() == self.w * self.h * self.l
    }
}

/// The little-endian 32-bit value at offset `off` of `b`.
pub open spec fn spec_le32(b: Seq<u8>, off: int) -> int {
    b[off] + b[off + 1] * 0x100 + b[off + 2] * 0x10000 + b[off + 3] * 0x1000000
}

/// The header is well formed and the buffer holds the whole voxel payload.
pub open spec fn spec_xraw_ok(b: Seq<u8>) -> bool {
    &&& b.len() >= 24
    &&& spec_xraw_magic_ok(b)
    &&& b[7] == 8
    &&& b.len() >= 24 + spec_le32(b, 8) * spec_le32(b, 12) * spec_le32(b, 16)
}

/// The first four bytes spell the ASCII magic of the format.
pub open spec fn spec_xraw_magic_ok(b: Seq<u8>) -> bool {
    b[0] == 88 && b[1] == 82 && b[2] == 65 && b[3] == 87
}

/// The voxel payload of a well-formed buffer.
pub open spec fn spec_xraw_payload(b: Seq<u8>) -> Seq<u8> {
    b.subrange(24, 24 + spec_le32(b, 8) * spec_le32(b, 12) * spec_le32(b, 16))
}

/// The little-endian 32-bit value held in the first four bytes of `array`.
pub fn usize_from_bits(array: &[u8]) -> (r: usize)
    requires
        array@.len() >= 4,
    ensures
        r == spec_le32(array@, 0),
        r <= 0xffff_ffff,
{
    let b0 = array[0] as u32;
    let b1 = array[1] as u32;
    let b2 = array[2] as u32;
    let b3 = array[3] as u32;
    (b0 + b1 * 0x100 + b2 * 0x10000 + b3 * 0x1000000) as usize
}

/// Parses one `.xraw` buffer into a voxel array.
///
/// Succeeds exactly on well-formed buffers; the error tells which part of
/// the layout was violated.
pub fn vox_array_from_bytes(bytes: &Vec<u8>) -> (r: Result<VoxArray, String>)
    ensures
        r is Ok <==> spec_xraw_ok(bytes@),
        match r {
            Ok(v) => {
                &&& v.wf()
                &&& v.w == spec_le32(bytes@, 8)
                &&& v.h == spec_le32(bytes@, 12)
                &&& v.l == spec_le32(bytes@, 16)
                &&& v.data@ == spec_xraw_payload(bytes@)
            },
            Err(reason) => {
                ||| (bytes@.len() < 24 && reason@ == "file too short for header"@)
                ||| (bytes@.len() >= 24 && !spec_xraw_magic_ok(bytes@) && reason@
                    == "wrong magic"@)
                ||| (bytes@.len() >= 24 && spec_xraw_magic_ok(bytes@) && bytes@[7] != 8 && reason@
                    == "bits per index is not eight"@)
                ||| (bytes@.len() >= 24 && spec_xraw_magic_ok(bytes@) && bytes@[7] == 8 && bytes@.len()
                    < 24 + spec_le32(bytes@, 8) * spec_le32(bytes@, 12) * spec_le32(bytes@, 16)
                    && reason@ == "file too short for voxel data"@)
            },
        },
{
    if bytes.len() < 24 {
        return Err(String::from_str("file too short for header"));
    }
    if !(bytes[0] == 88 && bytes[1] == 82 && bytes[2] == 65 && bytes[3] == 87) {
        return Err(String::from_str("wrong magic"));
    }
    if bytes[7] != 8 {
        return Err(String::from_str("bits per index is not eight"));
    }
    let w = usize_from_bits(slice_subrange(bytes.as_slice(), 8, 12));
    let h = usize_from_bits(slice_subrange(bytes.as_slice(), 12, 16));
    let l = usize_from_bits(slice_subrange(bytes.as_slice(), 16, 20));
    assert(w == spec_le32(bytes@, 8) && h == spec_le32(bytes@, 12) && l == spec_le32(bytes@, 16));
    assert((w as u128) * (h as u128) <= 0xffff_ffff_ffff_ffff) by (nonlinear_arith)
        requires
            w <= 0xffff_ffff && h <= 0xffff_ffff,
    ;
    assert((w as u128) * (h as u128) * (l as u128) <= 0xffff_ffff_ffff_ffff_ffff_ffff)
        by (nonlinear_arith)
        requires
            (w as u128) * (h as u128) <= 0xffff_ffff_ffff_ffff && l <= 0xffff_ffff,
    ;
    let total: u128 = (w as u128) * (h as u128) * (l as u128);
    if (bytes.len() as u128) < 24 + total {
        return Err(String::from_str("file too short for voxel data"));
    }
    let count = (total as usize);
    let blen = bytes.len();
    let mut data: Vec<u8> = Vec::new();
    let mut k: usize = 0;
    while k < count
        invariant
            count == spec_le32(bytes@, 8) * spec_le32(bytes@, 12) * spec_le32(bytes@, 16),
            blen == bytes@.len(),
            blen >= 24 + count,
            k <= count,
            data@.len() == k,
            forall|i: int| 0 <= i < k ==> data@[i] == bytes@[24 + i],
        decreases count - k,
    {
        assert(24 + k < bytes@.len());
        data.push(bytes[24 + k]);
        k += 1;
    }
    assert(data@ =~= spec_xraw_payload(bytes@));
    let v = VoxArray { w, h, l, data };
    assert(v.wf());
    Ok(v)
}

/// A square face slice of edge length `n`, row-major.
pub struct Face {
    pub n: usize,
    pub bytes: Vec<u8>,
}

impl Face {
    pub open spec fn wf(self) -> bool {
        self.bytes@.len() == self.n * self.n && self.n >= 1
    }
}

/// The face with its rows reversed along the last axis.
pub open spec fn spec_mirror(n: int, s: Seq<u8>) -> Seq<u8> {
    Seq::new(s.len(), |k: int| s[(k / n) * n + (n - 1 - k % n)])
}

/// The face turned a quarter turn: transposed, then reversed along axis 0.
pub open spec fn spec_rot90(n: int, s: Seq<u8>) -> Seq<u8> {
    Seq::new(s.len(), |k: int| s[(k % n) * n + (n - 1 - k / n)])
}

proof fn lemma_rc(n: int, i: int, j: int)
    requires
        n >= 1,
        0 <= i < n,
        0 <= j < n,
    ensures
        0 <= i * n + j < n * n,
        (i * n + j) / n == i,
        (i * n + j) % n == j,
{
    assert(0 <= i * n + j && i * n + j < n * n) by (nonlinear_arith)
        requires
            n >= 1 && 0 <= i < n && 0 <= j < n,
    ;
    lemma_fundamental_div_mod_converse(i * n + j, n, i, j);
}

/// Mirrors a face: reverses every row.
pub fn mirrored_face(face: &Face) -> (r: Face)
    requires
        face.wf(),
    ensures
        r.wf(),
        r.n == face.n,
        r.bytes@ == spec_mirror(face.n as int, face.bytes@),
{
    let n = face.n;
    let total = face.bytes.len();
    let mut out: Vec<u8> = Vec::new();
    let mut i: usize = 0;
    while i < n
        invariant
            face.wf(),
            n == face.n,
            total == n * n,
            i <= n,
            out@.len() == i * n,
            forall|k: int| 0 <= k < out@.len() ==> out@[k] == spec_mirror(n as int, face.bytes@)[k],
        decreases n - i,
    {
        let mut j: usize = 0;
        while j < n
            invariant
                face.wf(),
                n == face.n,
                total == n * n,
                i < n,
                j <= n,
                out@.len() == i * n + j,
                forall|k: int|
                    0 <= k < out@.len() ==> out@[k] == spec_mirror(n as int, face.bytes@)[k],
            decreases n - j,
        {
            proof {
                lemma_rc(n as int, i as int, j as int);
                lemma_rc(n as int, i as int, n - 1 - j as int);
            }
            out.push(face.bytes[i * n + (n - 1 - j)]);
            j += 1;
        }
        i += 1;
        assert((i - 1) * n + n == i * n) by (nonlinear_arith);
    }
    assert(out@.len() == n * n) by (nonlinear_arith)
        requires
            out@.len() == n * n,
    ;
    let r = Face { n, bytes: out };
    assert(r.bytes@ =~= spec_mirror(face.n as int, face.bytes@));
    r
}

/// Turns a face a quarter turn.
pub fn rotated_array_p90(arr: &Face) -> (r: Face)
    requires
        arr.wf(),
    ensures
        r.wf(),
        r.n == arr.n,
        r.bytes@ == spec_rot90(arr.n as int, arr.bytes@),
{
    let n = arr.n;
    let total = arr.bytes.len();
    let mut out: Vec<u8> = Vec::new();
    let mut i: usize = 0;
    while i < n
        invariant
            arr.wf(),
            n == arr.n,
            total == n * n,
            i <= n,
            out@.len() == i * n,
            forall|k: int| 0 <= k < out@.len() ==> out@[k] == spec_rot90(n as int, arr.bytes@)[k],
        decreases n - i,
    {
        let mut j: usize = 0;
        while j < n
            invariant
                arr.wf(),
                n == arr.n,
                total == n * n,
                i < n,
                j <= n,
                out@.len() == i * n + j,
                forall|k: int|
                    0 <= k < out@.len() ==> out@[k] == spec_rot90(n as int, arr.bytes@)[k],
            decreases n - j,
        {
            proof {
                lemma_rc(n as int, i as int, j as int);
                lemma_rc(n as int, j as int, n - 1 - i as int);
            }
            out.push(arr.bytes[j * n + (n - 1 - i)]);
            j += 1;
        }
        i += 1;
        assert((i - 1) * n + n == i * n) by (nonlinear_arith);
    }
    let r = Face { n, bytes: out };
    assert(r.bytes@ =~= spec_rot90(arr.n as int, arr.bytes@));
    r
}

/// Whether socket `a` may face socket `b`.
pub fn socket_matches(a: &Socket, b: &Socket) -> (r: bool)
    ensures
        r == spec_sockets_match(*a, *b),
{
    let fm = (matches!(a.kind, SocketKind::Fem) && matches!(b.kind, SocketKind::Male)) || (matches!(
        a.kind,
        SocketKind::Male,
    ) && matches!(b.kind, SocketKind::Fem));
    if fm && a.serial == b.serial {
        true
    } else {
        *a == *b && !matches!(a.kind, SocketKind::Fem) && !matches!(a.kind, SocketKind::Male)
    }
}

/// Rotates a vertical socket by `rotation` quarter turns into `socket`.
pub fn rotate_vert_socket(original: &Socket, socket: &mut Socket, rotation: u8)
    requires
        original.is_vertical(),
        rotation < 4,
    ensures
        *final(socket) == spec_rotate_vert(*original, rotation as int),
{
    match original.kind {
        SocketKind::VertRot(d) => {
            let mut new_rot = d + rotation;
            if new_rot > 3 {
                new_rot -= 4;
            }
            *socket = Socket { serial: original.serial, kind: SocketKind::VertRot(new_rot) };
        },
        _ => {
            *socket = *original;
        },
    }
}

/// Rotates the four side sockets of `original` by `rotation` quarter turns
/// into `sockets`; the vertical fields of `sockets` are left alone.
pub fn rotate_side_sockets(original: &Sockets, sockets: &mut Sockets, rotation: u8)
    requires
        1 <= rotation <= 3,
    ensures
        final(sockets).px == crate::node::spec_rotate_sides(*original, rotation as int).px,
        final(sockets).nx == crate::node::spec_rotate_sides(*original, rotation as int).nx,
        final(sockets).pz == crate::node::spec_rotate_sides(*original, rotation as int).pz,
        final(sockets).nz == crate::node::spec_rotate_sides(*original, rotation as int).nz,
        final(sockets).py == old(sockets).py,
        final(sockets).ny == old(sockets).ny,
{
    match rotation {
        1 => {
            sockets.px = original.pz;
            sockets.nx = original.nz;
            sockets.pz = original.nx;
            sockets.nz = original.px;
        },
        2 => {
            sockets.px = original.nx;
            sockets.nx = original.px;
            sockets.pz = original.nz;
            sockets.nz = original.pz;
        },
        _ => {
            sockets.px = original.nz;
            sockets.nx = original.pz;
            sockets.pz = original.px;
            sockets.nz = original.nx;
        },
    }
}

/// Byte-for-byte equality of two byte vectors.
pub fn bytes_eq(a: &Vec<u8>, b: &Vec<u8>) -> (r: bool)
    ensures
        r == (a@ == b@),
{
    if a.len() != b.len() {
        assert(a@ != b@);
        return false;
    }
    let mut i: usize = 0;
    while i < a.len()
        invariant
            a@.len() == b@.len(),
            i <= a@.len(),
            forall|k: int| 0 <= k < i ==> a@[k] == b@[k],
        decreases a@.len() - i,
    {
        if a[i] != b[i] {
            return false;
        }
        i += 1;
    }
    assert(a@ =~= b@);
    true
}

/// The key a face registers under: its edge length and its bytes.
pub open spec fn fkey(f: Face) -> (int, Seq<u8>) {
    (f.n as int, f.bytes@)
}

/// A socket map as key/socket pairs, earlier entries shadowing later ones.
pub open spec fn map_view(m: Seq<(Face, Socket)>) -> Seq<((int, Seq<u8>), Socket)> {
    m.map_values(|p: (Face, Socket)| (fkey(p.0), p.1))
}

/// First-match lookup in a socket map.
pub open spec fn sm_lookup(m: Seq<((int, Seq<u8>), Socket)>, k: (int, Seq<u8>)) -> Option<Socket>
    decreases m.len(),
{
    if m.len() == 0 {
        None
    } else if m[0].0 == k {
        Some(m[0].1)
    } else {
        sm_lookup(m.drop_first(), k)
    }
}

proof fn lemma_lookup_advance(m: Seq<((int, Seq<u8>), Socket)>, k: (int, Seq<u8>), i: int)
    requires
        0 <= i <= m.len(),
        forall|e: int| 0 <= e < i ==> (#[trigger] m[e]).0 != k,
    ensures
        sm_lookup(m, k) == sm_lookup(m.skip(i), k),
    decreases i,
{
    if i == 0 {
        assert(m.skip(0) =~= m);
    } else {
        lemma_lookup_advance(m, k, i - 1);
        assert(m.skip(i - 1).len() > 0);
        assert(m.skip(i - 1)[0] == m[i - 1]);
        assert(m[i - 1].0 != k);
        assert(m.skip(i - 1).drop_first() =~= m.skip(i));
    }
}

/// If lookup finds a socket, some entry holds it under that key.
proof fn lemma_lookup_member(m: Seq<((int, Seq<u8>), Socket)>, k: (int, Seq<u8>))
    requires
        sm_lookup(m, k) is Some,
    ensures
        exists|i: int| 0 <= i < m.len() && (#[trigger] m[i]).0 == k && m[i].1 == sm_lookup(
            m,
            k,
        ).unwrap(),
    decreases m.len(),
{
    if m.len() > 0 && m[0].0 != k {
        lemma_lookup_member(m.drop_first(), k);
        let i = choose|i: int|
            0 <= i < m.drop_first().len() && (#[trigger] m.drop_first()[i]).0 == k
                && m.drop_first()[i].1 == sm_lookup(m.drop_first(), k).unwrap();
        assert(m[i + 1] == m.drop_first()[i]);
    }
}

/// Finds the socket registered for a face of edge `n` and the given bytes.
fn map_find(map: &Vec<(Face, Socket)>, n: usize, bytes: &Vec<u8>) -> (r: Option<Socket>)
    ensures
        r == sm_lookup(map_view(map@), (n as int, bytes@)),
{
    let ghost k = (n as int, bytes@);
    let mut idx: usize = 0;
    while idx < map.len()
        invariant
            idx <= map@.len(),
            forall|e: int| 0 <= e < idx ==> (#[trigger] map_view(map@)[e]).0 != k,
            k == (n as int, bytes@),
        decreases map@.len() - idx,
    {
        let entry = &map[idx];
        if entry.0.n == n && bytes_eq(&entry.0.bytes, bytes) {
            proof {
                lemma_lookup_advance(map_view(map@), k, idx as int);
                assert(map_view(map@).skip(idx as int)[0] == map_view(map@)[idx as int]);
            }
            return Some(entry.1);
        }
        assert(map_view(map@)[idx as int].0 != k);
        idx += 1;
    }
    proof {
        lemma_lookup_advance(map_view(map@), k, idx as int);
        assert(map_view(map@).skip(idx as int).len() == 0);
    }
    None
}

/// Registering a side face: an unseen face gets a symmetric socket when it
/// equals its mirror, otherwise its mirror is filed as female and the face
/// itself as male, both under one fresh serial.
pub open spec fn spec_reg_side(m: Seq<((int, Seq<u8>), Socket)>, serial: usize, f: (int, Seq<u8>))
    -> (Seq<((int, Seq<u8>), Socket)>, usize, Socket) {
    match sm_lookup(m, f) {
        Some(s) => (m, serial, s),
        None => {
            let mir = (f.0, spec_mirror(f.0, f.1));
            if mir == f {
                let s = Socket { serial, kind: SocketKind::Sym };
                (m.push((f, s)), ((serial + 1) as usize), s)
            } else {
                let sf = Socket { serial, kind: SocketKind::Fem };
                let sm = Socket { serial, kind: SocketKind::Male };
                (m.push((mir, sf)).push((f, sm)), ((serial + 1) as usize), sm)
            }
        },
    }
}

/// Registering a vertical face: an unseen face whose four quarter turns all
/// agree gets a rotation-invariant socket; otherwise the four turns are filed
/// with their turn indices under one fresh serial and the face's own entry is
/// emitted.
pub open spec fn spec_reg_vert(m: Seq<((int, Seq<u8>), Socket)>, serial: usize, f: (int, Seq<u8>))
    -> (Seq<((int, Seq<u8>), Socket)>, usize, Socket) {
    match sm_lookup(m, f) {
        Some(s) => (m, serial, s),
        None => {
            let n = f.0;
            let r1 = spec_rot90(n, f.1);
            let r2 = spec_rot90(n, r1);
            let r3 = spec_rot90(n, r2);
            if r1 == f.1 && r2 == f.1 && r3 == f.1 {
                let s = Socket { serial, kind: SocketKind::VertInv };
                (m.push((f, s)), ((serial + 1) as usize), s)
            } else {
                let s0 = Socket { serial, kind: SocketKind::VertRot(0) };
                let m2 = m.push((f, s0)).push(((n, r1), Socket { serial, kind: SocketKind::VertRot(1) })).push(
                    ((n, r2), Socket { serial, kind: SocketKind::VertRot(2) }),
                ).push(((n, r3), Socket { serial, kind: SocketKind::VertRot(3) }));
                (m2, ((serial + 1) as usize), s0)
            }
        },
    }
}

/// The slab of a cubic voxel array at `x = c` (vertical faces).
pub open spec fn spec_face_x(n: int, d: Seq<u8>, c: int) -> Seq<u8> {
    Seq::new((n * n) as nat, |k: int| d[(c * n + k / n) * n + k % n])
}

/// The slab at `y = c` (side faces of the first horizontal axis).
pub open spec fn spec_face_y(n: int, d: Seq<u8>, c: int) -> Seq<u8> {
    Seq::new((n * n) as nat, |k: int| d[((k / n) * n + c) * n + k % n])
}

/// The slab at `z = c` (side faces of the second horizontal axis).
pub open spec fn spec_face_z(n: int, d: Seq<u8>, c: int) -> Seq<u8> {
    Seq::new((n * n) as nat, |k: int| d[k * n + c])
}

/// A cube of edge length `n`.
pub open spec fn cube_wf(v: VoxArray, n: int) -> bool {
    v.wf() && v.w == n && v.h == n && v.l == n && n >= 1
}

proof fn lemma_vox_idx(n: int, a: int, b: int, c: int)
    requires
        n >= 1,
        0 <= a < n,
        0 <= b < n,
        0 <= c < n,
    ensures
        0 <= (a * n + b) * n + c < n * n * n,
        a * n + b < n * n,
        n * n <= n * n * n,
{
    assert(0 <= (a * n + b) * n + c < n * n * n && a * n + b < n * n && n * n <= n * n * n)
        by (nonlinear_arith)
        requires
            n >= 1 && 0 <= a < n && 0 <= b < n && 0 <= c < n,
    ;
}

/// Extracts the face slab of a cubic voxel array on the given axis at depth
/// `c`: axis 0 fixes `x`, axis 1 fixes `y`, axis 2 fixes `z`.
pub fn face_slab(v: &VoxArray, axis: usize, c: usize) -> (r: Face)
    requires
        cube_wf(*v, v.w as int),
        axis < 3,
        c < v.w,
    ensures
        r.wf(),
        r.n == v.w,
        axis == 0 ==> r.bytes@ == spec_face_x(v.w as int, v.data@, c as int),
        axis == 1 ==> r.bytes@ == spec_face_y(v.w as int, v.data@, c as int),
        axis == 2 ==> r.bytes@ == spec_face_z(v.w as int, v.data@, c as int),
{
    let n = v.w;
    let total = v.data.len();
    let mut out: Vec<u8> = Vec::new();
    let mut i: usize = 0;
    while i < n
        invariant
            cube_wf(*v, n as int),
            n == v.w,
            total == n * n * n,
            c < n,
            axis < 3,
            i <= n,
            out@.len() == i * n,
            forall|k: int|
                0 <= k < out@.len() ==> out@[k] == (if axis == 0 {
                    spec_face_x(n as int, v.data@, c as int)[k]
                } else if axis == 1 {
                    spec_face_y(n as int, v.data@, c as int)[k]
                } else {
                    spec_face_z(n as int, v.data@, c as int)[k]
                }),
        decreases n - i,
    {
        let mut j: usize = 0;
        while j < n
            invariant
                cube_wf(*v, n as int),
                n == v.w,
                total == n * n * n,
                c < n,
                axis < 3,
                i < n,
                j <= n,
                out@.len() == i * n + j,
                forall|k: int|
                    0 <= k < out@.len() ==> out@[k] == (if axis == 0 {
                        spec_face_x(n as int, v.data@, c as int)[k]
                    } else if axis == 1 {
                        spec_face_y(n as int, v.data@, c as int)[k]
                    } else {
                        spec_face_z(n as int, v.data@, c as int)[k]
                    }),
            decreases n - j,
        {
            proof {
                lemma_rc(n as int, i as int, j as int);
                lemma_vox_idx(n as int, c as int, i as int, j as int);
                lemma_vox_idx(n as int, i as int, c as int, j as int);
                lemma_vox_idx(n as int, i as int, j as int, c as int);
            }
            if axis == 0 {
                out.push(v.data[(c * n + i) * n + j]);
            } else if axis == 1 {
                out.push(v.data[(i * n + c) * n + j]);
            } else {
                out.push(v.data[(i * n + j) * n + c]);
            }
            j += 1;
        }
        i += 1;
        assert((i - 1) * n + n == i * n) by (nonlinear_arith);
    }
    let r = Face { n, bytes: out };
    proof {
        if axis == 0 {
            assert(r.bytes@ =~= spec_face_x(n as int, v.data@, c as int));
        } else if axis == 1 {
            assert(r.bytes@ =~= spec_face_y(n as int, v.data@, c as int));
        } else {
            assert(r.bytes@ =~= spec_face_z(n as int, v.data@, c as int));
        }
        assert(n * n <= n * n * n) by (nonlinear_arith)
            requires
                n >= 1,
        ;
    }
    r
}

/// Registers a side face, writing its socket into `socket`.
pub fn register_side_face(
    socket_map: &mut Vec<(Face, Socket)>,
    face: Face,
    serial: &mut usize,
    socket: &mut Socket,
)
    requires
        face.wf(),
        *old(serial) < usize::MAX,
    ensures
        ({
            let (em, es, esock) = spec_reg_side(map_view(old(socket_map)@), *old(serial), fkey(face));
            map_view(final(socket_map)@) == em && *final(serial) == es && *final(socket) == esock
        }),
{
    let found = map_find(socket_map, face.n, &face.bytes);
    match found {
        Some(s) => {
            *socket = s;
        },
        None => {
            let mir = mirrored_face(&face);
            if bytes_eq(&face.bytes, &mir.bytes) {
                let s = Socket { serial: *serial, kind: SocketKind::Sym };
                let ghost before = map_view(socket_map@);
                socket_map.push((face, s));
                assert(map_view(socket_map@) =~= before.push((fkey(face), s)));
                *socket = s;
                *serial += 1;
            } else {
                assert(fkey(mir) != fkey(face));
                let sf = Socket { serial: *serial, kind: SocketKind::Fem };
                let sm = Socket { serial: *serial, kind: SocketKind::Male };
                let ghost before = map_view(socket_map@);
                let ghost mirk = fkey(mir);
                let ghost facek = fkey(face);
                socket_map.push((mir, sf));
                assert(map_view(socket_map@) =~= before.push((mirk, sf)));
                socket_map.push((face, sm));
                assert(map_view(socket_map@) =~= before.push((mirk, sf)).push((facek, sm)));
                *socket = sm;
                *serial += 1;
            }
        },
    }
}

/// Registers a vertical face, writing its socket into `socket`.
pub fn register_vert_face(
    socket_map: &mut Vec<(Face, Socket)>,
    face: Face,
    serial: &mut usize,
    socket: &mut Socket,
)
    requires
        face.wf(),
        *old(serial) < usize::MAX,
    ensures
        ({
            let (em, es, esock) = spec_reg_vert(map_view(old(socket_map)@), *old(serial), fkey(face));
            map_view(final(socket_map)@) == em && *final(serial) == es && *final(socket) == esock
        }),
{
    let found = map_find(socket_map, face.n, &face.bytes);
    match found {
        Some(s) => {
            *socket = s;
        },
        None => {
            let r1 = rotated_array_p90(&face);
            let r2 = rotated_array_p90(&r1);
            let r3 = rotated_array_p90(&r2);
            if bytes_eq(&r1.bytes, &face.bytes) && bytes_eq(&r2.bytes, &face.bytes) && bytes_eq(
                &r3.bytes,
                &face.bytes,
            ) {
                let s = Socket { serial: *serial, kind: SocketKind::VertInv };
                let ghost before = map_view(socket_map@);
                socket_map.push((face, s));
                assert(map_view(socket_map@) =~= before.push((fkey(face), s)));
                *socket = s;
                *serial += 1;
            } else {
                let s0 = Socket { serial: *serial, kind: SocketKind::VertRot(0) };
                let s1 = Socket { serial: *serial, kind: SocketKind::VertRot(1) };
                let s2 = Socket { serial: *serial, kind: SocketKind::VertRot(2) };
                let s3 = Socket { serial: *serial, kind: SocketKind::VertRot(3) };
                let ghost before = map_view(socket_map@);
                let ghost k0 = fkey(face);
                let ghost k1 = fkey(r1);
                let ghost k2 = fkey(r2);
                let ghost k3 = fkey(r3);
                socket_map.push((face, s0));
                assert(map_view(socket_map@) =~= before.push((k0, s0)));
                socket_map.push((r1, s1));
                assert(map_view(socket_map@) =~= before.push((k0, s0)).push((k1, s1)));
                socket_map.push((r2, s2));
                assert(map_view(socket_map@) =~= before.push((k0, s0)).push((k1, s1)).push(
                    (k2, s2),
                ));
                socket_map.push((r3, s3));
                assert(map_view(socket_map@) =~= before.push((k0, s0)).push((k1, s1)).push(
                    (k2, s2),
                ).push((k3, s3)));
                *socket = s0;
                *serial += 1;
            }
        },
    }
}


/// Character-for-character equality of two strings.
pub fn str_eq(a: &str, b: &str) -> (r: bool)
    ensures
        r == (a@ == b@),
{
    let la = a.unicode_len();
    let lb = b.unicode_len();
    if la != lb {
        assert(a@ != b@);
        return false;
    }
    let mut i: usize = 0;
    while i < la
        invariant
            la == a@.len(),
            a@.len() == b@.len(),
            i <= la,
            forall|k: int| 0 <= k < i ==> a@[k] == b@[k],
        decreases la - i,
    {
        if a.get_char(i) != b.get_char(i) {
            return false;
        }
        i += 1;
    }
    assert(a@ =~= b@);
    true
}

/// The ordered pair of asset names stands in the exclusion list.
pub open spec fn spec_excluded(e: Seq<(String, String)>, a: Seq<char>, b: Seq<char>) -> bool {
    exists|k: int| 0 <= k < e.len() && (#[trigger] e[k]).0@ == a && e[k].1@ == b
}

/// Looks the ordered pair `(a, b)` up in the exclusion list.
pub fn is_excluded(excl: &Vec<(String, String)>, a: &String, b: &String) -> (r: bool)
    ensures
        r == spec_excluded(excl@, a@, b@),
{
    let mut k: usize = 0;
    while k < excl.len()
        invariant
            k <= excl@.len(),
            forall|e: int| 0 <= e < k ==> !((#[trigger] excl@[e]).0@ == a@ && excl@[e].1@ == b@),
        decreases excl@.len() - k,
    {
        let entry = &excl[k];
        if str_eq(entry.0.as_str(), a.as_str()) && str_eq(entry.1.as_str(), b.as_str()) {
            return true;
        }
        k += 1;
    }
    false
}

/// One step of tile registration: the six faces of one cube are registered
/// in the order the sides and then the verticals are visited, and the cube's
/// base sockets come out.
pub open spec fn spec_reg_file(
    sm: Seq<((int, Seq<u8>), Socket)>,
    vm: Seq<((int, Seq<u8>), Socket)>,
    serial: usize,
    n: int,
    d: Seq<u8>,
) -> (Seq<((int, Seq<u8>), Socket)>, Seq<((int, Seq<u8>), Socket)>, usize, Sockets) {
    let t1 = spec_reg_side(sm, serial, (n, spec_mirror(n, spec_face_y(n, d, 0))));
    let t2 = spec_reg_side(t1.0, t1.1, (n, spec_face_y(n, d, n - 1)));
    let t3 = spec_reg_side(t2.0, t2.1, (n, spec_face_z(n, d, 0)));
    let t4 = spec_reg_side(t3.0, t3.1, (n, spec_mirror(n, spec_face_z(n, d, n - 1))));
    let t5 = spec_reg_vert(vm, t4.1, (n, spec_face_x(n, d, n - 1)));
    let t6 = spec_reg_vert(t5.0, t5.1, (n, spec_face_x(n, d, 0)));
    (t4.0, t6.0, t6.1, Sockets { px: t2.2, nx: t1.2, py: t5.2, ny: t6.2, pz: t4.2, nz: t3.2 })
}

/// The registration state after the first `i` cubes.
pub open spec fn spec_reg_fold(n: int, ds: Seq<Seq<u8>>, i: int) -> (
    Seq<((int, Seq<u8>), Socket)>,
    Seq<((int, Seq<u8>), Socket)>,
    usize,
)
    decreases i,
{
    if i <= 0 {
        (Seq::empty(), Seq::empty(), 0usize)
    } else {
        let st = spec_reg_fold(n, ds, i - 1);
        let t = spec_reg_file(st.0, st.1, st.2, n, ds[i - 1]);
        (t.0, t.1, t.2)
    }
}

/// The base (unrotated) sockets of cube `k`.
pub open spec fn spec_base_sockets(n: int, ds: Seq<Seq<u8>>, k: int) -> Sockets {
    let st = spec_reg_fold(n, ds, k);
    spec_reg_file(st.0, st.1, st.2, n, ds[k]).3
}

/// Every socket in a vertical map is vertical.
pub open spec fn vert_map_ok(m: Seq<((int, Seq<u8>), Socket)>) -> bool {
    forall|i: int| 0 <= i < m.len() ==> (#[trigger] m[i]).1.is_vertical()
}

proof fn lemma_reg_vert_vertical(m: Seq<((int, Seq<u8>), Socket)>, serial: usize, f: (int, Seq<u8>))
    requires
        vert_map_ok(m),
    ensures
        vert_map_ok(spec_reg_vert(m, serial, f).0),
        spec_reg_vert(m, serial, f).2.is_vertical(),
{
    match sm_lookup(m, f) {
        Some(s) => {
            lemma_lookup_member(m, f);
        },
        None => {
            let t = spec_reg_vert(m, serial, f);
            assert forall|i: int| 0 <= i < t.0.len() implies (#[trigger] t.0[i]).1.is_vertical() by {
                if i < m.len() {
                    assert(t.0[i] == m[i]);
                }
            }
        },
    }
}

proof fn lemma_fold_vert_ok(n: int, ds: Seq<Seq<u8>>, i: int)
    ensures
        vert_map_ok(spec_reg_fold(n, ds, i).1),
    decreases i,
{
    if i > 0 {
        lemma_fold_vert_ok(n, ds, i - 1);
        let st = spec_reg_fold(n, ds, i - 1);
        let d = ds[i - 1];
        let t1 = spec_reg_side(st.0, st.2, (n, spec_mirror(n, spec_face_y(n, d, 0))));
        let t2 = spec_reg_side(t1.0, t1.1, (n, spec_face_y(n, d, n - 1)));
        let t3 = spec_reg_side(t2.0, t2.1, (n, spec_face_z(n, d, 0)));
        let t4 = spec_reg_side(t3.0, t3.1, (n, spec_mirror(n, spec_face_z(n, d, n - 1))));
        let t5 = spec_reg_vert(st.1, t4.1, (n, spec_face_x(n, d, n - 1)));
        lemma_reg_vert_vertical(st.1, t4.1, (n, spec_face_x(n, d, n - 1)));
        lemma_reg_vert_vertical(t5.0, t5.1, (n, spec_face_x(n, d, 0)));
    }
}

/// The base sockets of every cube carry vertical kinds on the vertical faces.
proof fn lemma_base_vertical(n: int, ds: Seq<Seq<u8>>, k: int)
    requires
        k >= 0,
    ensures
        spec_base_sockets(n, ds, k).py.is_vertical(),
        spec_base_sockets(n, ds, k).ny.is_vertical(),
{
    lemma_fold_vert_ok(n, ds, k);
    let st = spec_reg_fold(n, ds, k);
    let d = ds[k];
    let t1 = spec_reg_side(st.0, st.2, (n, spec_mirror(n, spec_face_y(n, d, 0))));
    let t2 = spec_reg_side(t1.0, t1.1, (n, spec_face_y(n, d, n - 1)));
    let t3 = spec_reg_side(t2.0, t2.1, (n, spec_face_z(n, d, 0)));
    let t4 = spec_reg_side(t3.0, t3.1, (n, spec_mirror(n, spec_face_z(n, d, n - 1))));
    let t5 = spec_reg_vert(st.1, t4.1, (n, spec_face_x(n, d, n - 1)));
    lemma_reg_vert_vertical(st.1, t4.1, (n, spec_face_x(n, d, n - 1)));
    lemma_reg_vert_vertical(t5.0, t5.1, (n, spec_face_x(n, d, 0)));
}

/// The payloads of the given voxel arrays.
pub open spec fn datas_of(vs: Seq<VoxArray>) -> Seq<Seq<u8>> {
    vs.map_values(|v: VoxArray| v.data@)
}

/// Registers the faces of every cube and returns each cube's base sockets.
fn build_base(voxes: &Vec<VoxArray>, size: usize) -> (r: Vec<Sockets>)
    requires
        size >= 1,
        forall|i: int| 0 <= i < voxes@.len() ==> cube_wf(#[trigger] voxes@[i], size as int),
        voxes@.len() * 6 + 6 <= usize::MAX,
    ensures
        r@.len() == voxes@.len(),
        forall|k: int|
            0 <= k < r@.len() ==> r@[k] == spec_base_sockets(
                size as int,
                datas_of(voxes@),
                k,
            ),
{
    let ghost ds = datas_of(voxes@);
    let mut side_map: Vec<(Face, Socket)> = Vec::new();
    let mut vert_map: Vec<(Face, Socket)> = Vec::new();
    let mut serial: usize = 0;
    let mut out: Vec<Sockets> = Vec::new();
    let mut i: usize = 0;
    assert(map_view(side_map@) =~= spec_reg_fold(size as int, ds, 0).0);
    assert(map_view(vert_map@) =~= spec_reg_fold(size as int, ds, 0).1);
    while i < voxes.len()
        invariant
            size >= 1,
            ds == datas_of(voxes@),
            forall|e: int| 0 <= e < voxes@.len() ==> cube_wf(#[trigger] voxes@[e], size as int),
            voxes@.len() * 6 + 6 <= usize::MAX,
            i <= voxes@.len(),
            map_view(side_map@) == spec_reg_fold(size as int, ds, i as int).0,
            map_view(vert_map@) == spec_reg_fold(size as int, ds, i as int).1,
            serial == spec_reg_fold(size as int, ds, i as int).2,
            serial <= 6 * i,
            out@.len() == i,
            forall|k: int| 0 <= k < i ==> out@[k] == spec_base_sockets(size as int, ds, k),
        decreases voxes@.len() - i,
    {
        let v = &voxes[i];
        let n = size;
        let face_ny = face_slab(v, 0, 0);
        let face_py = face_slab(v, 0, n - 1);
        let face_nx = face_slab(v, 1, 0);
        let face_px = face_slab(v, 1, n - 1);
        let face_nz = face_slab(v, 2, 0);
        let face_pz = face_slab(v, 2, n - 1);

        let ghost st = spec_reg_fold(size as int, ds, i as int);
        assert(ds[i as int] == v.data@);

        let mut s_nx = Socket { serial: 0, kind: SocketKind::Sym };
        let mut s_px = Socket { serial: 0, kind: SocketKind::Sym };
        let mut s_nz = Socket { serial: 0, kind: SocketKind::Sym };
        let mut s_pz = Socket { serial: 0, kind: SocketKind::Sym };
        let mut s_py = Socket { serial: 0, kind: SocketKind::Sym };
        let mut s_ny = Socket { serial: 0, kind: SocketKind::Sym };

        register_side_face(&mut side_map, mirrored_face(&face_nx), &mut serial, &mut s_nx);
        register_side_face(&mut side_map, face_px, &mut serial, &mut s_px);
        register_side_face(&mut side_map, face_nz, &mut serial, &mut s_nz);
        register_side_face(&mut side_map, mirrored_face(&face_pz), &mut serial, &mut s_pz);
        register_vert_face(&mut vert_map, face_py, &mut serial, &mut s_py);
        register_vert_face(&mut vert_map, face_ny, &mut serial, &mut s_ny);

        let socks = Sockets { px: s_px, nx: s_nx, py: s_py, ny: s_ny, pz: s_pz, nz: s_nz };
        assert(socks == spec_base_sockets(size as int, ds, i as int));
        out.push(socks);
        i += 1;
    }
    out
}


/// The rotation of tile `i`: positions zero to two of each block of four are
/// the quarter turns one to three, the last position is the unrotated tile.
pub open spec fn spec_tile_rotation(i: int) -> u8 {
    if i % 4 == 3 {
        0u8
    } else {
        (i % 4 + 1) as u8
    }
}

/// The sockets of tile `i`, derived from its cube's base sockets.
pub open spec fn spec_tile_sockets(n: int, ds: Seq<Seq<u8>>, i: int) -> Sockets {
    let b = spec_base_sockets(n, ds, i / 4);
    if i % 4 == 3 {
        b
    } else {
        spec_rotate_full(b, i % 4 + 1)
    }
}

/// Builds the compatibility rows of every tile: in `r`, bit `j` of tile `i`'s
/// row for direction `d` is set exactly when the ordered asset pair is not
/// excluded and the facing sockets match.
fn compute_neighbors(nodes: &Vec<Node>, exclusions: &Vec<(String, String)>) -> (r: Vec<Node>)
    ensures
        r@.len() == nodes@.len(),
        forall|i: int|
            0 <= i < r@.len() ==> (#[trigger] r@[i]).rotation == nodes@[i].rotation && r@[i].sockets
                == nodes@[i].sockets && r@[i].asset_name@ == nodes@[i].asset_name@,
        forall|i: int, d: Direction|
            0 <= i < r@.len() ==> (#[trigger] nb_of(r@[i], d)).len() == r@.len(),
        forall|i: int, j: int, d: Direction|
            #![trigger nb_of(r@[i], d)[j]]
            0 <= i < r@.len() && 0 <= j < r@.len() ==> nb_of(r@[i], d)[j] == (!spec_excluded(
                exclusions@,
                nodes@[i].asset_name@,
                nodes@[j].asset_name@,
            ) && spec_sockets_match(
                socket_of(nodes@[i].sockets, d),
                socket_of(nodes@[j].sockets, opposite(d)),
            )),
{
    let t = nodes.len();
    let mut out: Vec<Node> = Vec::new();
    let mut i: usize = 0;
    while i < t
        invariant
            t == nodes@.len(),
            i <= t,
            out@.len() == i,
            forall|e: int|
                0 <= e < i ==> (#[trigger] out@[e]).rotation == nodes@[e].rotation && out@[e].sockets
                    == nodes@[e].sockets && out@[e].asset_name@ == nodes@[e].asset_name@,
            forall|e: int, d: Direction|
                0 <= e < i ==> (#[trigger] nb_of(out@[e], d)).len() == t,
            forall|e: int, j: int, d: Direction|
                #![trigger nb_of(out@[e], d)[j]]
                0 <= e < i && 0 <= j < t ==> nb_of(out@[e], d)[j] == (!spec_excluded(
                    exclusions@,
                    nodes@[e].asset_name@,
                    nodes@[j].asset_name@,
                ) && spec_sockets_match(
                    socket_of(nodes@[e].sockets, d),
                    socket_of(nodes@[j].sockets, opposite(d)),
                )),
        decreases t - i,
    {
        let me = &nodes[i];
        let mut row_px = bv_repeat(false, t);
        let mut row_nx = bv_repeat(false, t);
        let mut row_py = bv_repeat(false, t);
        let mut row_ny = bv_repeat(false, t);
        let mut row_pz = bv_repeat(false, t);
        let mut row_nz = bv_repeat(false, t);
        let mut j: usize = 0;
        while j < t
            invariant
                t == nodes@.len(),
                i < t,
                j <= t,
                me == &nodes@[i as int],
                bits_of(row_px).len() == t,
                bits_of(row_nx).len() == t,
                bits_of(row_py).len() == t,
                bits_of(row_ny).len() == t,
                bits_of(row_pz).len() == t,
                bits_of(row_nz).len() == t,
                forall|e: int|
                    0 <= e < t ==> ((#[trigger] bits_of(row_px)[e]) == (e < j && !spec_excluded(
                        exclusions@,
                        nodes@[i as int].asset_name@,
                        nodes@[e].asset_name@,
                    ) && spec_sockets_match(nodes@[i as int].sockets.px, nodes@[e].sockets.nx))),
                forall|e: int|
                    0 <= e < t ==> ((#[trigger] bits_of(row_nx)[e]) == (e < j && !spec_excluded(
                        exclusions@,
                        nodes@[i as int].asset_name@,
                        nodes@[e].asset_name@,
                    ) && spec_sockets_match(nodes@[i as int].sockets.nx, nodes@[e].sockets.px))),
                forall|e: int|
                    0 <= e < t ==> ((#[trigger] bits_of(row_py)[e]) == (e < j && !spec_excluded(
                        exclusions@,
                        nodes@[i as int].asset_name@,
                        nodes@[e].asset_name@,
                    ) && spec_sockets_match(nodes@[i as int].sockets.py, nodes@[e].sockets.ny))),
                forall|e: int|
                    0 <= e < t ==> ((#[trigger] bits_of(row_ny)[e]) == (e < j && !spec_excluded(
                        exclusions@,
                        nodes@[i as int].asset_name@,
                        nodes@[e].asset_name@,
                    ) && spec_sockets_match(nodes@[i as int].sockets.ny, nodes@[e].sockets.py))),
                forall|e: int|
                    0 <= e < t ==> ((#[trigger] bits_of(row_pz)[e]) == (e < j && !spec_excluded(
                        exclusions@,
                        nodes@[i as int].asset_name@,
                        nodes@[e].asset_name@,
                    ) && spec_sockets_match(nodes@[i as int].sockets.pz, nodes@[e].sockets.nz))),
                forall|e: int|
                    0 <= e < t ==> ((#[trigger] bits_of(row_nz)[e]) == (e < j && !spec_excluded(
                        exclusions@,
                        nodes@[i as int].asset_name@,
                        nodes@[e].asset_name@,
                    ) && spec_sockets_match(nodes@[i as int].sockets.nz, nodes@[e].sockets.pz))),
            decreases t - j,
        {
            let other = &nodes[j];
            if !is_excluded(exclusions, &me.asset_name, &other.asset_name) {
                if socket_matches(&me.sockets.px, &other.sockets.nx) {
                    bv_set(&mut row_px, j, true);
                }
                if socket_matches(&me.sockets.nx, &other.sockets.px) {
                    bv_set(&mut row_nx, j, true);
                }
                if socket_matches(&me.sockets.py, &other.sockets.ny) {
                    bv_set(&mut row_py, j, true);
                }
                if socket_matches(&me.sockets.ny, &other.sockets.py) {
                    bv_set(&mut row_ny, j, true);
                }
                if socket_matches(&me.sockets.pz, &other.sockets.nz) {
                    bv_set(&mut row_pz, j, true);
                }
                if socket_matches(&me.sockets.nz, &other.sockets.pz) {
                    bv_set(&mut row_nz, j, true);
                }
            }
            j += 1;
        }
        let filled = Node {
            rotation: me.rotation,
            sockets: me.sockets,
            valid_neighbors: Neighbors {
                px: row_px,
                nx: row_nx,
                py: row_py,
                ny: row_ny,
                pz: row_pz,
                nz: row_nz,
            },
            asset_name: String::from_str(me.asset_name.as_str()),
        };
        out.push(filled);
        i += 1;
    }
    out
}


/// The file parses, is a cube of edge `size`, and its name can lose the
/// five-character extension.
pub open spec fn file_good(f: VoxFile, size: int) -> bool {
    &&& spec_xraw_ok(f.bytes@)
    &&& spec_le32(f.bytes@, 8) == size
    &&& spec_le32(f.bytes@, 12) == size
    &&& spec_le32(f.bytes@, 16) == size
    &&& f.name@.len() >= 5
}

/// The asset name of a file: its name with the extension stripped.
pub open spec fn spec_asset_name(name: Seq<char>) -> Seq<char> {
    name.subrange(0, name.len() - 5)
}

/// The voxel payloads of a list of files.
pub open spec fn payloads_of(files: Seq<VoxFile>) -> Seq<Seq<u8>> {
    files.map_values(|f: VoxFile| spec_xraw_payload(f.bytes@))
}

/// Builds the full tile dictionary from voxel files.
///
/// Each file contributes four tiles: its three quarter-turn rotations, then
/// the unrotated original.  Tile `i`'s sockets follow from its cube's base
/// sockets, and bit `j` of its compatibility row for direction `d` is set
/// exactly when the ordered asset pair is not excluded and the facing
/// sockets match.
pub fn node_dict_from_files(
    files: &Vec<VoxFile>,
    size: usize,
    exclusions: &Vec<(String, String)>,
) -> (r: Result<Vec<Node>, TileError>)
    requires
        size >= 1,
        files@.len() * 6 + 6 <= usize::MAX,
    ensures
        r is Ok <==> (files@.len() > 0 && forall|i: int|
            0 <= i < files@.len() ==> file_good(#[trigger] files@[i], size as int)),
        match r {
            Ok(nodes) => dict_ok(nodes@, files@, size as int, exclusions@),
            Err(e) => match e {
                TileError::BadVoxelFile { path, reason } => exists|i: int|
                    0 <= i < files@.len() && (#[trigger] files@[i]).name@ == path@ && (
                    !spec_xraw_ok(files@[i].bytes@) || files@[i].name@.len() < 5),
                TileError::BadTileSet { reason } => files@.len() == 0 || exists|i: int|
                    0 <= i < files@.len() && spec_xraw_ok((#[trigger] files@[i]).bytes@) && !(
                    spec_le32(files@[i].bytes@, 8) == size && spec_le32(files@[i].bytes@, 12)
                        == size && spec_le32(files@[i].bytes@, 16) == size),
            },
        },
{
    if files.len() == 0 {
        return Err(TileError::BadTileSet { reason: String::from_str("no voxel files given") });
    }
    let mut voxes: Vec<VoxArray> = Vec::new();
    let mut names: Vec<String> = Vec::new();
    let mut fi: usize = 0;
    while fi < files.len()
        invariant
            size >= 1,
            fi <= files@.len(),
            voxes@.len() == fi,
            names@.len() == fi,
            forall|e: int| 0 <= e < fi ==> file_good(#[trigger] files@[e], size as int),
            forall|e: int|
                0 <= e < fi ==> cube_wf(#[trigger] voxes@[e], size as int) && voxes@[e].data@
                    == spec_xraw_payload(files@[e].bytes@),
            forall|e: int|
                0 <= e < fi ==> (#[trigger] names@[e])@ == spec_asset_name(files@[e].name@),
        decreases files@.len() - fi,
    {
        let file = &files[fi];
        match vox_array_from_bytes(&file.bytes) {
            Err(reason) => {
                return Err(
                    TileError::BadVoxelFile {
                        path: String::from_str(file.name.as_str()),
                        reason,
                    },
                );
            },
            Ok(v) => {
                if !(v.w == size && v.h == size && v.l == size) {
                    return Err(
                        TileError::BadTileSet {
                            reason: String::from_str(
                                "voxel file is not a cube of the requested edge length",
                            ),
                        },
                    );
                }
                let nlen = file.name.as_str().unicode_len();
                if nlen < 5 {
                    return Err(
                        TileError::BadVoxelFile {
                            path: String::from_str(file.name.as_str()),
                            reason: String::from_str("file name shorter than its extension"),
                        },
                    );
                }
                let asset = file.name.as_str().substring_char(0, nlen - 5);
                names.push(String::from_str(asset));
                voxes.push(v);
            },
        }
        fi += 1;
    }
    assert(datas_of(voxes@) =~= payloads_of(files@));
    let ghost ds = payloads_of(files@);
    let bases = build_base(&voxes, size);
    let kcount = files.len();
    let mut plain: Vec<Node> = Vec::new();
    let mut k: usize = 0;
    while k < kcount
        invariant
            size >= 1,
            kcount == files@.len(),
            kcount * 6 + 6 <= usize::MAX,
            ds == payloads_of(files@),
            bases@.len() == kcount,
            names@.len() == kcount,
            forall|e: int| 0 <= e < kcount ==> bases@[e] == spec_base_sockets(size as int, ds, e),
            forall|e: int|
                0 <= e < kcount ==> (#[trigger] names@[e])@ == spec_asset_name(files@[e].name@),
            k <= kcount,
            plain@.len() == 4 * k,
            forall|i: int|
                0 <= i < plain@.len() ==> (#[trigger] plain@[i]).rotation == spec_tile_rotation(i),
            forall|i: int|
                0 <= i < plain@.len() ==> (#[trigger] plain@[i]).asset_name@ == spec_asset_name(
                    files@[i / 4].name@,
                ),
            forall|i: int|
                0 <= i < plain@.len() ==> (#[trigger] plain@[i]).sockets == spec_tile_sockets(
                    size as int,
                    ds,
                    i,
                ),
        decreases kcount - k,
    {
        let base = bases[k];
        proof {
            lemma_base_vertical(size as int, ds, k as int);
        }
        let mut node1 = Node::new(1, &names[k]);
        rotate_side_sockets(&base, &mut node1.sockets, 1);
        rotate_vert_socket(&base.py, &mut node1.sockets.py, 1);
        rotate_vert_socket(&base.ny, &mut node1.sockets.ny, 1);
        assert(node1.sockets == spec_rotate_full(base, 1));
        plain.push(node1);
        let mut node2 = Node::new(2, &names[k]);
        rotate_side_sockets(&base, &mut node2.sockets, 2);
        rotate_vert_socket(&base.py, &mut node2.sockets.py, 2);
        rotate_vert_socket(&base.ny, &mut node2.sockets.ny, 2);
        assert(node2.sockets == spec_rotate_full(base, 2));
        plain.push(node2);
        let mut node3 = Node::new(3, &names[k]);
        rotate_side_sockets(&base, &mut node3.sockets, 3);
        rotate_vert_socket(&base.py, &mut node3.sockets.py, 3);
        rotate_vert_socket(&base.ny, &mut node3.sockets.ny, 3);
        assert(node3.sockets == spec_rotate_full(base, 3));
        plain.push(node3);
        let mut ori = Node::new(0, &names[k]);
        ori.sockets = base;
        plain.push(ori);
        proof {
            assert forall|i: int| 4 * k <= i < 4 * k + 4 implies #[trigger] (i / 4) == k as int by {
                lemma_fundamental_div_mod_converse(i, 4, k as int, i - 4 * k);
            }
        }
        k += 1;
    }
    let nodes = compute_neighbors(&plain, exclusions);
    assert(nodes@.len() == 4 * files@.len());
    Ok(nodes)
}


/// The derivation invariant of the compatibility matrix: every row has one
/// bit per tile, and bit `j` of tile `i`'s row for direction `d` is set
/// exactly when the ordered asset pair is not excluded and the facing
/// sockets match.
pub open spec fn nodes_derived(nodes: Seq<Node>, exclusions: Seq<(String, String)>) -> bool {
    &&& forall|i: int, d: Direction|
        0 <= i < nodes.len() ==> (#[trigger] nb_of(nodes[i], d)).len() == nodes.len()
    &&& forall|i: int, j: int, d: Direction|
        #![trigger nb_of(nodes[i], d)[j]]
        0 <= i < nodes.len() && 0 <= j < nodes.len() ==> nb_of(nodes[i], d)[j] == (!spec_excluded(
            exclusions,
            nodes[i].asset_name@,
            nodes[j].asset_name@,
        ) && spec_sockets_match(
            socket_of(nodes[i].sockets, d),
            socket_of(nodes[j].sockets, opposite(d)),
        ))
}

/// Compatibility is direction-antisymmetric: when the exclusion list treats
/// ordered pairs symmetrically, tile `j` may sit in direction `d` of tile
/// `i` exactly when tile `i` may sit in the opposite direction of tile `j`.
pub proof fn lemma_compat_antisymmetric(
    nodes: Seq<Node>,
    exclusions: Seq<(String, String)>,
    i: int,
    j: int,
    d: Direction,
)
    requires
        nodes_derived(nodes, exclusions),
        0 <= i < nodes.len(),
        0 <= j < nodes.len(),
        forall|a: Seq<char>, b: Seq<char>|
            spec_excluded(exclusions, a, b) == spec_excluded(exclusions, b, a),
    ensures
        nb_of(nodes[i], d)[j] == nb_of(nodes[j], opposite(d))[i],
{
    crate::node::lemma_sockets_match_symmetric(
        socket_of(nodes[i].sockets, d),
        socket_of(nodes[j].sockets, opposite(d)),
    );
    assert(opposite(opposite(d)) == d);
    assert(spec_excluded(exclusions, nodes[i].asset_name@, nodes[j].asset_name@) == spec_excluded(
        exclusions,
        nodes[j].asset_name@,
        nodes[i].asset_name@,
    ));
}


/// What a successfully built tile dictionary looks like: four tiles per
/// file (three quarter turns, then the original), each tile's sockets
/// derived from its cube's base sockets, and the compatibility matrix
/// derived from sockets and exclusions.
pub open spec fn dict_ok(
    nodes: Seq<Node>,
    files: Seq<VoxFile>,
    size: int,
    exclusions: Seq<(String, String)>,
) -> bool {
    &&& nodes.len() == 4 * files.len()
    &&& forall|i: int|
        0 <= i < nodes.len() ==> (#[trigger] nodes[i]).rotation == spec_tile_rotation(i)
    &&& forall|i: int|
        0 <= i < nodes.len() ==> (#[trigger] nodes[i]).asset_name@ == spec_asset_name(
            files[i / 4].name@,
        )
    &&& forall|i: int|
        0 <= i < nodes.len() ==> (#[trigger] nodes[i]).sockets == spec_tile_sockets(
            size,
            payloads_of(files),
            i,
        )
    &&& nodes_derived(nodes, exclusions)
}

} // verus!
