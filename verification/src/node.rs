//! Tiles (`Node`), their face sockets and their neighbor compatibility rows.

use vstd::prelude::*;

use crate::bits::{bits_of, bv_clone, bv_empty, Bits};

verus! {

/// The symmetry class of a face socket.
///
/// Side faces are symmetric under mirroring (`Sym`) or form a complementary
/// female/male pair (`Fem`/`Male`).  Vertical faces are invariant under a
/// quarter turn (`VertInv`) or carry the index of their quarter turn
/// (`VertRot`).
#[derive(Clone, Copy, PartialEq, Eq, Structural, Debug)]
pub enum SocketKind {
    Sym,
    Fem,
    Male,
    VertInv,
    VertRot(u8),
}

/// A socket identifier: a monotonic serial plus a symmetry class.
#[derive(Clone, Copy, PartialEq, Eq, Structural, Debug)]
pub struct Socket {
    pub serial: usize,
    pub kind: SocketKind,
}

impl Socket {
    /// A vertical socket, with a quarter-turn index below four.
    pub open spec fn is_vertical(self) -> bool {
        match self.kind {
            SocketKind::VertInv => true,
            SocketKind::VertRot(d) => d < 4,
            _ => false,
        }
    }
}

/// The six face sockets of one tile.
#[derive(Clone, Copy, PartialEq, Eq, Structural, Debug)]
pub struct Sockets {
    pub px: Socket,
    pub nx: Socket,
    pub py: Socket,
    pub ny: Socket,
    pub pz: Socket,
    pub nz: Socket,
}

/// For each of the six directions, the set of tiles allowed next door.
pub struct Neighbors {
    pub px: Bits,
    pub nx: Bits,
    pub py: Bits,
    pub ny: Bits,
    pub pz: Bits,
    pub nz: Bits,
}

/// One rotational variant of one voxel asset.
pub struct Node {
    pub rotation: u8,
    pub sockets: Sockets,
    pub valid_neighbors: Neighbors,
    pub asset_name: String,
}

/// The socket every field of a fresh tile starts from.
pub open spec fn placeholder_socket() -> Socket {
    Socket { serial: 0, kind: SocketKind::Sym }
}

impl Node {
    /// A tile with the given rotation and asset name, sockets and neighbor
    /// rows still to be filled in.
    pub fn new(rotation: u8, asset_name: &String) -> (r: Node)
        ensures
            r.rotation == rotation,
            r.asset_name@ == asset_name@,
            r.sockets == (Sockets {
                px: placeholder_socket(),
                nx: placeholder_socket(),
                py: placeholder_socket(),
                ny: placeholder_socket(),
                pz: placeholder_socket(),
                nz: placeholder_socket(),
            }),
            bits_of(r.valid_neighbors.px) == Seq::<bool>::empty(),
            bits_of(r.valid_neighbors.nx) == Seq::<bool>::empty(),
            bits_of(r.valid_neighbors.py) == Seq::<bool>::empty(),
            bits_of(r.valid_neighbors.ny) == Seq::<bool>::empty(),
            bits_of(r.valid_neighbors.pz) == Seq::<bool>::empty(),
            bits_of(r.valid_neighbors.nz) == Seq::<bool>::empty(),
    {
        let s = Socket { serial: 0, kind: SocketKind::Sym };
        Node {
            rotation,
            sockets: Sockets { px: s, nx: s, py: s, ny: s, pz: s, nz: s },
            valid_neighbors: Neighbors {
                px: bv_empty(),
                nx: bv_empty(),
                py: bv_empty(),
                ny: bv_empty(),
                pz: bv_empty(),
                nz: bv_empty(),
            },
            asset_name: String::from_str(asset_name.as_str()),
        }
    }
}

/// Two sockets may sit on facing sides: a female/male pair with one serial,
/// or equal sockets that are neither female nor male.
pub open spec fn spec_sockets_match(a: Socket, b: Socket) -> bool {
    ||| (a.kind == SocketKind::Fem && b.kind == SocketKind::Male && a.serial == b.serial)
    ||| (a.kind == SocketKind::Male && b.kind == SocketKind::Fem && a.serial == b.serial)
    ||| (a == b && a.kind != SocketKind::Fem && a.kind != SocketKind::Male)
}

/// A vertical socket after `r` quarter turns: a rotation-invariant socket is
/// unchanged, otherwise the quarter-turn index advances by `r` modulo four.
pub open spec fn spec_rotate_vert(s: Socket, r: int) -> Socket {
    match s.kind {
        SocketKind::VertRot(d) => Socket {
            serial: s.serial,
            kind: SocketKind::VertRot(
                if d + r > 3 {
                    (d + r - 4) as u8
                } else {
                    (d + r) as u8
                },
            ),
        },
        _ => s,
    }
}

/// The side sockets after `r` quarter turns; vertical fields are unchanged.
pub open spec fn spec_rotate_sides(s: Sockets, r: int) -> Sockets {
    if r == 1 {
        Sockets { px: s.pz, nx: s.nz, pz: s.nx, nz: s.px, py: s.py, ny: s.ny }
    } else if r == 2 {
        Sockets { px: s.nx, nx: s.px, pz: s.nz, nz: s.pz, py: s.py, ny: s.ny }
    } else if r == 3 {
        Sockets { px: s.nz, nx: s.pz, pz: s.px, nz: s.nx, py: s.py, ny: s.ny }
    } else {
        s
    }
}

/// All six sockets after `r` quarter turns.
pub open spec fn spec_rotate_full(s: Sockets, r: int) -> Sockets {
    let t = spec_rotate_sides(s, r);
    Sockets {
        px: t.px,
        nx: t.nx,
        pz: t.pz,
        nz: t.nz,
        py: spec_rotate_vert(s.py, r),
        ny: spec_rotate_vert(s.ny, r),
    }
}

/// Socket matching is symmetric.
pub proof fn lemma_sockets_match_symmetric(a: Socket, b: Socket)
    ensures
        spec_sockets_match(a, b) == spec_sockets_match(b, a),
{
}

/// Four quarter turns bring every socket of a tile back to itself.
pub proof fn lemma_rotation_group(s: Sockets)
    requires
        s.py.is_vertical(),
        s.ny.is_vertical(),
    ensures
        spec_rotate_full(spec_rotate_full(spec_rotate_full(spec_rotate_full(s, 1), 1), 1), 1) == s,
{
}

/// One turn of `r` quarter turns equals `r` single quarter turns.
pub proof fn lemma_rotate_iterated(s: Sockets)
    requires
        s.py.is_vertical(),
        s.ny.is_vertical(),
    ensures
        spec_rotate_full(s, 2) == spec_rotate_full(spec_rotate_full(s, 1), 1),
        spec_rotate_full(s, 3) == spec_rotate_full(spec_rotate_full(spec_rotate_full(s, 1), 1), 1),
{
}

/// One of the six axis directions of the grid.
#[derive(Clone, Copy, PartialEq, Eq, Structural, Debug)]
pub enum Direction {
    POSX,
    NEGX,
    POSY,
    NEGY,
    POSZ,
    NEGZ,
}

/// The direction that faces `d`.
pub open spec fn opposite(d: Direction) -> Direction {
    match d {
        Direction::POSX => Direction::NEGX,
        Direction::NEGX => Direction::POSX,
        Direction::POSY => Direction::NEGY,
        Direction::NEGY => Direction::POSY,
        Direction::POSZ => Direction::NEGZ,
        Direction::NEGZ => Direction::POSZ,
    }
}

/// The socket on the face of `s` that looks in direction `d`.
pub open spec fn socket_of(s: Sockets, d: Direction) -> Socket {
    match d {
        Direction::POSX => s.px,
        Direction::NEGX => s.nx,
        Direction::POSY => s.py,
        Direction::NEGY => s.ny,
        Direction::POSZ => s.pz,
        Direction::NEGZ => s.nz,
    }
}

/// The neighbor-compatibility row of `n` in direction `d`.
pub open spec fn nb_of(n: Node, d: Direction) -> Seq<bool> {
    match d {
        Direction::POSX => bits_of(n.valid_neighbors.px),
        Direction::NEGX => bits_of(n.valid_neighbors.nx),
        Direction::POSY => bits_of(n.valid_neighbors.py),
        Direction::NEGY => bits_of(n.valid_neighbors.ny),
        Direction::POSZ => bits_of(n.valid_neighbors.pz),
        Direction::NEGZ => bits_of(n.valid_neighbors.nz),
    }
}

/// Two tiles agree on every observable field.
pub open spec fn node_eq(a: Node, b: Node) -> bool {
    &&& a.rotation == b.rotation
    &&& a.asset_name@ == b.asset_name@
    &&& a.sockets == b.sockets
    &&& bits_of(a.valid_neighbors.px) == bits_of(b.valid_neighbors.px)
    &&& bits_of(a.valid_neighbors.nx) == bits_of(b.valid_neighbors.nx)
    &&& bits_of(a.valid_neighbors.py) == bits_of(b.valid_neighbors.py)
    &&& bits_of(a.valid_neighbors.ny) == bits_of(b.valid_neighbors.ny)
    &&& bits_of(a.valid_neighbors.pz) == bits_of(b.valid_neighbors.pz)
    &&& bits_of(a.valid_neighbors.nz) == bits_of(b.valid_neighbors.nz)
}

/// A field-by-field copy of a tile.
pub fn copy_node(n: &Node) -> (r: Node)
    ensures
        node_eq(r, *n),
{
    Node {
        rotation: n.rotation,
        sockets: n.sockets,
        valid_neighbors: Neighbors {
            px: bv_clone(&n.valid_neighbors.px),
            nx: bv_clone(&n.valid_neighbors.nx),
            py: bv_clone(&n.valid_neighbors.py),
            ny: bv_clone(&n.valid_neighbors.ny),
            pz: bv_clone(&n.valid_neighbors.pz),
            nz: bv_clone(&n.valid_neighbors.nz),
        },
        asset_name: String::from_str(n.asset_name.as_str()),
    }
}

} // verus!
