//! The wave-function-collapse solver.
//!
//! The solver keeps one option bitset per grid cell.  Collapsing picks the
//! cell of least entropy and reduces it to one random option; propagation
//! then removes unsupported options from neighbors until a fixed point.

use vstd::arithmetic::div_mod::lemma_fundamental_div_mod_converse;
use vstd::prelude::*;

use crate::bitmath::{popcount, subset_of, total_count};
use crate::bits::{
    bits_of, bv_clone, bv_count_ones, bv_fill_false, bv_first_one, bv_get, bv_ones, bv_repeat,
    bv_set, Bits,
};
use crate::node::{nb_of, node_eq, Direction, Node};
use crate::node_data::NodeData;
use crate::rng::{rng_from_seed, rng_gen_range, rng_next_u64, rng_thread};

verus! {

/// Solver state: per-cell option bitsets over a three-dimensional grid.
pub struct Solver {
    data: Vec<Bits>,
    ushape: [usize; 3],
    node_dict: Vec<Node>,
    rng: rand::rngs::StdRng,
    seed: u64,
}

impl Solver {
    /// The tile count.
    pub open spec fn t(self) -> int {
        self.nodes().len() as int
    }

    /// The tiles the solver was built over.
    pub closed spec fn nodes(self) -> Seq<Node> {
        self.node_dict@
    }

    /// The option sets of every cell, in flat row-major order.
    pub closed spec fn cells(self) -> Seq<Seq<bool>> {
        self.data@.map_values(|b: Bits| bits_of(b))
    }

    /// The grid shape.
    pub open spec fn sh(self, axis: int) -> int {
        self.spec_shape()[axis] as int
    }

    /// The seed the generator was last seeded with.
    pub closed spec fn spec_seed(self) -> u64 {
        self.seed
    }

    /// The grid shape as stored.
    pub closed spec fn spec_shape(self) -> [usize; 3] {
        self.ushape
    }

    /// The flat index of a grid coordinate.
    pub open spec fn idx(self, x: int, y: int, z: int) -> int {
        (x * self.sh(1) + y) * self.sh(2) + z
    }

    /// The coordinate lies inside the grid.
    pub open spec fn in_b(self, x: int, y: int, z: int) -> bool {
        0 <= x < self.sh(0) && 0 <= y < self.sh(1) && 0 <= z < self.sh(2)
    }

    /// The option set at a coordinate.
    pub open spec fn cell(self, x: int, y: int, z: int) -> Seq<bool> {
        self.cells()[self.idx(x, y, z)]
    }

    /// Shapes agree: one cell per coordinate, one option bit per tile, one
    /// compatibility bit per tile in every row.
    pub open spec fn wf(self) -> bool {
        &&& self.cells().len() == self.sh(0) * self.sh(1) * self.sh(2)
        &&& forall|i: int| 0 <= i < self.cells().len() ==> (#[trigger] self.cells()[i]).len() == self.t()
        &&& forall|n: int, d: Direction|
            0 <= n < self.t() ==> (#[trigger] nb_of(self.nodes()[n], d)).len() == self.t()
    }

    /// Some tile possible at `(x, y, z)` allows tile `j` in direction `d`.
    pub open spec fn supports(self, x: int, y: int, z: int, d: Direction, j: int) -> bool {
        exists|i: int|
            0 <= i < self.t() && self.cell(x, y, z)[i] && #[trigger] nb_of(self.nodes()[i], d)[j]
    }

    /// The coordinate one step in direction `d`, whether or not in bounds.
    pub open spec fn step(self, x: int, y: int, z: int, d: Direction) -> (int, int, int) {
        match d {
            Direction::POSX => (x + 1, y, z),
            Direction::NEGX => (x - 1, y, z),
            Direction::POSY => (x, y + 1, z),
            Direction::NEGY => (x, y - 1, z),
            Direction::POSZ => (x, y, z + 1),
            Direction::NEGZ => (x, y, z - 1),
        }
    }

    /// The arc from `(x, y, z)` in direction `d` is consistent: every option
    /// still open at the neighbor is supported by some option here.
    pub open spec fn arc_ok(self, x: int, y: int, z: int, d: Direction) -> bool {
        let p = self.step(x, y, z, d);
        self.in_b(p.0, p.1, p.2) ==> forall|j: int|
            0 <= j < self.t() && (#[trigger] self.cell(p.0, p.1, p.2)[j]) ==> self.supports(
                x,
                y,
                z,
                d,
                j,
            )
    }

    /// Every arc is consistent or leaves its source at least two options.
    pub open spec fn inv_ok(self) -> bool {
        forall|x: int, y: int, z: int, d: Direction|
            self.in_b(x, y, z) ==> (#[trigger] self.arc_ok(x, y, z, d) || popcount(
                self.cell(x, y, z),
            ) >= 2)
    }

    /// As `inv_ok`, but the named source cell is exempt.
    pub open spec fn near_inv(self, px: int, py: int, pz: int) -> bool {
        forall|x: int, y: int, z: int, d: Direction|
            self.in_b(x, y, z) ==> ((x == px && y == py && z == pz) || #[trigger] self.arc_ok(
                x,
                y,
                z,
                d,
            ) || popcount(self.cell(x, y, z)) >= 2)
    }

    /// Every arc is consistent, with no escape for cells of higher entropy.
    pub open spec fn all_arcs_ok(self) -> bool {
        forall|x: int, y: int, z: int, d: Direction|
            self.in_b(x, y, z) ==> #[trigger] self.arc_ok(x, y, z, d)
    }

    /// As `all_arcs_ok`, but the named source cell is exempt.
    pub open spec fn near_arcs_ok(self, px: int, py: int, pz: int) -> bool {
        forall|x: int, y: int, z: int, d: Direction|
            self.in_b(x, y, z) ==> ((x == px && y == py && z == pz) || #[trigger] self.arc_ok(
                x,
                y,
                z,
                d,
            ))
    }

    /// `(x, y, z)` is the first cell, in row-major order, attaining the
    /// least entropy of at least two.
    pub open spec fn first_min_cell(self, x: int, y: int, z: int) -> bool {
        &&& self.in_b(x, y, z)
        &&& popcount(self.cell(x, y, z)) >= 2
        &&& forall|i: int|
            0 <= i < self.cells().len() && popcount(#[trigger] self.cells()[i]) >= 2 ==> popcount(
                self.cell(x, y, z),
            ) <= popcount(self.cells()[i])
        &&& forall|i: int|
            0 <= i < self.idx(x, y, z) ==> popcount(#[trigger] self.cells()[i]) < 2 || popcount(
                self.cells()[i],
            ) > popcount(self.cell(x, y, z))
    }

    /// Every cell holds at most one option.
    pub open spec fn spec_collapsed(self) -> bool {
        forall|i: int| 0 <= i < self.cells().len() ==> popcount(#[trigger] self.cells()[i]) <= 1
    }

    /// Every cell of `self` holds a subset of the options of `pre`.
    pub open spec fn shrinks_from(self, pre: Solver) -> bool {
        &&& self.cells().len() == pre.cells().len()
        &&& forall|i: int|
            0 <= i < self.cells().len() ==> subset_of(
                #[trigger] self.cells()[i],
                pre.cells()[i],
            )
    }

    /// Shape and tile set agree with `pre`.
    pub open spec fn same_frame(self, pre: Solver) -> bool {
        &&& self.spec_shape() == pre.spec_shape()
        &&& self.nodes() == pre.nodes()
    }


    /// `e` is pointwise below `c`: same cell count, every option of `e` open
    /// in `c`.
    pub open spec fn family_le(e: Seq<Seq<bool>>, c: Seq<Seq<bool>>) -> bool {
        &&& e.len() == c.len()
        &&& forall|i: int| 0 <= i < e.len() ==> subset_of(#[trigger] e[i], c[i])
    }

    /// The arc of `e` from `(x, y, z)` in direction `d` is consistent.
    pub open spec fn family_arc_ok(self, e: Seq<Seq<bool>>, x: int, y: int, z: int, d: Direction)
        -> bool {
        let p = self.step(x, y, z, d);
        self.in_b(p.0, p.1, p.2) ==> forall|j: int|
            0 <= j < self.t() && (#[trigger] e[self.idx(p.0, p.1, p.2)][j]) ==> exists|i: int|
                0 <= i < self.t() && e[self.idx(x, y, z)][i] && #[trigger] nb_of(
                    self.nodes()[i],
                    d,
                )[j]
    }

    /// `e` is a well-shaped, arc-consistent assignment of option sets over
    /// this solver's grid and tile set.
    pub open spec fn family_ok(self, e: Seq<Seq<bool>>) -> bool {
        &&& e.len() == self.cells().len()
        &&& forall|i: int| 0 <= i < e.len() ==> (#[trigger] e[i]).len() == self.t()
        &&& forall|x: int, y: int, z: int, d: Direction|
            self.in_b(x, y, z) ==> #[trigger] self.family_arc_ok(e, x, y, z, d)
    }

    /// Creates a solver seeded from system entropy; every cell starts as a
    /// copy of `init_val`.
    pub fn new(shape: [usize; 3], init_val: &Bits, node_set: &NodeData) -> (r: Solver)
        requires
            bits_of(*init_val).len() == node_set.spec_nodes().len(),
            node_set.wf(),
            shape[0] * shape[1] <= usize::MAX,
            shape[0] * shape[1] * shape[2] <= usize::MAX,
            forall|n: int, d: Direction|
                0 <= n < node_set.spec_nodes().len() ==> (#[trigger] nb_of(
                    node_set.spec_nodes()[n],
                    d,
                )).len() == node_set.spec_nodes().len(),
        ensures
            r.wf(),
            r.spec_shape() == shape,
            r.nodes().len() == node_set.spec_nodes().len(),
            forall|n: int|
                0 <= n < r.nodes().len() ==> node_eq(
                    #[trigger] r.nodes()[n],
                    node_set.spec_nodes()[n],
                ),
            forall|i: int| 0 <= i < r.cells().len() ==> #[trigger] r.cells()[i] == bits_of(*init_val),
    {
        let mut tr = rng_thread();
        let seed = rng_next_u64(&mut tr);
        Solver::from_seed(shape, init_val, node_set, &seed)
    }

    /// Creates a solver from an explicit seed; every cell starts as a copy
    /// of `init_val`.
    pub fn from_seed(shape: [usize; 3], init_val: &Bits, node_set: &NodeData, seed: &u64) -> (r:
        Solver)
        requires
            bits_of(*init_val).len() == node_set.spec_nodes().len(),
            node_set.wf(),
            shape[0] * shape[1] <= usize::MAX,
            shape[0] * shape[1] * shape[2] <= usize::MAX,
            forall|n: int, d: Direction|
                0 <= n < node_set.spec_nodes().len() ==> (#[trigger] nb_of(
                    node_set.spec_nodes()[n],
                    d,
                )).len() == node_set.spec_nodes().len(),
        ensures
            r.wf(),
            r.spec_shape() == shape,
            r.spec_seed() == *seed,
            r.nodes().len() == node_set.spec_nodes().len(),
            forall|n: int|
                0 <= n < r.nodes().len() ==> node_eq(
                    #[trigger] r.nodes()[n],
                    node_set.spec_nodes()[n],
                ),
            forall|i: int| 0 <= i < r.cells().len() ==> #[trigger] r.cells()[i] == bits_of(*init_val),
    {
        let count = shape[0] * shape[1] * shape[2];
        let mut data: Vec<Bits> = Vec::new();
        let mut k: usize = 0;
        while k < count
            invariant
                k <= count,
                data@.len() == k,
                forall|i: int| 0 <= i < k ==> bits_of(#[trigger] data@[i]) == bits_of(*init_val),
            decreases count - k,
        {
            data.push(bv_clone(init_val));
            k += 1;
        }
        let dict = node_set.node_dict();
        let mut nodes: Vec<Node> = Vec::new();
        let mut n: usize = 0;
        while n < dict.len()
            invariant
                dict@ == node_set.spec_nodes(),
                n <= dict@.len(),
                nodes@.len() == n,
                forall|i: int| 0 <= i < n ==> node_eq(#[trigger] nodes@[i], dict@[i]),
            decreases dict@.len() - n,
        {
            nodes.push(crate::node::copy_node(&dict[n]));
            n += 1;
        }
        let r = Solver {
            data,
            ushape: shape,
            node_dict: nodes,
            rng: rng_from_seed(*seed),
            seed: *seed,
        };
        assert forall|n2: int, d: Direction| 0 <= n2 < r.t() implies (#[trigger] nb_of(
            r.nodes()[n2],
            d,
        )).len() == r.t() by {
            assert(node_eq(r.nodes()[n2], node_set.spec_nodes()[n2]));
            assert(nb_of(node_set.spec_nodes()[n2], d).len() == node_set.spec_nodes().len());
            match d {
                Direction::POSX => {},
                Direction::NEGX => {},
                Direction::POSY => {},
                Direction::NEGY => {},
                Direction::POSZ => {},
                Direction::NEGZ => {},
            }
        }
        r
    }


    /// The flat index of an in-bounds coordinate.
    fn idx_of(&self, pos: &[usize; 3]) -> (r: usize)
        requires
            self.wf(),
            self.in_b(pos[0] as int, pos[1] as int, pos[2] as int),
        ensures
            r == self.idx(pos[0] as int, pos[1] as int, pos[2] as int),
            r < self.cells().len(),
    {
        let dl = self.data.len();
        proof {
            lemma_idx_bounds(
                self.sh(0),
                self.sh(1),
                self.sh(2),
                pos[0] as int,
                pos[1] as int,
                pos[2] as int,
            );
            assert(dl == self.cells().len());
        }
        (pos[0] * self.ushape[1] + pos[1]) * self.ushape[2] + pos[2]
    }

    /// Clears one set option bit; the total option count drops by one.
    fn clear_bit(&mut self, k: usize, j: usize)
        requires
            old(self).wf(),
            k < old(self).cells().len(),
            0 <= j < old(self).t(),
            old(self).cells()[k as int][j as int],
        ensures
            final(self).wf(),
            final(self).same_frame(*old(self)),
            final(self).spec_seed() == old(self).spec_seed(),
            final(self).cells() == old(self).cells().update(
                k as int,
                old(self).cells()[k as int].update(j as int, false),
            ),
            total_count(final(self).cells()) + 1 == total_count(old(self).cells()),
            popcount(final(self).cells()[k as int]) + 1 == popcount(old(self).cells()[k as int]),
    {
        let ghost pre = *self;
        let cellref = &mut self.data[k];
        bv_set(cellref, j, false);
        proof {
            assert(self.cells() =~= pre.cells().update(
                k as int,
                pre.cells()[k as int].update(j as int, false),
            ));
            crate::bitmath::lemma_popcount_update(pre.cells()[k as int], j as int, false);
            crate::bitmath::lemma_total_update(
                pre.cells(),
                k as int,
                pre.cells()[k as int].update(j as int, false),
            );
            assert forall|i: int| 0 <= i < self.cells().len() implies (
            #[trigger] self.cells()[i]).len() == self.t() by {
                if i == k as int {
                    assert(self.cells()[i] == pre.cells()[i].update(j as int, false));
                } else {
                    assert(self.cells()[i] == pre.cells()[i]);
                }
            }
            assert(self.cells().len() == self.sh(0) * self.sh(1) * self.sh(2));
            assert(self.nodes() == old(self).nodes());
            assert forall|n: int, d: Direction| 0 <= n < self.t() implies (#[trigger] nb_of(
                self.nodes()[n],
                d,
            )).len() == self.t() by {
                assert(nb_of(old(self).nodes()[n], d).len() == old(self).t());
            }
            assert(self.wf());
        }
    }

    /// The compatibility row of tile `n` in direction `dir`.
    fn nb_row<'a>(n: &'a Node, dir: &Direction) -> (r: &'a Bits)
        ensures
            bits_of(*r) == nb_of(*n, *dir),
    {
        match dir {
            Direction::POSX => &n.valid_neighbors.px,
            Direction::NEGX => &n.valid_neighbors.nx,
            Direction::POSY => &n.valid_neighbors.py,
            Direction::NEGY => &n.valid_neighbors.ny,
            Direction::POSZ => &n.valid_neighbors.pz,
            Direction::NEGZ => &n.valid_neighbors.nz,
        }
    }

    /// The union of the compatibility rows of every tile set in `node_ids`:
    /// the options the set leaves open one step in direction `dir`.
    fn valid_neighbors_of_set(&self, node_ids: &Bits, dir: &Direction) -> (r: Bits)
        requires
            self.wf(),
            bits_of(*node_ids).len() == self.t(),
        ensures
            bits_of(r).len() == self.t(),
            forall|j: int|
                0 <= j < self.t() ==> bits_of(r)[j] == exists|i: int|
                    0 <= i < self.t() && bits_of(*node_ids)[i] && #[trigger] nb_of(
                        self.nodes()[i],
                        *dir,
                    )[j],
    {
        let t = self.node_dict.len();
        let mut ret = bv_repeat(false, t);
        let mut i: usize = 0;
        while i < t
            invariant
                self.wf(),
                t == self.t(),
                bits_of(*node_ids).len() == t,
                i <= t,
                bits_of(ret).len() == t,
                forall|j: int|
                    0 <= j < t ==> bits_of(ret)[j] == exists|i2: int|
                        0 <= i2 < i && bits_of(*node_ids)[i2] && #[trigger] nb_of(
                            self.nodes()[i2],
                            *dir,
                        )[j],
            decreases t - i,
        {
            if bv_get(node_ids, i) {
                let ghost before = bits_of(ret);
                let row = Solver::nb_row(&self.node_dict[i], dir);
                assert(nb_of(self.nodes()[i as int], *dir).len() == self.t());
                crate::bits::bv_or_assign(&mut ret, row);
                assert forall|j: int| 0 <= j < t implies bits_of(ret)[j] == exists|i2: int|
                    0 <= i2 < i + 1 && bits_of(*node_ids)[i2] && #[trigger] nb_of(
                        self.nodes()[i2],
                        *dir,
                    )[j] by {
                    if bits_of(ret)[j] {
                        if before[j] {
                            let w = choose|i2: int|
                                0 <= i2 < i && bits_of(*node_ids)[i2] && #[trigger] nb_of(
                                    self.nodes()[i2],
                                    *dir,
                                )[j];
                            assert(nb_of(self.nodes()[w], *dir)[j]);
                        } else {
                            assert(nb_of(self.nodes()[i as int], *dir)[j]);
                        }
                    }
                }
            } else {
                assert forall|j: int| 0 <= j < t implies bits_of(ret)[j] == exists|i2: int|
                    0 <= i2 < i + 1 && bits_of(*node_ids)[i2] && #[trigger] nb_of(
                        self.nodes()[i2],
                        *dir,
                    )[j] by {
                    if bits_of(ret)[j] {
                        let w = choose|i2: int|
                            0 <= i2 < i && bits_of(*node_ids)[i2] && #[trigger] nb_of(
                                self.nodes()[i2],
                                *dir,
                            )[j];
                        assert(nb_of(self.nodes()[w], *dir)[j]);
                    }
                }
            }
            i += 1;
        }
        ret
    }

    /// The options the cell at flat index `k` leaves open one step in
    /// direction `dir`.
    fn valid_neighbors(&self, k: usize, dir: &Direction) -> (r: Bits)
        requires
            self.wf(),
            k < self.cells().len(),
        ensures
            bits_of(r).len() == self.t(),
            forall|j: int|
                0 <= j < self.t() ==> bits_of(r)[j] == exists|i: int|
                    0 <= i < self.t() && self.cells()[k as int][i] && #[trigger] nb_of(
                        self.nodes()[i],
                        *dir,
                    )[j],
    {
        assert(bits_of(self.data@[k as int]) == self.cells()[k as int]);
        self.valid_neighbors_of_set(&self.data[k], dir)
    }

    /// The cell one step from `pos` in direction `dir`, if it is in bounds.
    fn add_dir_to_pos(&self, pos: &[usize; 3], dir: &Direction) -> (r: Option<[usize; 3]>)
        requires
            self.wf(),
            self.in_b(pos[0] as int, pos[1] as int, pos[2] as int),
        ensures
            ({
                let p = self.step(pos[0] as int, pos[1] as int, pos[2] as int, *dir);
                match r {
                    Some(q) => self.in_b(p.0, p.1, p.2) && q[0] == p.0 && q[1] == p.1 && q[2]
                        == p.2,
                    None => !self.in_b(p.0, p.1, p.2),
                }
            }),
    {
        let x = pos[0];
        let y = pos[1];
        let z = pos[2];
        match dir {
            Direction::POSX => {
                if x + 1 < self.ushape[0] {
                    Some([x + 1, y, z])
                } else {
                    None
                }
            },
            Direction::NEGX => {
                if x > 0 {
                    Some([x - 1, y, z])
                } else {
                    None
                }
            },
            Direction::POSY => {
                if y + 1 < self.ushape[1] {
                    Some([x, y + 1, z])
                } else {
                    None
                }
            },
            Direction::NEGY => {
                if y > 0 {
                    Some([x, y - 1, z])
                } else {
                    None
                }
            },
            Direction::POSZ => {
                if z + 1 < self.ushape[2] {
                    Some([x, y, z + 1])
                } else {
                    None
                }
            },
            Direction::NEGZ => {
                if z > 0 {
                    Some([x, y, z - 1])
                } else {
                    None
                }
            },
        }
    }

    /// Every cell holds at most one option.
    fn collapsed(&self) -> (r: bool)
        requires
            self.wf(),
        ensures
            r == self.spec_collapsed(),
    {
        let mut k: usize = 0;
        while k < self.data.len()
            invariant
                self.wf(),
                k <= self.cells().len(),
                forall|i: int| 0 <= i < k ==> popcount(#[trigger] self.cells()[i]) <= 1,
            decreases self.cells().len() - k,
        {
            assert(bits_of(self.data@[k as int]) == self.cells()[k as int]);
            if bv_count_ones(&self.data[k]) > 1 {
                return false;
            }
            k += 1;
        }
        true
    }


    /// What the scan knows after the first `n` cells: either none so far has
    /// two options, or `best` holds the first cell attaining the least
    /// entropy of at least two seen so far.
    pub open spec fn min_inv(self, best: Option<([usize; 3], usize)>, n: int) -> bool {
        match best {
            None => forall|i: int| 0 <= i < n ==> popcount(#[trigger] self.cells()[i]) < 2,
            Some(pc) => {
                let p = pc.0;
                let c = pc.1;
                &&& self.in_b(p[0] as int, p[1] as int, p[2] as int)
                &&& self.idx(p[0] as int, p[1] as int, p[2] as int) < n
                &&& popcount(self.cell(p[0] as int, p[1] as int, p[2] as int)) == c
                &&& c >= 2
                &&& forall|i: int|
                    0 <= i < n && popcount(#[trigger] self.cells()[i]) >= 2 ==> c <= popcount(
                        self.cells()[i],
                    )
                &&& forall|i: int|
                    0 <= i < self.idx(p[0] as int, p[1] as int, p[2] as int) ==> popcount(
                        #[trigger] self.cells()[i],
                    ) < 2 || popcount(self.cells()[i]) > c
            },
        }
    }

    /// The first cell, in row-major order, attaining the least entropy of at
    /// least two; `None` when the grid is collapsed.
    fn get_min_entropy_pos(&self) -> (r: Option<[usize; 3]>)
        requires
            self.wf(),
        ensures
            match r {
                None => self.spec_collapsed(),
                Some(p) => self.first_min_cell(p[0] as int, p[1] as int, p[2] as int),
            },
    {
        let sx = self.ushape[0];
        let sy = self.ushape[1];
        let sz = self.ushape[2];
        let mut best: Option<([usize; 3], usize)> = None;
        let mut x: usize = 0;
        proof {
            assert((0 * sy + 0) * sz + 0 == 0) by (nonlinear_arith);
        }
        while x < sx
            invariant
                self.wf(),
                sx == self.sh(0) && sy == self.sh(1) && sz == self.sh(2),
                x <= sx,
                self.min_inv(best, self.idx(x as int, 0, 0)),
                self.idx(x as int, 0, 0) <= self.cells().len(),
            decreases sx - x,
        {
            let mut y: usize = 0;
            while y < sy
                invariant
                    self.wf(),
                    sx == self.sh(0) && sy == self.sh(1) && sz == self.sh(2),
                    x < sx,
                    y <= sy,
                    self.min_inv(best, self.idx(x as int, y as int, 0)),
                    self.idx(x as int, y as int, 0) <= self.cells().len(),
                decreases sy - y,
            {
                let mut z: usize = 0;
                while z < sz
                    invariant
                        self.wf(),
                        sx == self.sh(0) && sy == self.sh(1) && sz == self.sh(2),
                        x < sx,
                        y < sy,
                        z <= sz,
                        self.min_inv(best, self.idx(x as int, y as int, z as int)),
                        self.idx(x as int, y as int, z as int) <= self.cells().len(),
                    decreases sz - z,
                {
                    let pos = [x, y, z];
                    let k = self.idx_of(&pos);
                    assert(bits_of(self.data@[k as int]) == self.cells()[k as int]);
                    let c = bv_count_ones(&self.data[k]);
                    if c >= 2 {
                        match best {
                            None => {
                                best = Some((pos, c));
                            },
                            Some(bc) => {
                                if c < bc.1 {
                                    best = Some((pos, c));
                                }
                            },
                        }
                    }
                    z += 1;
                }
                proof {
                    assert((x * sy + y) * sz + sz == (x * sy + (y + 1)) * sz) by (nonlinear_arith);
                }
                y += 1;
            }
            proof {
                assert((x * sy + sy) * sz == ((x + 1) * sy) * sz) by (nonlinear_arith);
            }
            x += 1;
        }
        proof {
            assert((sx * sy) * sz == sx * sy * sz) by (nonlinear_arith);
        }
        match best {
            None => None,
            Some(bc) => Some(bc.0),
        }
    }

    /// Collapses the cell at flat index `k` to a single random option drawn
    /// uniformly from its set bits.
    fn collapse_at(&mut self, k: usize)
        requires
            old(self).wf(),
            k < old(self).cells().len(),
            popcount(old(self).cells()[k as int]) >= 1,
        ensures
            final(self).wf(),
            final(self).same_frame(*old(self)),
            final(self).spec_seed() == old(self).spec_seed(),
            final(self).cells().len() == old(self).cells().len(),
            forall|i: int|
                0 <= i < final(self).cells().len() && i != k ==> #[trigger] final(self).cells()[i]
                    == old(self).cells()[i],
            subset_of(final(self).cells()[k as int], old(self).cells()[k as int]),
            popcount(final(self).cells()[k as int]) == 1,
    {
        assert(bits_of(self.data@[k as int]) == self.cells()[k as int]);
        let ones = bv_ones(&self.data[k]);
        let pick = rng_gen_range(&mut self.rng, ones.len());
        let to = ones[pick];
        let ghost pre = *self;
        let ghost t = self.t();
        let cellref = &mut self.data[k];
        bv_fill_false(cellref);
        bv_set(cellref, to, true);
        proof {
            let empty = Seq::new(t as nat, |i: int| false);
            let single = empty.update(to as int, true);
            assert(self.cells() =~= pre.cells().update(k as int, single));
            crate::bitmath::lemma_popcount_none(empty);
            crate::bitmath::lemma_popcount_update(empty, to as int, true);
            assert(popcount(single) == 1);
            assert(subset_of(single, pre.cells()[k as int]));
            assert forall|i: int| 0 <= i < self.cells().len() implies (
            #[trigger] self.cells()[i]).len() == self.t() by {
                if i != k as int {
                    assert(self.cells()[i] == pre.cells()[i]);
                } else {
                    assert(self.cells()[i] == single);
                }
            }
            assert(self.cells().len() == pre.cells().len());
            assert(self.cells().len() == self.sh(0) * self.sh(1) * self.sh(2));
            assert(self.nodes() == old(self).nodes());
            assert forall|n: int, d: Direction| 0 <= n < self.t() implies (#[trigger] nb_of(
                self.nodes()[n],
                d,
            )).len() == self.t() by {
                assert(nb_of(old(self).nodes()[n], d).len() == old(self).t());
            }
            assert(self.wf());
        }
    }


    /// Worklist constraint propagation from `pos`, to a fixed point.
    ///
    /// Options only disappear, and the loop terminates because every push is
    /// paid for by a cleared bit: the measure is twice the total option
    /// count plus the worklist length.  If every arc whose source is not
    /// `pos` was consistent or left its source at least two options, that
    /// now holds of every arc.
    #[verifier::rlimit(60)]
    fn propagate_from(&mut self, pos: [usize; 3])
        requires
            old(self).wf(),
            old(self).in_b(pos[0] as int, pos[1] as int, pos[2] as int),
        ensures
            final(self).wf(),
            final(self).same_frame(*old(self)),
            final(self).spec_seed() == old(self).spec_seed(),
            final(self).shrinks_from(*old(self)),
            old(self).near_inv(pos[0] as int, pos[1] as int, pos[2] as int) ==> final(self).inv_ok(),
            old(self).near_arcs_ok(pos[0] as int, pos[1] as int, pos[2] as int) ==> final(self).all_arcs_ok(),
            forall|e: Seq<Seq<bool>>|
                #![trigger old(self).family_ok(e)]
                old(self).family_ok(e) && Solver::family_le(e, old(self).cells()) ==> Solver::family_le(
                    e,
                    final(self).cells(),
                ),
    {
        let ghost h = old(self).near_inv(pos[0] as int, pos[1] as int, pos[2] as int);
        let ghost h2 = old(self).near_arcs_ok(pos[0] as int, pos[1] as int, pos[2] as int);
        let mut pos_stack: Vec<[usize; 3]> = Vec::new();
        pos_stack.push(pos);
        proof {
            assert(pos_stack@[0] == pos);
            assert(on_stack(pos_stack@, pos[0] as int, pos[1] as int, pos[2] as int));
        }
        while pos_stack.len() != 0
            invariant
                self.wf(),
                self.same_frame(*old(self)),
                self.spec_seed() == old(self).spec_seed(),
                self.shrinks_from(*old(self)),
                forall|s: int|
                    0 <= s < pos_stack@.len() ==> self.in_b(
                        (#[trigger] pos_stack@[s])[0] as int,
                        pos_stack@[s][1] as int,
                        pos_stack@[s][2] as int,
                    ),
                forall|e: Seq<Seq<bool>>|
                    #![trigger old(self).family_ok(e)]
                    old(self).family_ok(e) && Solver::family_le(e, old(self).cells())
                        ==> Solver::family_le(e, self.cells()),
                h ==> forall|x: int, y: int, z: int, d: Direction|
                    self.in_b(x, y, z) ==> (#[trigger] self.arc_ok(x, y, z, d) || on_stack(
                        pos_stack@,
                        x,
                        y,
                        z,
                    ) || popcount(self.cell(x, y, z)) >= 2),
                h2 ==> forall|x: int, y: int, z: int, d: Direction|
                    self.in_b(x, y, z) ==> (#[trigger] self.arc_ok(x, y, z, d) || on_stack(
                        pos_stack@,
                        x,
                        y,
                        z,
                    )),
            decreases 2 * total_count(self.cells()) + pos_stack@.len(),
        {
            let ghost m_start = 2 * total_count(self.cells()) + pos_stack@.len();
            let ghost stack_pre = pos_stack@;
            let cur = match pos_stack.pop() {
                Some(c) => c,
                None => {
                    proof {
                        assert(false);
                    }
                    [0, 0, 0]
                },
            };
            let ghost state0 = *self;
            let ghost stack0 = pos_stack@;
            let ghost m0 = 2 * total_count(self.cells()) + pos_stack@.len();
            let curf = self.idx_of(&cur);
            proof {
                assert(m0 + 1 == m_start);
                if h {
                    assert forall|x: int, y: int, z: int, d: Direction|
                        self.in_b(x, y, z) implies (#[trigger] self.arc_ok(x, y, z, d) || on_stack(
                        pos_stack@,
                        x,
                        y,
                        z,
                    ) || popcount(self.cell(x, y, z)) >= 2 || (x == cur[0] as int && y
                        == cur[1] as int && z == cur[2] as int)) by {
                        if !self.arc_ok(x, y, z, d) && popcount(self.cell(x, y, z)) < 2 {
                            assert(on_stack(stack_pre, x, y, z));
                            let w = choose|w: int|
                                0 <= w < stack_pre.len() && (#[trigger] stack_pre[w])[0] == x
                                    && stack_pre[w][1] == y && stack_pre[w][2] == z;
                            if w < stack0.len() {
                                assert(stack0[w] == stack_pre[w]);
                                assert(on_stack(stack0, x, y, z));
                            } else {
                                assert(stack_pre[w] == cur);
                            }
                        }
                    }
                }
                if h2 {
                    assert forall|x: int, y: int, z: int, d: Direction|
                        self.in_b(x, y, z) implies (#[trigger] self.arc_ok(x, y, z, d) || on_stack(
                        pos_stack@,
                        x,
                        y,
                        z,
                    ) || (x == cur[0] as int && y == cur[1] as int && z == cur[2] as int)) by {
                        if !self.arc_ok(x, y, z, d) {
                            assert(on_stack(stack_pre, x, y, z));
                            let w = choose|w: int|
                                0 <= w < stack_pre.len() && (#[trigger] stack_pre[w])[0] == x
                                    && stack_pre[w][1] == y && stack_pre[w][2] == z;
                            if w < stack0.len() {
                                assert(stack0[w] == stack_pre[w]);
                                assert(on_stack(stack0, x, y, z));
                            } else {
                                assert(stack_pre[w] == cur);
                            }
                        }
                    }
                }
            }
            let mut di: usize = 0;
            while di < 6
                invariant
                    di <= 6,
                    self.wf(),
                    self.same_frame(*old(self)),
                    self.same_frame(state0),
                    self.spec_seed() == old(self).spec_seed(),
                    self.shrinks_from(*old(self)),
                    self.cells().len() == state0.cells().len(),
                    self.in_b(cur[0] as int, cur[1] as int, cur[2] as int),
                    curf == self.idx(cur[0] as int, cur[1] as int, cur[2] as int),
                    curf < self.cells().len(),
                    self.cells()[curf as int] == state0.cells()[curf as int],
                    forall|s: int|
                        0 <= s < pos_stack@.len() ==> self.in_b(
                            (#[trigger] pos_stack@[s])[0] as int,
                            pos_stack@[s][1] as int,
                            pos_stack@[s][2] as int,
                        ),
                    2 * total_count(self.cells()) + pos_stack@.len() <= m0,
                    forall|e: Seq<Seq<bool>>|
                    #![trigger old(self).family_ok(e)]
                    old(self).family_ok(e) && Solver::family_le(e, old(self).cells())
                        ==> Solver::family_le(e, self.cells()),
                    h ==> forall|x: int, y: int, z: int, d: Direction|
                        self.in_b(x, y, z) ==> (#[trigger] self.arc_ok(x, y, z, d) || on_stack(
                            pos_stack@,
                            x,
                            y,
                            z,
                        ) || popcount(self.cell(x, y, z)) >= 2 || (x == cur[0] as int && y
                            == cur[1] as int && z == cur[2] as int && dir_ix(d) >= di)),
                    h2 ==> forall|x: int, y: int, z: int, d: Direction|
                        self.in_b(x, y, z) ==> (#[trigger] self.arc_ok(x, y, z, d) || on_stack(
                            pos_stack@,
                            x,
                            y,
                            z,
                        ) || (x == cur[0] as int && y == cur[1] as int && z == cur[2] as int
                            && dir_ix(d) >= di)),
                decreases 6 - di,
            {
                let dir = dir_from_index(di);
                let step_to = self.add_dir_to_pos(&cur, &dir);
                match step_to {
                    None => {
                        proof {
                            assert(self.arc_ok(cur[0] as int, cur[1] as int, cur[2] as int, dir));
                        }
                    },
                    Some(other) => {
                        let otherf = self.idx_of(&other);
                        proof {
                            if otherf == curf {
                                lemma_idx_inj(
                                    self.sh(1),
                                    self.sh(2),
                                    other[0] as int,
                                    other[1] as int,
                                    other[2] as int,
                                    cur[0] as int,
                                    cur[1] as int,
                                    cur[2] as int,
                                );
                                assert(false);
                            }
                        }
                        let allowed = self.valid_neighbors(curf, &dir);
                        let ghost dstate = *self;
                        let ghost dstack = pos_stack@;
                        let ghost md = 2 * total_count(self.cells()) + pos_stack@.len();
                        let t = self.node_dict.len();
                        let mut pushed = false;
                        let mut j: usize = 0;
                        while j < t
                            invariant
                                t == self.t(),
                                j <= t,
                                self.wf(),
                                self.same_frame(dstate),
                                self.same_frame(*old(self)),
                                self.shrinks_from(*old(self)),
                                self.spec_seed() == dstate.spec_seed(),
                                self.cells().len() == dstate.cells().len(),
                                otherf < self.cells().len(),
                                curf < self.cells().len(),
                                otherf != curf,
                                self.in_b(other[0] as int, other[1] as int, other[2] as int),
                                otherf == self.idx(other[0] as int, other[1] as int, other[2] as int),
                                ({
                                    let p = self.step(cur[0] as int, cur[1] as int, cur[2] as int, dir);
                                    p.0 == other[0] as int && p.1 == other[1] as int && p.2 == other[2] as int
                                }),
                                self.in_b(cur[0] as int, cur[1] as int, cur[2] as int),
                                curf == self.idx(cur[0] as int, cur[1] as int, cur[2] as int),
                                bits_of(allowed).len() == t,
                                forall|e: int|
                                    0 <= e < t ==> (bits_of(allowed)[e] == exists|i: int|
                                        0 <= i < t && dstate.cells()[curf as int][i]
                                            && #[trigger] nb_of(dstate.nodes()[i], dir)[e]),
                                forall|i: int|
                                    0 <= i < self.cells().len() && i != otherf
                                        ==> #[trigger] self.cells()[i] == dstate.cells()[i],
                                forall|e: int|
                                    0 <= e < t ==> (#[trigger] self.cells()[otherf as int][e] == (
                                    dstate.cells()[otherf as int][e] && !(e < j && !bits_of(
                                        allowed,
                                    )[e]))),
                                pushed ==> pos_stack@ == dstack.push(other),
                                !pushed ==> pos_stack@ == dstack && self.cells()
                                    == dstate.cells(),
                                pushed ==> 2 * total_count(self.cells()) + pos_stack@.len() + 1
                                    <= md,
                                !pushed ==> 2 * total_count(self.cells()) + pos_stack@.len()
                                    == md,
                                forall|e: Seq<Seq<bool>>|
                    #![trigger old(self).family_ok(e)]
                    old(self).family_ok(e) && Solver::family_le(e, old(self).cells())
                        ==> Solver::family_le(e, self.cells()),
                                h ==> forall|x: int, y: int, z: int, d: Direction|
                                    self.in_b(x, y, z) ==> (#[trigger] self.arc_ok(x, y, z, d)
                                        || on_stack(pos_stack@, x, y, z) || popcount(
                                        self.cell(x, y, z),
                                    ) >= 2 || (x == cur[0] as int && y == cur[1] as int && z
                                        == cur[2] as int && dir_ix(d) >= di)),
                                h2 ==> forall|x: int, y: int, z: int, d: Direction|
                                    self.in_b(x, y, z) ==> (#[trigger] self.arc_ok(x, y, z, d)
                                        || on_stack(pos_stack@, x, y, z) || (x == cur[0] as int
                                        && y == cur[1] as int && z == cur[2] as int && dir_ix(d)
                                        >= di)),
                            decreases t - j,
                        {
                            assert(bits_of(self.data@[otherf as int])
                                == self.cells()[otherf as int]);
                            let bit_set = bv_get(&self.data[otherf], j);
                            let bit_allowed = bv_get(&allowed, j);
                            if bit_set && !bit_allowed {
                                let ghost pre_clear = *self;
                                let ghost prestack = pos_stack@;
                                self.clear_bit(otherf, j);
                                assert(self.cells()[otherf as int] == pre_clear.cells()[
                                    otherf as int
                                ].update(j as int, false));
                                proof {
                                    assert forall|i2: int|
                                        0 <= i2 < self.cells().len() implies subset_of(
                                        #[trigger] self.cells()[i2],
                                        pre_clear.cells()[i2],
                                    ) by {
                                        if i2 != otherf {
                                            assert(self.cells()[i2] == pre_clear.cells()[i2]);
                                        }
                                    }
                                    lemma_shrink_trans(*old(self), pre_clear, *self);
                                    assert forall|e: Seq<Seq<bool>>|
                                        old(self).family_ok(e) && Solver::family_le(
                                            e,
                                            old(self).cells(),
                                        ) implies Solver::family_le(e, self.cells()) by {
                                        assert(Solver::family_le(e, pre_clear.cells()));
                                        let cx = cur[0] as int;
                                        let cy = cur[1] as int;
                                        let cz = cur[2] as int;
                                        assert(old(self).sh(0) == self.sh(0) && old(self).sh(1)
                                            == self.sh(1) && old(self).sh(2) == self.sh(2));
                                        assert(old(self).in_b(cx, cy, cz));
                                        assert(old(self).family_arc_ok(e, cx, cy, cz, dir));
                                        let p = old(self).step(cx, cy, cz, dir);
                                        assert(p.0 == other[0] as int && p.1 == other[1] as int
                                            && p.2 == other[2] as int);
                                        assert(old(self).idx(p.0, p.1, p.2) == otherf as int);
                                        assert(old(self).idx(cx, cy, cz) == curf as int);
                                        if e[otherf as int][j as int] {
                                            assert(old(self).in_b(p.0, p.1, p.2));
                                            assert(e[old(self).idx(p.0, p.1, p.2)][j as int]);
                                            let i = choose|i: int|
                                                0 <= i < old(self).t() && e[curf as int][i]
                                                    && #[trigger] nb_of(
                                                    old(self).nodes()[i],
                                                    dir,
                                                )[j as int];
                                            assert(subset_of(
                                                e[curf as int],
                                                pre_clear.cells()[curf as int],
                                            ));
                                            assert(pre_clear.cells()[curf as int][i]);
                                            assert(dstate.cells()[curf as int][i]);
                                            assert(nb_of(dstate.nodes()[i], dir)[j as int]);
                                            assert(bits_of(allowed)[j as int]);
                                            assert(false);
                                        }
                                        assert forall|i2: int|
                                            0 <= i2 < e.len() implies subset_of(
                                            #[trigger] e[i2],
                                            self.cells()[i2],
                                        ) by {
                                            assert(subset_of(e[i2], pre_clear.cells()[i2]));
                                            if i2 == otherf as int {
                                                assert forall|b: int|
                                                    0 <= b < e[i2].len() && e[i2][b] implies
                                                    self.cells()[i2][b] by {
                                                    assert(b != j as int);
                                                    assert(pre_clear.cells()[i2][b]);
                                                }
                                            } else {
                                                assert(self.cells()[i2] == pre_clear.cells()[i2]);
                                            }
                                        }
                                    }
                                }
                                assert forall|e: int| 0 <= e < t implies (
                                #[trigger] self.cells()[otherf as int][e] == (dstate.cells()[
                                    otherf as int
                                ][e] && !(e < j + 1 && !bits_of(allowed)[e]))) by {
                                    if e != j {
                                        assert(self.cells()[otherf as int][e]
                                            == pre_clear.cells()[otherf as int][e]);
                                    }
                                }
                                if !pushed {
                                    pos_stack.push(other);
                                    pushed = true;
                                }
                                proof {
                                    assert(on_stack(
                                        pos_stack@,
                                        other[0] as int,
                                        other[1] as int,
                                        other[2] as int,
                                    )) by {
                                        assert(pos_stack@[pos_stack@.len() - 1] == other
                                            || pos_stack@ == prestack.push(other)
                                            || on_stack(prestack, other[0] as int, other[1] as int, other[2] as int));
                                        if pos_stack@ == prestack {
                                            assert(on_stack(
                                                prestack,
                                                other[0] as int,
                                                other[1] as int,
                                                other[2] as int,
                                            ));
                                        } else {
                                            assert(pos_stack@[pos_stack@.len() - 1] == other);
                                        }
                                    }
                                    if h {
                                        assert forall|x: int, y: int, z: int, d: Direction|
                                            self.in_b(x, y, z) implies (#[trigger] self.arc_ok(
                                            x,
                                            y,
                                            z,
                                            d,
                                        ) || on_stack(pos_stack@, x, y, z) || popcount(
                                            self.cell(x, y, z),
                                        ) >= 2 || (x == cur[0] as int && y == cur[1] as int && z
                                            == cur[2] as int && dir_ix(d) >= di)) by {
                                            lemma_idx_bounds(
                                                self.sh(0),
                                                self.sh(1),
                                                self.sh(2),
                                                x,
                                                y,
                                                z,
                                            );
                                            if x == other[0] as int && y == other[1] as int && z
                                                == other[2] as int {
                                                assert(on_stack(pos_stack@, x, y, z));
                                            } else {
                                                if pre_clear.idx(x, y, z) == otherf {
                                                    lemma_idx_inj(
                                                        self.sh(1),
                                                        self.sh(2),
                                                        x,
                                                        y,
                                                        z,
                                                        other[0] as int,
                                                        other[1] as int,
                                                        other[2] as int,
                                                    );
                                                    assert(false);
                                                }
                                                if pre_clear.arc_ok(x, y, z, d) {
                                                    lemma_arc_preserved(
                                                        pre_clear,
                                                        *self,
                                                        otherf as int,
                                                        x,
                                                        y,
                                                        z,
                                                        d,
                                                    );
                                                } else if on_stack(prestack, x, y, z) {
                                                    let w = choose|w: int|
                                                        0 <= w < prestack.len() && (
                                                        #[trigger] prestack[w])[0] == x
                                                            && prestack[w][1] == y && prestack[w][2]
                                                            == z;
                                                    assert(pos_stack@[w] == prestack[w]);
                                                    assert(on_stack(pos_stack@, x, y, z));
                                                } else {
                                                    assert(self.cells()[pre_clear.idx(x, y, z)]
                                                        == pre_clear.cells()[pre_clear.idx(
                                                        x,
                                                        y,
                                                        z,
                                                    )]);
                                                }
                                            }
                                        }
                                    }
                                    if h2 {
                                        assert forall|x: int, y: int, z: int, d: Direction|
                                            self.in_b(x, y, z) implies (#[trigger] self.arc_ok(
                                            x,
                                            y,
                                            z,
                                            d,
                                        ) || on_stack(pos_stack@, x, y, z) || (x == cur[0] as int
                                            && y == cur[1] as int && z == cur[2] as int && dir_ix(
                                            d,
                                        ) >= di)) by {
                                            lemma_idx_bounds(
                                                self.sh(0),
                                                self.sh(1),
                                                self.sh(2),
                                                x,
                                                y,
                                                z,
                                            );
                                            if x == other[0] as int && y == other[1] as int && z
                                                == other[2] as int {
                                                assert(on_stack(pos_stack@, x, y, z));
                                            } else {
                                                if pre_clear.idx(x, y, z) == otherf {
                                                    lemma_idx_inj(
                                                        self.sh(1),
                                                        self.sh(2),
                                                        x,
                                                        y,
                                                        z,
                                                        other[0] as int,
                                                        other[1] as int,
                                                        other[2] as int,
                                                    );
                                                    assert(false);
                                                }
                                                if pre_clear.arc_ok(x, y, z, d) {
                                                    lemma_arc_preserved(
                                                        pre_clear,
                                                        *self,
                                                        otherf as int,
                                                        x,
                                                        y,
                                                        z,
                                                        d,
                                                    );
                                                } else if on_stack(prestack, x, y, z) {
                                                    let w = choose|w: int|
                                                        0 <= w < prestack.len() && (
                                                        #[trigger] prestack[w])[0] == x
                                                            && prestack[w][1] == y && prestack[w][2]
                                                            == z;
                                                    assert(pos_stack@[w] == prestack[w]);
                                                    assert(on_stack(pos_stack@, x, y, z));
                                                }
                                            }
                                        }
                                    }
                                }
                            }
                            if !(bit_set && !bit_allowed) {
                                assert forall|e: int| 0 <= e < t implies (
                                #[trigger] self.cells()[otherf as int][e] == (dstate.cells()[
                                    otherf as int
                                ][e] && !(e < j + 1 && !bits_of(allowed)[e]))) by {
                                    if e == j {
                                        assert(self.cells()[otherf as int][j as int] == (bit_set
                                            && bit_allowed) || !bit_set);
                                    }
                                }
                            }
                            j += 1;
                        }
                        proof {
                            assert(self.arc_ok(
                                cur[0] as int,
                                cur[1] as int,
                                cur[2] as int,
                                dir,
                            )) by {
                                let p = self.step(cur[0] as int, cur[1] as int, cur[2] as int, dir);
                                assert(p.0 == other[0] as int && p.1 == other[1] as int && p.2
                                    == other[2] as int);
                                assert(self.cells()[curf as int] == dstate.cells()[curf as int]);
                                assert forall|e: int|
                                    0 <= e < self.t() && (#[trigger] self.cell(p.0, p.1, p.2)[e])
                                    implies self.supports(
                                    cur[0] as int,
                                    cur[1] as int,
                                    cur[2] as int,
                                    dir,
                                    e,
                                ) by {
                                    assert(self.cell(p.0, p.1, p.2) == self.cells()[otherf as int]);
                                    assert(bits_of(allowed)[e]);
                                    let i = choose|i: int|
                                        0 <= i < self.t() && dstate.cells()[curf as int][i]
                                            && #[trigger] nb_of(dstate.nodes()[i], dir)[e];
                                    assert(self.cell(
                                        cur[0] as int,
                                        cur[1] as int,
                                        cur[2] as int,
                                    )[i]);
                                }
                            }
                        }
                    },
                }
                di += 1;
            }
            proof {
                assert(forall|d: Direction| 0 <= #[trigger] dir_ix(d) < 6);
                assert(2 * total_count(self.cells()) + pos_stack@.len() < m_start);
            }
        }
        proof {
            if h {
                assert forall|x: int, y: int, z: int, d: Direction|
                    self.in_b(x, y, z) implies (#[trigger] self.arc_ok(x, y, z, d) || popcount(
                    self.cell(x, y, z),
                ) >= 2) by {
                    assert(!on_stack(pos_stack@, x, y, z));
                }
            }
            if h2 {
                assert forall|x: int, y: int, z: int, d: Direction|
                    self.in_b(x, y, z) implies #[trigger] self.arc_ok(x, y, z, d) by {
                    assert(!on_stack(pos_stack@, x, y, z));
                }
            }
        }
    }


    /// One solver step: pick the first least-entropy cell with at least two
    /// options, collapse it, propagate.  A collapsed grid is left alone.
    fn iterate(&mut self)
        requires
            old(self).wf(),
        ensures
            final(self).wf(),
            final(self).same_frame(*old(self)),
            final(self).spec_seed() == old(self).spec_seed(),
            final(self).shrinks_from(*old(self)),
            old(self).inv_ok() ==> final(self).inv_ok(),
            old(self).all_arcs_ok() ==> final(self).all_arcs_ok(),
            !old(self).spec_collapsed() ==> total_count(final(self).cells()) < total_count(
                old(self).cells(),
            ),
            !old(self).spec_collapsed() ==> exists|x: int, y: int, z: int, k: int|
                old(self).first_min_cell(x, y, z) && 0 <= k < old(self).t() && (
                #[trigger] old(self).cell(x, y, z)[k]) && forall|j: int|
                    0 <= j < final(self).t() && #[trigger] final(self).cell(x, y, z)[j] ==> j == k,
            old(self).spec_collapsed() ==> final(self).cells() == old(self).cells(),
    {
        let pos = match self.get_min_entropy_pos() {
            None => {
                proof {
                    assert forall|i: int| 0 <= i < self.cells().len() implies subset_of(
                        #[trigger] self.cells()[i],
                        self.cells()[i],
                    ) by {}
                }
                return ;
            },
            Some(p) => p,
        };
        proof {
            if old(self).spec_collapsed() {
                lemma_idx_bounds(
                    self.sh(0),
                    self.sh(1),
                    self.sh(2),
                    pos[0] as int,
                    pos[1] as int,
                    pos[2] as int,
                );
                assert(popcount(
                    self.cells()[self.idx(pos[0] as int, pos[1] as int, pos[2] as int)],
                ) <= 1);
                assert(false);
            }
        }
        let k = self.idx_of(&pos);
        let ghost before = *self;
        self.collapse_at(k);
        let ghost mid = *self;
        proof {
            assert(popcount(mid.cells()[k as int]) < popcount(before.cells()[k as int]));
            assert forall|i: int|
                0 <= i < mid.cells().len() implies popcount(#[trigger] mid.cells()[i]) <= popcount(
                before.cells()[i],
            ) by {
                if i == k as int {
                    crate::bitmath::lemma_popcount_subset(mid.cells()[i], before.cells()[i]);
                } else {
                    assert(mid.cells()[i] == before.cells()[i]);
                }
            }
            crate::bitmath::lemma_total_pointwise_strict(
                mid.cells(),
                before.cells(),
                k as int,
            );
            if before.inv_ok() {
                assert forall|x: int, y: int, z: int, d: Direction|
                    mid.in_b(x, y, z) implies ((x == pos[0] as int && y == pos[1] as int && z
                    == pos[2] as int) || #[trigger] mid.arc_ok(x, y, z, d) || popcount(
                    mid.cell(x, y, z),
                ) >= 2) by {
                    if !(x == pos[0] as int && y == pos[1] as int && z == pos[2] as int) {
                        lemma_idx_bounds(mid.sh(0), mid.sh(1), mid.sh(2), x, y, z);
                        if mid.idx(x, y, z) == k as int {
                            lemma_idx_inj(
                                mid.sh(1),
                                mid.sh(2),
                                x,
                                y,
                                z,
                                pos[0] as int,
                                pos[1] as int,
                                pos[2] as int,
                            );
                            assert(false);
                        }
                        assert(mid.cell(x, y, z) == before.cell(x, y, z));
                        if before.arc_ok(x, y, z, d) {
                            lemma_arc_preserved(before, mid, k as int, x, y, z, d);
                        }
                    }
                }
                assert(mid.near_inv(pos[0] as int, pos[1] as int, pos[2] as int));
            }
            if before.all_arcs_ok() {
                assert forall|x: int, y: int, z: int, d: Direction|
                    mid.in_b(x, y, z) implies ((x == pos[0] as int && y == pos[1] as int && z
                    == pos[2] as int) || #[trigger] mid.arc_ok(x, y, z, d)) by {
                    if !(x == pos[0] as int && y == pos[1] as int && z == pos[2] as int) {
                        lemma_idx_bounds(mid.sh(0), mid.sh(1), mid.sh(2), x, y, z);
                        if mid.idx(x, y, z) == k as int {
                            lemma_idx_inj(
                                mid.sh(1),
                                mid.sh(2),
                                x,
                                y,
                                z,
                                pos[0] as int,
                                pos[1] as int,
                                pos[2] as int,
                            );
                            assert(false);
                        }
                        lemma_arc_preserved(before, mid, k as int, x, y, z, d);
                    }
                }
                assert(mid.near_arcs_ok(pos[0] as int, pos[1] as int, pos[2] as int));
            }
        }
        self.propagate_from(pos);
        proof {
            assert forall|i: int|
                0 <= i < self.cells().len() implies subset_of(
                #[trigger] self.cells()[i],
                before.cells()[i],
            ) by {
                assert(subset_of(self.cells()[i], mid.cells()[i]));
                if i == k as int {
                    assert(subset_of(mid.cells()[i], before.cells()[i]));
                } else {
                    assert(mid.cells()[i] == before.cells()[i]);
                }
            }
            assert forall|i: int|
                0 <= i < self.cells().len() implies popcount(#[trigger] self.cells()[i])
                <= popcount(mid.cells()[i]) by {
                crate::bitmath::lemma_popcount_subset(self.cells()[i], mid.cells()[i]);
            }
            crate::bitmath::lemma_total_pointwise(self.cells(), mid.cells());
            let px = pos[0] as int;
            let py = pos[1] as int;
            let pz = pos[2] as int;
            crate::bitmath::lemma_popcount_none(mid.cells()[k as int]);
            let kb = choose|kb: int| 0 <= kb < mid.cells()[k as int].len() && mid.cells()[
                k as int
            ][kb];
            assert(before.cell(px, py, pz)[kb]);
            assert(before.first_min_cell(px, py, pz));
            assert forall|j: int|
                0 <= j < self.t() && #[trigger] self.cell(px, py, pz)[j] implies j == kb by {
                assert(subset_of(self.cells()[k as int], mid.cells()[k as int]));
                assert(mid.cells()[k as int][j]);
                crate::bitmath::lemma_popcount_one_unique(mid.cells()[k as int], j, kb);
            }
        }
    }

    /// Runs the solver to a fully collapsed grid and reads it out.
    ///
    /// Returns the chosen tile of every cell in flat row-major order, or
    /// `None` when some cell ended with no option left.  When every arc of
    /// the starting state was consistent or left its source at least two
    /// options, a returned assignment is compatible across every pair of
    /// adjacent cells.
    pub fn solve(&mut self) -> (r: Option<Vec<usize>>)
        requires
            old(self).wf(),
        ensures
            final(self).wf(),
            final(self).same_frame(*old(self)),
            final(self).spec_seed() == old(self).spec_seed(),
            final(self).shrinks_from(*old(self)),
            final(self).spec_collapsed(),
            old(self).inv_ok() ==> final(self).inv_ok(),
            old(self).all_arcs_ok() ==> final(self).all_arcs_ok(),
            old(self).spec_collapsed() ==> final(self).cells() == old(self).cells(),
            (forall|i: int|
                0 <= i < final(self).cells().len() ==> popcount(#[trigger] final(self).cells()[i])
                    >= 1) ==> r is Some,
            old(self).spec_collapsed() && (forall|i: int|
                0 <= i < old(self).cells().len() ==> popcount(#[trigger] old(self).cells()[i])
                    >= 1) ==> r is Some,
            match r {
                Some(out) => {
                    &&& out@.len() == final(self).cells().len()
                    &&& forall|i: int|
                        0 <= i < out@.len() ==> popcount(#[trigger] final(self).cells()[i]) == 1
                            && out@[i] < final(self).t() && final(self).cells()[i][out@[i] as int]
                    &&& old(self).inv_ok() ==> forall|x: int, y: int, z: int, d: Direction|
                        #![trigger final(self).step(x, y, z, d)]
                        ({
                            let q = final(self).step(x, y, z, d);
                            final(self).in_b(x, y, z) && final(self).in_b(q.0, q.1, q.2)
                                ==> nb_of(
                                final(self).nodes()[out@[final(self).idx(x, y, z)] as int],
                                d,
                            )[out@[final(self).idx(q.0, q.1, q.2)] as int]
                        })
                },
                None => exists|i: int|
                    0 <= i < final(self).cells().len() && popcount(
                        #[trigger] final(self).cells()[i],
                    ) == 0,
            },
    {
        while !self.collapsed()
            invariant
                self.wf(),
                self.same_frame(*old(self)),
                self.spec_seed() == old(self).spec_seed(),
                self.shrinks_from(*old(self)),
                old(self).inv_ok() ==> self.inv_ok(),
                old(self).all_arcs_ok() ==> self.all_arcs_ok(),
                old(self).spec_collapsed() ==> self.cells() == old(self).cells(),
            decreases total_count(self.cells()),
        {
            let ghost pre = *self;
            self.iterate();
            proof {
                assert forall|i: int|
                    0 <= i < self.cells().len() implies subset_of(
                    #[trigger] self.cells()[i],
                    old(self).cells()[i],
                ) by {
                    assert(subset_of(self.cells()[i], pre.cells()[i]));
                    assert(subset_of(pre.cells()[i], old(self).cells()[i]));
                }
            }
        }
        let n = self.data.len();
        let mut ret: Vec<usize> = Vec::new();
        let mut k: usize = 0;
        while k < n
            invariant
                self.wf(),
                self.same_frame(*old(self)),
                self.spec_seed() == old(self).spec_seed(),
                self.shrinks_from(*old(self)),
                old(self).inv_ok() ==> self.inv_ok(),
                old(self).all_arcs_ok() ==> self.all_arcs_ok(),
                old(self).spec_collapsed() ==> self.cells() == old(self).cells(),
                self.spec_collapsed(),
                n == self.cells().len(),
                k <= n,
                ret@.len() == k,
                forall|i: int|
                    0 <= i < k ==> popcount(#[trigger] self.cells()[i]) == 1 && ret@[i] < self.t()
                        && self.cells()[i][ret@[i] as int],
            decreases n - k,
        {
            assert(bits_of(self.data@[k as int]) == self.cells()[k as int]);
            match bv_first_one(&self.data[k]) {
                None => {
                    proof {
                        crate::bitmath::lemma_popcount_none(self.cells()[k as int]);
                        assert(popcount(self.cells()[k as int]) == 0);
                        if old(self).spec_collapsed() {
                            assert(popcount(old(self).cells()[k as int]) == 0);
                        }
                    }
                    return None;
                },
                Some(b) => {
                    proof {
                        crate::bitmath::lemma_popcount_none(self.cells()[k as int]);
                    }
                    ret.push(b);
                },
            }
            k += 1;
        }
        proof {
            if old(self).inv_ok() {
                assert forall|x: int, y: int, z: int, d: Direction|
                    #![trigger self.step(x, y, z, d)]
                    ({
                        let q = self.step(x, y, z, d);
                        self.in_b(x, y, z) && self.in_b(q.0, q.1, q.2) ==> nb_of(
                            self.nodes()[ret@[self.idx(x, y, z)] as int],
                            d,
                        )[ret@[self.idx(q.0, q.1, q.2)] as int]
                    }) by {
                    let q = self.step(x, y, z, d);
                    if self.in_b(x, y, z) && self.in_b(q.0, q.1, q.2) {
                        lemma_idx_bounds(self.sh(0), self.sh(1), self.sh(2), x, y, z);
                        lemma_idx_bounds(self.sh(0), self.sh(1), self.sh(2), q.0, q.1, q.2);
                        let p_ix = self.idx(x, y, z);
                        let q_ix = self.idx(q.0, q.1, q.2);
                        assert(self.arc_ok(x, y, z, d));
                        assert(self.cell(q.0, q.1, q.2)[ret@[q_ix] as int]);
                        assert(self.supports(x, y, z, d, ret@[q_ix] as int));
                        let i = choose|i: int|
                            0 <= i < self.t() && self.cell(x, y, z)[i] && #[trigger] nb_of(
                                self.nodes()[i],
                                d,
                            )[ret@[q_ix] as int];
                        crate::bitmath::lemma_popcount_one_unique(
                            self.cell(x, y, z),
                            i,
                            ret@[p_ix] as int,
                        );
                    }
                }
            }
        }
        Some(ret)
    }

    /// Clears one option at a cell, leaving everything else alone.
    fn constrain(&mut self, pos: &[usize; 3], id: usize)
        requires
            old(self).wf(),
            old(self).in_b(pos[0] as int, pos[1] as int, pos[2] as int),
            0 <= id < old(self).t(),
        ensures
            final(self).wf(),
            final(self).same_frame(*old(self)),
            final(self).spec_seed() == old(self).spec_seed(),
            final(self).cells() == old(self).cells().update(
                old(self).idx(pos[0] as int, pos[1] as int, pos[2] as int),
                old(self).cells()[old(self).idx(pos[0] as int, pos[1] as int, pos[2] as int)].update(
                    id as int,
                    false,
                ),
            ),
    {
        let k = self.idx_of(pos);
        assert(bits_of(self.data@[k as int]) == self.cells()[k as int]);
        if bv_get(&self.data[k], id) {
            self.clear_bit(k, id);
        } else {
            proof {
                assert(old(self).cells()[k as int].update(id as int, false) =~= old(self).cells()[
                    k as int
                ]);
                assert(old(self).cells().update(k as int, old(self).cells()[k as int]) =~= old(
                    self,
                ).cells());
            }
        }
    }

    /// Removes every option named in `bits` from the cell at `pos`, then
    /// propagates from there.
    pub fn constrain_list(&mut self, pos: &[usize; 3], bits: &Bits)
        requires
            old(self).wf(),
            old(self).in_b(pos[0] as int, pos[1] as int, pos[2] as int),
            bits_of(*bits).len() == old(self).t(),
        ensures
            final(self).wf(),
            final(self).same_frame(*old(self)),
            final(self).spec_seed() == old(self).spec_seed(),
            final(self).shrinks_from(*old(self)),
            forall|j: int|
                0 <= j < final(self).t() && bits_of(*bits)[j] ==> !(#[trigger] final(self).cell(
                    pos[0] as int,
                    pos[1] as int,
                    pos[2] as int,
                )[j]),
            old(self).inv_ok() ==> final(self).inv_ok(),
            old(self).all_arcs_ok() ==> final(self).all_arcs_ok(),
            forall|e: Seq<Seq<bool>>|
                #![trigger old(self).family_ok(e)]
                old(self).family_ok(e) && Solver::family_le(e, old(self).cells()) && (forall|j: int|
                    0 <= j < old(self).t() && bits_of(*bits)[j] ==> !(#[trigger] e[old(self).idx(
                        pos[0] as int,
                        pos[1] as int,
                        pos[2] as int,
                    )][j])) ==> Solver::family_le(e, final(self).cells()),
    {
        let k = self.idx_of(pos);
        let t = self.node_dict.len();
        let ghost before = *self;
        let mut j: usize = 0;
        while j < t
            invariant
                self.wf(),
                self.same_frame(before),
                self.spec_seed() == before.spec_seed(),
                before.wf(),
                t == self.t(),
                j <= t,
                bits_of(*bits).len() == t,
                forall|e: Seq<Seq<bool>>|
                    #![trigger before.family_ok(e)]
                    before.family_ok(e) && Solver::family_le(e, before.cells()) && (forall|j2: int|
                        0 <= j2 < t && bits_of(*bits)[j2] ==> !(#[trigger] e[k as int][j2]))
                        ==> Solver::family_le(e, self.cells()),
                self.in_b(pos[0] as int, pos[1] as int, pos[2] as int),
                k == self.idx(pos[0] as int, pos[1] as int, pos[2] as int),
                k < self.cells().len(),
                self.cells().len() == before.cells().len(),
                forall|i: int|
                    0 <= i < self.cells().len() && i != k ==> #[trigger] self.cells()[i]
                        == before.cells()[i],
                subset_of(self.cells()[k as int], before.cells()[k as int]),
                forall|e: int|
                    0 <= e < j && bits_of(*bits)[e] ==> !(#[trigger] self.cells()[k as int][e]),
            decreases t - j,
        {
            if bv_get(bits, j) {
                self.constrain(pos, j);
            }
            j += 1;
        }
        let ghost mid = *self;
        proof {
            if before.inv_ok() {
                assert forall|x: int, y: int, z: int, d: Direction|
                    mid.in_b(x, y, z) implies ((x == pos[0] as int && y == pos[1] as int && z
                    == pos[2] as int) || #[trigger] mid.arc_ok(x, y, z, d) || popcount(
                    mid.cell(x, y, z),
                ) >= 2) by {
                    if !(x == pos[0] as int && y == pos[1] as int && z == pos[2] as int) {
                        lemma_idx_bounds(mid.sh(0), mid.sh(1), mid.sh(2), x, y, z);
                        if mid.idx(x, y, z) == k as int {
                            lemma_idx_inj(
                                mid.sh(1),
                                mid.sh(2),
                                x,
                                y,
                                z,
                                pos[0] as int,
                                pos[1] as int,
                                pos[2] as int,
                            );
                            assert(false);
                        }
                        assert(mid.cell(x, y, z) == before.cell(x, y, z));
                        if before.arc_ok(x, y, z, d) {
                            lemma_arc_preserved(before, mid, k as int, x, y, z, d);
                        }
                    }
                }
                assert(mid.near_inv(pos[0] as int, pos[1] as int, pos[2] as int));
            }
            if before.all_arcs_ok() {
                assert forall|x: int, y: int, z: int, d: Direction|
                    mid.in_b(x, y, z) implies ((x == pos[0] as int && y == pos[1] as int && z
                    == pos[2] as int) || #[trigger] mid.arc_ok(x, y, z, d)) by {
                    if !(x == pos[0] as int && y == pos[1] as int && z == pos[2] as int) {
                        lemma_idx_bounds(mid.sh(0), mid.sh(1), mid.sh(2), x, y, z);
                        if mid.idx(x, y, z) == k as int {
                            lemma_idx_inj(
                                mid.sh(1),
                                mid.sh(2),
                                x,
                                y,
                                z,
                                pos[0] as int,
                                pos[1] as int,
                                pos[2] as int,
                            );
                            assert(false);
                        }
                        lemma_arc_preserved(before, mid, k as int, x, y, z, d);
                    }
                }
                assert(mid.near_arcs_ok(pos[0] as int, pos[1] as int, pos[2] as int));
            }
        }
        self.propagate_from(*pos);
        proof {
            assert forall|i: int|
                0 <= i < self.cells().len() implies subset_of(
                #[trigger] self.cells()[i],
                before.cells()[i],
            ) by {
                assert(subset_of(self.cells()[i], mid.cells()[i]));
                if i != k as int {
                    assert(mid.cells()[i] == before.cells()[i]);
                }
            }
            assert forall|j2: int|
                0 <= j2 < self.t() && bits_of(*bits)[j2] implies !(#[trigger] self.cell(
                pos[0] as int,
                pos[1] as int,
                pos[2] as int,
            )[j2]) by {
                assert(subset_of(self.cells()[k as int], mid.cells()[k as int]));
                assert(!mid.cells()[k as int][j2]);
            }
            assert forall|e: Seq<Seq<bool>>|
                before.family_ok(e) && Solver::family_le(e, before.cells()) && (forall|j2: int|
                    0 <= j2 < t && bits_of(*bits)[j2] ==> !(#[trigger] e[k as int][j2]))
                implies Solver::family_le(e, self.cells()) by {
                assert(Solver::family_le(e, mid.cells()));
                lemma_family_ok_frame(before, mid, e);
                assert(mid.family_ok(e));
            }
        }
    }

    /// Restricts the cell at `pos` to the options that allow some tile of
    /// `bits` as its neighbor in direction `dir`, then propagates.
    pub fn force_neighbor(&mut self, pos: &[usize; 3], bits: &Bits, dir: &Direction)
        requires
            old(self).wf(),
            old(self).in_b(pos[0] as int, pos[1] as int, pos[2] as int),
            bits_of(*bits).len() == old(self).t(),
        ensures
            final(self).wf(),
            final(self).same_frame(*old(self)),
            final(self).spec_seed() == old(self).spec_seed(),
            final(self).shrinks_from(*old(self)),
            forall|j: int|
                0 <= j < final(self).t() && (#[trigger] final(self).cell(
                    pos[0] as int,
                    pos[1] as int,
                    pos[2] as int,
                )[j]) ==> exists|i: int|
                    0 <= i < final(self).t() && bits_of(*bits)[i] && #[trigger] nb_of(
                        final(self).nodes()[i],
                        *dir,
                    )[j],
            old(self).inv_ok() ==> final(self).inv_ok(),
            old(self).all_arcs_ok() ==> final(self).all_arcs_ok(),
            forall|e: Seq<Seq<bool>>|
                #![trigger old(self).family_ok(e)]
                old(self).family_ok(e) && Solver::family_le(e, old(self).cells()) && (forall|j: int|
                    0 <= j < old(self).t() && (#[trigger] e[old(self).idx(
                        pos[0] as int,
                        pos[1] as int,
                        pos[2] as int,
                    )][j]) ==> exists|i: int|
                        0 <= i < old(self).t() && bits_of(*bits)[i] && #[trigger] nb_of(
                            old(self).nodes()[i],
                            *dir,
                        )[j]) ==> Solver::family_le(e, final(self).cells()),
    {
        let allowed = self.valid_neighbors_of_set(bits, dir);
        let k = self.idx_of(pos);
        let t = self.node_dict.len();
        let ghost before = *self;
        let mut j: usize = 0;
        while j < t
            invariant
                self.wf(),
                self.same_frame(before),
                self.spec_seed() == before.spec_seed(),
                before.wf(),
                t == self.t(),
                j <= t,
                bits_of(allowed).len() == t,
                forall|e: int|
                    0 <= e < t ==> (bits_of(allowed)[e] == exists|i: int|
                        0 <= i < t && bits_of(*bits)[i] && #[trigger] nb_of(
                            before.nodes()[i],
                            *dir,
                        )[e]),
                self.in_b(pos[0] as int, pos[1] as int, pos[2] as int),
                k == self.idx(pos[0] as int, pos[1] as int, pos[2] as int),
                k < self.cells().len(),
                self.cells().len() == before.cells().len(),
                forall|i: int|
                    0 <= i < self.cells().len() && i != k ==> #[trigger] self.cells()[i]
                        == before.cells()[i],
                subset_of(self.cells()[k as int], before.cells()[k as int]),
                forall|e: int|
                    0 <= e < j && !bits_of(allowed)[e] ==> !(#[trigger] self.cells()[k as int][e]),
                forall|e: Seq<Seq<bool>>|
                    #![trigger before.family_ok(e)]
                    before.family_ok(e) && Solver::family_le(e, before.cells()) && (forall|j2: int|
                        0 <= j2 < t && (#[trigger] e[k as int][j2]) ==> exists|i: int|
                            0 <= i < t && bits_of(*bits)[i] && #[trigger] nb_of(
                                before.nodes()[i],
                                *dir,
                            )[j2]) ==> Solver::family_le(e, self.cells()),
            decreases t - j,
        {
            assert(bits_of(self.data@[k as int]) == self.cells()[k as int]);
            if bv_get(&self.data[k], j) && !bv_get(&allowed, j) {
                let ghost pre_step = *self;
                self.constrain(pos, j);
                proof {
                    assert forall|e: Seq<Seq<bool>>|
                        before.family_ok(e) && Solver::family_le(e, before.cells()) && (forall|
                            j2: int,
                        |
                            0 <= j2 < t && (#[trigger] e[k as int][j2]) ==> exists|i: int|
                                0 <= i < t && bits_of(*bits)[i] && #[trigger] nb_of(
                                    before.nodes()[i],
                                    *dir,
                                )[j2]) implies Solver::family_le(e, self.cells()) by {
                        assert(Solver::family_le(e, pre_step.cells()));
                        if e[k as int][j as int] {
                            let i = choose|i: int|
                                0 <= i < t && bits_of(*bits)[i] && #[trigger] nb_of(
                                    before.nodes()[i],
                                    *dir,
                                )[j as int];
                            assert(bits_of(allowed)[j as int]);
                            assert(false);
                        }
                        assert forall|i2: int|
                            0 <= i2 < e.len() implies subset_of(
                            #[trigger] e[i2],
                            self.cells()[i2],
                        ) by {
                            assert(subset_of(e[i2], pre_step.cells()[i2]));
                            if i2 == k as int {
                                assert forall|b: int|
                                    0 <= b < e[i2].len() && e[i2][b] implies self.cells()[i2][b] by {
                                    assert(b != j as int);
                                    assert(pre_step.cells()[i2][b]);
                                }
                            } else {
                                assert(self.cells()[i2] == pre_step.cells()[i2]);
                            }
                        }
                    }
                }
            }
            j += 1;
        }
        let ghost mid = *self;
        proof {
            if before.inv_ok() {
                assert forall|x: int, y: int, z: int, d: Direction|
                    mid.in_b(x, y, z) implies ((x == pos[0] as int && y == pos[1] as int && z
                    == pos[2] as int) || #[trigger] mid.arc_ok(x, y, z, d) || popcount(
                    mid.cell(x, y, z),
                ) >= 2) by {
                    if !(x == pos[0] as int && y == pos[1] as int && z == pos[2] as int) {
                        lemma_idx_bounds(mid.sh(0), mid.sh(1), mid.sh(2), x, y, z);
                        if mid.idx(x, y, z) == k as int {
                            lemma_idx_inj(
                                mid.sh(1),
                                mid.sh(2),
                                x,
                                y,
                                z,
                                pos[0] as int,
                                pos[1] as int,
                                pos[2] as int,
                            );
                            assert(false);
                        }
                        assert(mid.cell(x, y, z) == before.cell(x, y, z));
                        if before.arc_ok(x, y, z, d) {
                            lemma_arc_preserved(before, mid, k as int, x, y, z, d);
                        }
                    }
                }
                assert(mid.near_inv(pos[0] as int, pos[1] as int, pos[2] as int));
            }
            if before.all_arcs_ok() {
                assert forall|x: int, y: int, z: int, d: Direction|
                    mid.in_b(x, y, z) implies ((x == pos[0] as int && y == pos[1] as int && z
                    == pos[2] as int) || #[trigger] mid.arc_ok(x, y, z, d)) by {
                    if !(x == pos[0] as int && y == pos[1] as int && z == pos[2] as int) {
                        lemma_idx_bounds(mid.sh(0), mid.sh(1), mid.sh(2), x, y, z);
                        if mid.idx(x, y, z) == k as int {
                            lemma_idx_inj(
                                mid.sh(1),
                                mid.sh(2),
                                x,
                                y,
                                z,
                                pos[0] as int,
                                pos[1] as int,
                                pos[2] as int,
                            );
                            assert(false);
                        }
                        lemma_arc_preserved(before, mid, k as int, x, y, z, d);
                    }
                }
                assert(mid.near_arcs_ok(pos[0] as int, pos[1] as int, pos[2] as int));
            }
        }
        self.propagate_from(*pos);
        proof {
            assert forall|i: int|
                0 <= i < self.cells().len() implies subset_of(
                #[trigger] self.cells()[i],
                before.cells()[i],
            ) by {
                assert(subset_of(self.cells()[i], mid.cells()[i]));
                if i != k as int {
                    assert(mid.cells()[i] == before.cells()[i]);
                }
            }
            assert forall|j2: int|
                0 <= j2 < self.t() && (#[trigger] self.cell(
                pos[0] as int,
                pos[1] as int,
                pos[2] as int,
            )[j2]) implies exists|i: int|
                0 <= i < self.t() && bits_of(*bits)[i] && #[trigger] nb_of(
                    self.nodes()[i],
                    *dir,
                )[j2] by {
                assert(subset_of(self.cells()[k as int], mid.cells()[k as int]));
                assert(mid.cells()[k as int][j2]);
                assert(bits_of(allowed)[j2]);
                let i = choose|i: int|
                    0 <= i < self.t() && bits_of(*bits)[i] && #[trigger] nb_of(
                        before.nodes()[i],
                        *dir,
                    )[j2];
                assert(nb_of(self.nodes()[i], *dir)[j2]);
            }
            assert forall|e: Seq<Seq<bool>>|
                before.family_ok(e) && Solver::family_le(e, before.cells()) && (forall|j2: int|
                    0 <= j2 < t && (#[trigger] e[k as int][j2]) ==> exists|i: int|
                        0 <= i < t && bits_of(*bits)[i] && #[trigger] nb_of(
                            before.nodes()[i],
                            *dir,
                        )[j2]) implies Solver::family_le(e, self.cells()) by {
                assert(Solver::family_le(e, mid.cells()));
                lemma_family_ok_frame(before, mid, e);
                assert(mid.family_ok(e));
            }
        }
    }

    /// The shape of the grid.
    pub fn shape(&self) -> (r: &[usize; 3])
        ensures
            *r == self.spec_shape(),
            r[0] == self.sh(0) && r[1] == self.sh(1) && r[2] == self.sh(2),
    {
        &self.ushape
    }

    /// The seed of the solver.
    pub fn seed(&self) -> (r: &u64)
        ensures
            *r == self.spec_seed(),
    {
        &self.seed
    }

    /// Reseeds the generator; the grid is untouched.
    pub fn set_seed(&mut self, seed: &u64)
        ensures
            final(self).spec_seed() == *seed,
            final(self).cells() == old(self).cells(),
            final(self).same_frame(*old(self)),
            final(self).wf() == old(self).wf(),
    {
        self.rng = rng_from_seed(*seed);
        self.seed = *seed;
        proof {
            assert(self.cells() == old(self).cells());
            assert(self.nodes() == old(self).nodes());
            assert(self.spec_shape() == old(self).spec_shape());
        }
    }
}



/// The six directions in worklist order.
pub open spec fn spec_dir(i: int) -> Direction {
    if i == 0 {
        Direction::POSX
    } else if i == 1 {
        Direction::NEGX
    } else if i == 2 {
        Direction::POSY
    } else if i == 3 {
        Direction::NEGY
    } else if i == 4 {
        Direction::POSZ
    } else {
        Direction::NEGZ
    }
}

/// The worklist position of a direction.
pub open spec fn dir_ix(d: Direction) -> int {
    match d {
        Direction::POSX => 0,
        Direction::NEGX => 1,
        Direction::POSY => 2,
        Direction::NEGY => 3,
        Direction::POSZ => 4,
        Direction::NEGZ => 5,
    }
}

fn dir_from_index(i: usize) -> (r: Direction)
    requires
        i < 6,
    ensures
        r == spec_dir(i as int),
        dir_ix(r) == i,
{
    if i == 0 {
        Direction::POSX
    } else if i == 1 {
        Direction::NEGX
    } else if i == 2 {
        Direction::POSY
    } else if i == 3 {
        Direction::NEGY
    } else if i == 4 {
        Direction::POSZ
    } else {
        Direction::NEGZ
    }
}

/// The coordinate sits somewhere on the worklist.
pub open spec fn on_stack(st: Seq<[usize; 3]>, x: int, y: int, z: int) -> bool {
    exists|s: int|
        0 <= s < st.len() && (#[trigger] st[s])[0] == x && st[s][1] == y && st[s][2] == z
}

/// Row-major flat indices are injective over in-bounds coordinates.
proof fn lemma_idx_inj(
    sy: int,
    sz: int,
    x: int,
    y: int,
    z: int,
    x2: int,
    y2: int,
    z2: int,
)
    requires
        x >= 0 && 0 <= y < sy && 0 <= z < sz,
        x2 >= 0 && 0 <= y2 < sy && 0 <= z2 < sz,
        (x * sy + y) * sz + z == (x2 * sy + y2) * sz + z2,
    ensures
        x == x2 && y == y2 && z == z2,
{
    assert(x * sy + y >= 0) by (nonlinear_arith)
        requires
            x >= 0 && sy > 0 && y >= 0,
    ;
    assert(x2 * sy + y2 >= 0) by (nonlinear_arith)
        requires
            x2 >= 0 && sy > 0 && y2 >= 0,
    ;
    lemma_fundamental_div_mod_converse((x * sy + y) * sz + z, sz, x * sy + y, z);
    lemma_fundamental_div_mod_converse((x2 * sy + y2) * sz + z2, sz, x2 * sy + y2, z2);
    lemma_fundamental_div_mod_converse(x * sy + y, sy, x, y);
    lemma_fundamental_div_mod_converse(x2 * sy + y2, sy, x2, y2);
}

/// Clearing options at one cell never breaks an arc whose source is another
/// cell.
proof fn lemma_arc_preserved(pre: Solver, post: Solver, f: int, x: int, y: int, z: int, d: Direction)
    requires
        pre.wf(),
        post.same_frame(pre),
        post.cells().len() == pre.cells().len(),
        0 <= f < pre.cells().len(),
        forall|i: int| 0 <= i < pre.cells().len() && i != f ==> #[trigger] post.cells()[i] == pre.cells()[i],
        subset_of(post.cells()[f], pre.cells()[f]),
        pre.in_b(x, y, z),
        pre.arc_ok(x, y, z, d),
        pre.idx(x, y, z) != f,
    ensures
        post.arc_ok(x, y, z, d),
{
    let p = post.step(x, y, z, d);
    assert(post.sh(0) == pre.sh(0) && post.sh(1) == pre.sh(1) && post.sh(2) == pre.sh(2));
    if post.in_b(p.0, p.1, p.2) {
        lemma_idx_bounds(pre.sh(0), pre.sh(1), pre.sh(2), x, y, z);
        lemma_idx_bounds(pre.sh(0), pre.sh(1), pre.sh(2), p.0, p.1, p.2);
        assert(post.cells()[pre.idx(x, y, z)] == pre.cells()[pre.idx(x, y, z)]);
        assert forall|j: int|
            0 <= j < post.t() && (#[trigger] post.cell(p.0, p.1, p.2)[j]) implies post.supports(
            x,
            y,
            z,
            d,
            j,
        ) by {
            if pre.idx(p.0, p.1, p.2) == f {
                assert(subset_of(post.cells()[f], pre.cells()[f]));
                assert(pre.cell(p.0, p.1, p.2)[j]);
            } else {
                assert(post.cells()[pre.idx(p.0, p.1, p.2)] == pre.cells()[pre.idx(p.0, p.1, p.2)]);
                assert(pre.cell(p.0, p.1, p.2)[j]);
            }
            assert(pre.supports(x, y, z, d, j));
            let i = choose|i: int|
                0 <= i < pre.t() && pre.cell(x, y, z)[i] && #[trigger] nb_of(pre.nodes()[i], d)[j];
            assert(post.cell(x, y, z)[i]);
            assert(nb_of(post.nodes()[i], d)[j]);
        }
    }
}



/// Every cell's option set is a subset of the tile-set universe.
pub proof fn lemma_options_within_universe(s: Solver, i: int)
    requires
        s.wf(),
        0 <= i < s.cells().len(),
    ensures
        subset_of(s.cells()[i], Seq::new(s.t() as nat, |k: int| true)),
{
}

/// The total option count, which bounds the propagation worklist's measure,
/// never exceeds the cell count times the tile count.
pub proof fn lemma_total_options_bound(s: Solver)
    requires
        s.wf(),
    ensures
        total_count(s.cells()) <= s.cells().len() * s.t(),
{
    assert forall|i: int| 0 <= i < s.cells().len() implies popcount(#[trigger] s.cells()[i]) <= (
    s.t() as nat) by {
        crate::bitmath::lemma_popcount_le_len(s.cells()[i]);
    }
    crate::bitmath::lemma_total_bound(s.cells(), s.t() as nat);
}


/// Arc-consistency of a family depends only on shape, tiles and cell count.
proof fn lemma_family_ok_frame(a: Solver, b: Solver, e: Seq<Seq<bool>>)
    requires
        a.family_ok(e),
        b.same_frame(a),
        b.cells().len() == a.cells().len(),
    ensures
        b.family_ok(e),
{
    assert(b.sh(0) == a.sh(0) && b.sh(1) == a.sh(1) && b.sh(2) == a.sh(2));
    assert forall|x: int, y: int, z: int, d: Direction|
        b.in_b(x, y, z) implies #[trigger] b.family_arc_ok(e, x, y, z, d) by {
        assert(a.in_b(x, y, z));
        assert(a.family_arc_ok(e, x, y, z, d));
        let p = b.step(x, y, z, d);
        assert(p == a.step(x, y, z, d));
        if b.in_b(p.0, p.1, p.2) {
            assert forall|j: int|
                0 <= j < b.t() && (#[trigger] e[b.idx(p.0, p.1, p.2)][j]) implies exists|i: int|
                    0 <= i < b.t() && e[b.idx(x, y, z)][i] && #[trigger] nb_of(
                        b.nodes()[i],
                        d,
                    )[j] by {
                assert(e[a.idx(p.0, p.1, p.2)][j]);
                let i = choose|i: int|
                    0 <= i < a.t() && e[a.idx(x, y, z)][i] && #[trigger] nb_of(a.nodes()[i], d)[j];
                assert(e[b.idx(x, y, z)][i] && nb_of(b.nodes()[i], d)[j]);
            }
        }
    }
}


/// Two families below each other hold the same bits.
pub proof fn lemma_family_le_antisymmetric(a: Seq<Seq<bool>>, b: Seq<Seq<bool>>)
    requires
        Solver::family_le(a, b),
        Solver::family_le(b, a),
    ensures
        a == b,
{
    assert forall|i: int| 0 <= i < a.len() implies a[i] == b[i] by {
        assert(subset_of(a[i], b[i]));
        assert(subset_of(b[i], a[i]));
        assert(a[i] =~= b[i]);
    }
    assert(a =~= b);
}

/// A fully arc-consistent solver state shrunk from `pre` is itself an
/// arc-consistent family below `pre`'s cells.
pub proof fn lemma_state_is_family(pre: Solver, s: Solver)
    requires
        pre.wf(),
        s.wf(),
        s.same_frame(pre),
        s.shrinks_from(pre),
        s.all_arcs_ok(),
    ensures
        pre.family_ok(s.cells()),
        Solver::family_le(s.cells(), pre.cells()),
{
    assert(pre.sh(0) == s.sh(0) && pre.sh(1) == s.sh(1) && pre.sh(2) == s.sh(2));
    assert forall|x: int, y: int, z: int, d: Direction|
        pre.in_b(x, y, z) implies #[trigger] pre.family_arc_ok(s.cells(), x, y, z, d) by {
        assert(s.in_b(x, y, z));
        assert(s.arc_ok(x, y, z, d));
        let p = pre.step(x, y, z, d);
        assert(p == s.step(x, y, z, d));
        if pre.in_b(p.0, p.1, p.2) {
            assert forall|j: int|
                0 <= j < pre.t() && (#[trigger] s.cells()[pre.idx(p.0, p.1, p.2)][j]) implies exists|
                    i: int,
                |
                    0 <= i < pre.t() && s.cells()[pre.idx(x, y, z)][i] && #[trigger] nb_of(
                        pre.nodes()[i],
                        d,
                    )[j] by {
                assert(s.cell(p.0, p.1, p.2)[j]);
                assert(s.supports(x, y, z, d, j));
                let i = choose|i: int|
                    0 <= i < s.t() && s.cell(x, y, z)[i] && #[trigger] nb_of(s.nodes()[i], d)[j];
                assert(s.cells()[pre.idx(x, y, z)][i] && nb_of(pre.nodes()[i], d)[j]);
            }
        }
    }
}

/// The propagation fixed point is deterministic: two fully arc-consistent
/// results of the same start that each dominate every arc-consistent family
/// below that start hold the same options, whatever order options were
/// removed in.
pub proof fn lemma_constrained_state_unique(pre: Solver, a: Solver, b: Solver)
    requires
        pre.wf(),
        a.wf(),
        b.wf(),
        a.same_frame(pre),
        b.same_frame(pre),
        a.shrinks_from(pre),
        b.shrinks_from(pre),
        a.all_arcs_ok(),
        b.all_arcs_ok(),
        forall|e: Seq<Seq<bool>>|
            #![trigger pre.family_ok(e)]
            pre.family_ok(e) && Solver::family_le(e, pre.cells()) ==> Solver::family_le(
                e,
                a.cells(),
            ),
        forall|e: Seq<Seq<bool>>|
            #![trigger pre.family_ok(e)]
            pre.family_ok(e) && Solver::family_le(e, pre.cells()) ==> Solver::family_le(
                e,
                b.cells(),
            ),
    ensures
        a.cells() == b.cells(),
{
    lemma_state_is_family(pre, a);
    lemma_state_is_family(pre, b);
    lemma_family_le_antisymmetric(a.cells(), b.cells());
}


/// Idempotence of a constraining pass: a fully arc-consistent state that a
/// second pass both shrinks and dominates (by the pass's family-preservation
/// clause, instantiated at the state's own cells) is left unchanged.
pub proof fn lemma_second_pass_is_identity(s1: Solver, s2: Solver)
    requires
        s1.wf(),
        s1.all_arcs_ok(),
        s2.shrinks_from(s1),
        s1.family_ok(s1.cells()) && Solver::family_le(s1.cells(), s1.cells())
            ==> Solver::family_le(s1.cells(), s2.cells()),
    ensures
        s2.cells() == s1.cells(),
{
    assert(s1.shrinks_from(s1)) by {
        assert forall|i: int| 0 <= i < s1.cells().len() implies subset_of(
            #[trigger] s1.cells()[i],
            s1.cells()[i],
        ) by {}
    }
    lemma_state_is_family(s1, s1);
    assert(Solver::family_le(s1.cells(), s1.cells()));
    lemma_family_le_antisymmetric(s1.cells(), s2.cells());
}

/// Shrinking is transitive.
pub proof fn lemma_shrink_trans(a: Solver, b: Solver, c: Solver)
    requires
        c.shrinks_from(b),
        b.shrinks_from(a),
    ensures
        c.shrinks_from(a),
{
    assert forall|i: int| 0 <= i < c.cells().len() implies subset_of(
        #[trigger] c.cells()[i],
        a.cells()[i],
    ) by {
        assert(subset_of(c.cells()[i], b.cells()[i]));
        assert(subset_of(b.cells()[i], a.cells()[i]));
    }
}

/// Flat row-major indices stay inside the grid.
pub proof fn lemma_idx_bounds(sx: int, sy: int, sz: int, x: int, y: int, z: int)
    requires
        0 <= x < sx,
        0 <= y < sy,
        0 <= z < sz,
    ensures
        0 <= (x * sy + y) * sz + z < sx * sy * sz,
        x * sy + y < sx * sy,
        sx * sy <= sx * sy * sz,
{
    assert(0 <= (x * sy + y) * sz + z < sx * sy * sz && x * sy + y < sx * sy && sx * sy <= sx * sy
        * sz) by (nonlinear_arith)
        requires
            0 <= x < sx && 0 <= y < sy && 0 <= z < sz,
    ;
}

} // verus!
