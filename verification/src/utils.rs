//! Whole-plane constraint helpers: each walks one slab of the grid and
//! applies a solver primitive to every cell of it.

use vstd::prelude::*;

use crate::bits::{bits_of, Bits};
use crate::node::{nb_of, Direction};
use crate::bitmath::subset_of;
use crate::wfc::{lemma_idx_bounds, lemma_shrink_trans, Solver};

verus! {

/// Removes the options in `bits` from every cell of the plane `x = const`;
/// a negative `x` names the last plane.
pub fn constrain_x_axis(wfc_solver: &mut Solver, bits: &Bits, x: i32)
    requires
        old(wfc_solver).wf(),
        bits_of(*bits).len() == old(wfc_solver).t(),
        x < 0 ==> old(wfc_solver).sh(0) >= 1,
        x >= 0 ==> x < old(wfc_solver).sh(0),
    ensures
        final(wfc_solver).wf(),
        final(wfc_solver).same_frame(*old(wfc_solver)),
        final(wfc_solver).spec_seed() == old(wfc_solver).spec_seed(),
        final(wfc_solver).shrinks_from(*old(wfc_solver)),
        old(wfc_solver).inv_ok() ==> final(wfc_solver).inv_ok(),
        ({
            let xi = if x < 0 {
                old(wfc_solver).sh(0) - 1
            } else {
                x as int
            };
            forall|y: int, z: int, j: int|
                #![trigger final(wfc_solver).cell(xi, y, z)[j]]
                0 <= y < final(wfc_solver).sh(1) && 0 <= z < final(wfc_solver).sh(2) && 0 <= j
                    < final(wfc_solver).t() && bits_of(*bits)[j] ==> !final(wfc_solver).cell(
                    xi,
                    y,
                    z,
                )[j]
        }),
{
    let xi: usize = if x < 0 {
        wfc_solver.shape()[0] - 1
    } else {
        x as usize
    };
    let sy = wfc_solver.shape()[1];
    let sz = wfc_solver.shape()[2];
    let ghost start = *wfc_solver;
    let mut y: usize = 0;
    while y < sy
        invariant
            wfc_solver.wf(),
            wfc_solver.same_frame(start),
            wfc_solver.spec_seed() == start.spec_seed(),
            wfc_solver.shrinks_from(start),
            start.inv_ok() ==> wfc_solver.inv_ok(),
            bits_of(*bits).len() == wfc_solver.t(),
            xi < wfc_solver.sh(0),
            sy == wfc_solver.sh(1),
            sz == wfc_solver.sh(2),
            y <= sy,
            forall|yy: int, zz: int, j: int|
                #![trigger wfc_solver.cell(xi as int, yy, zz)[j]]
                0 <= yy < y && 0 <= zz < sz && 0 <= j < wfc_solver.t() && bits_of(*bits)[j]
                    ==> !wfc_solver.cell(xi as int, yy, zz)[j],
        decreases sy - y,
    {
        let mut z: usize = 0;
        while z < sz
            invariant
                wfc_solver.wf(),
                wfc_solver.same_frame(start),
                wfc_solver.spec_seed() == start.spec_seed(),
                wfc_solver.shrinks_from(start),
                start.inv_ok() ==> wfc_solver.inv_ok(),
                bits_of(*bits).len() == wfc_solver.t(),
                xi < wfc_solver.sh(0),
                y < wfc_solver.sh(1),
                sy == wfc_solver.sh(1),
                sz == wfc_solver.sh(2),
                z <= sz,
                forall|yy: int, zz: int, j: int|
                    #![trigger wfc_solver.cell(xi as int, yy, zz)[j]]
                    0 <= yy < sy && 0 <= zz < sz && (yy < y || (yy == y && zz < z)) && 0 <= j
                        < wfc_solver.t() && bits_of(*bits)[j] ==> !wfc_solver.cell(
                        xi as int,
                        yy,
                        zz,
                    )[j],
            decreases sz - z,
        {
            let ghost pre = *wfc_solver;
            wfc_solver.constrain_list(&[xi, y, z], bits);
            proof {
                lemma_shrink_trans(start, pre, *wfc_solver);
                assert forall|yy: int, zz: int, j: int|
                    0 <= yy < sy && 0 <= zz < sz && (yy < y || (yy == y && zz < z + 1)) && 0 <= j
                        < wfc_solver.t() && bits_of(*bits)[j] implies !wfc_solver.cell(
                    xi as int,
                    yy,
                    zz,
                )[j] by {
                    if !(yy == y && zz == z) {
                        lemma_idx_bounds(
                            wfc_solver.sh(0),
                            wfc_solver.sh(1),
                            wfc_solver.sh(2),
                            xi as int,
                            yy,
                            zz,
                        );
                        let f = wfc_solver.idx(xi as int, yy, zz);
                        assert(subset_of(wfc_solver.cells()[f], pre.cells()[f]));
                        assert(!pre.cell(xi as int, yy, zz)[j]);
                    }
                }
            }
            z += 1;
        }
        y += 1;
    }
}

/// Forces the neighbors in direction `dir` of an area of the plane
/// `x = const` to lie in `bits`: each area cell keeps only options that
/// allow some tile of `bits` next door.  A negative `x` names the last
/// plane.
pub fn collapse_x_axis(
    wfc_solver: &mut Solver,
    bits: &Bits,
    x: i32,
    dir: &Direction,
    y_shape: [usize; 2],
    z_shape: [usize; 2],
)
    requires
        old(wfc_solver).wf(),
        bits_of(*bits).len() == old(wfc_solver).t(),
        x < 0 ==> old(wfc_solver).sh(0) >= 1,
        x >= 0 ==> x < old(wfc_solver).sh(0),
        y_shape[1] <= old(wfc_solver).sh(1),
        z_shape[1] <= old(wfc_solver).sh(2),
    ensures
        final(wfc_solver).wf(),
        final(wfc_solver).same_frame(*old(wfc_solver)),
        final(wfc_solver).spec_seed() == old(wfc_solver).spec_seed(),
        final(wfc_solver).shrinks_from(*old(wfc_solver)),
        old(wfc_solver).inv_ok() ==> final(wfc_solver).inv_ok(),
        ({
            let xi = if x < 0 {
                old(wfc_solver).sh(0) - 1
            } else {
                x as int
            };
            forall|y: int, z: int, j: int|
                #![trigger final(wfc_solver).cell(xi, y, z)[j]]
                y_shape[0] <= y < y_shape[1] && z_shape[0] <= z < z_shape[1] && 0 <= j
                    < final(wfc_solver).t() && final(wfc_solver).cell(xi, y, z)[j] ==> exists|i: int|
                    0 <= i < final(wfc_solver).t() && bits_of(*bits)[i] && #[trigger] nb_of(
                        final(wfc_solver).nodes()[i],
                        *dir,
                    )[j]
        }),
{
    let xi: usize = if x < 0 {
        wfc_solver.shape()[0] - 1
    } else {
        x as usize
    };
    let ghost start = *wfc_solver;
    let mut y: usize = y_shape[0];
    while y < y_shape[1]
        invariant
            wfc_solver.wf(),
            wfc_solver.same_frame(start),
            wfc_solver.spec_seed() == start.spec_seed(),
            wfc_solver.shrinks_from(start),
            start.inv_ok() ==> wfc_solver.inv_ok(),
            bits_of(*bits).len() == wfc_solver.t(),
            xi < wfc_solver.sh(0),
            y_shape[1] <= wfc_solver.sh(1),
            z_shape[1] <= wfc_solver.sh(2),
            y >= y_shape[0],
            forall|yy: int, zz: int, j: int|
                #![trigger wfc_solver.cell(xi as int, yy, zz)[j]]
                y_shape[0] <= yy < y && z_shape[0] <= zz < z_shape[1] && 0 <= j < wfc_solver.t()
                    && wfc_solver.cell(xi as int, yy, zz)[j] ==> exists|i: int|
                    0 <= i < wfc_solver.t() && bits_of(*bits)[i] && #[trigger] nb_of(
                        wfc_solver.nodes()[i],
                        *dir,
                    )[j],
        decreases y_shape[1] - y,
    {
        let mut z: usize = z_shape[0];
        while z < z_shape[1]
            invariant
                wfc_solver.wf(),
                wfc_solver.same_frame(start),
                wfc_solver.spec_seed() == start.spec_seed(),
                wfc_solver.shrinks_from(start),
                start.inv_ok() ==> wfc_solver.inv_ok(),
                bits_of(*bits).len() == wfc_solver.t(),
                xi < wfc_solver.sh(0),
                y < wfc_solver.sh(1),
                y >= y_shape[0],
                y_shape[1] <= wfc_solver.sh(1),
                z_shape[1] <= wfc_solver.sh(2),
                z >= z_shape[0],
                forall|yy: int, zz: int, j: int|
                    #![trigger wfc_solver.cell(xi as int, yy, zz)[j]]
                    y_shape[0] <= yy < y_shape[1] && z_shape[0] <= zz < z_shape[1] && (yy < y || (
                    yy == y && zz < z)) && 0 <= j < wfc_solver.t() && wfc_solver.cell(
                        xi as int,
                        yy,
                        zz,
                    )[j] ==> exists|i: int|
                        0 <= i < wfc_solver.t() && bits_of(*bits)[i] && #[trigger] nb_of(
                            wfc_solver.nodes()[i],
                            *dir,
                        )[j],
            decreases z_shape[1] - z,
        {
            let ghost pre = *wfc_solver;
            wfc_solver.force_neighbor(&[xi, y, z], bits, dir);
            proof {
                lemma_shrink_trans(start, pre, *wfc_solver);
                assert forall|yy: int, zz: int, j: int|
                    y_shape[0] <= yy < y_shape[1] && z_shape[0] <= zz < z_shape[1] && (yy < y || (
                    yy == y && zz < z + 1)) && 0 <= j < wfc_solver.t() && wfc_solver.cell(
                    xi as int,
                    yy,
                    zz,
                )[j] implies exists|i: int|
                    0 <= i < wfc_solver.t() && bits_of(*bits)[i] && #[trigger] nb_of(
                        wfc_solver.nodes()[i],
                        *dir,
                    )[j] by {
                    if !(yy == y && zz == z) {
                        lemma_idx_bounds(
                            wfc_solver.sh(0),
                            wfc_solver.sh(1),
                            wfc_solver.sh(2),
                            xi as int,
                            yy,
                            zz,
                        );
                        let f = wfc_solver.idx(xi as int, yy, zz);
                        assert(subset_of(wfc_solver.cells()[f], pre.cells()[f]));
                        assert(pre.cell(xi as int, yy, zz)[j]);
                        let i = choose|i: int|
                            0 <= i < pre.t() && bits_of(*bits)[i] && #[trigger] nb_of(
                                pre.nodes()[i],
                                *dir,
                            )[j];
                        assert(nb_of(wfc_solver.nodes()[i], *dir)[j]);
                    }
                }
            }
            z += 1;
        }
        y += 1;
    }
}

/// Removes the options in `bits` from every cell of the plane `y = const`;
/// a negative `y` names the last plane.
pub fn constrain_y_axis(wfc_solver: &mut Solver, bits: &Bits, y: i32)
    requires
        old(wfc_solver).wf(),
        bits_of(*bits).len() == old(wfc_solver).t(),
        y < 0 ==> old(wfc_solver).sh(1) >= 1,
        y >= 0 ==> y < old(wfc_solver).sh(1),
    ensures
        final(wfc_solver).wf(),
        final(wfc_solver).same_frame(*old(wfc_solver)),
        final(wfc_solver).spec_seed() == old(wfc_solver).spec_seed(),
        final(wfc_solver).shrinks_from(*old(wfc_solver)),
        old(wfc_solver).inv_ok() ==> final(wfc_solver).inv_ok(),
        ({
            let yi = if y < 0 {
                old(wfc_solver).sh(1) - 1
            } else {
                y as int
            };
            forall|x: int, z: int, j: int|
                #![trigger final(wfc_solver).cell(x, yi, z)[j]]
                0 <= x < final(wfc_solver).sh(0) && 0 <= z < final(wfc_solver).sh(2) && 0 <= j
                    < final(wfc_solver).t() && bits_of(*bits)[j] ==> !final(wfc_solver).cell(
                    x,
                    yi,
                    z,
                )[j]
        }),
{
    let yi: usize = if y < 0 {
        wfc_solver.shape()[1] - 1
    } else {
        y as usize
    };
    let sx = wfc_solver.shape()[0];
    let sz = wfc_solver.shape()[2];
    let ghost start = *wfc_solver;
    let mut x: usize = 0;
    while x < sx
        invariant
            wfc_solver.wf(),
            wfc_solver.same_frame(start),
            wfc_solver.spec_seed() == start.spec_seed(),
            wfc_solver.shrinks_from(start),
            start.inv_ok() ==> wfc_solver.inv_ok(),
            bits_of(*bits).len() == wfc_solver.t(),
            yi < wfc_solver.sh(1),
            sx == wfc_solver.sh(0),
            sz == wfc_solver.sh(2),
            x <= sx,
            forall|xx: int, zz: int, j: int|
                #![trigger wfc_solver.cell(xx, yi as int, zz)[j]]
                0 <= xx < x && 0 <= zz < sz && 0 <= j < wfc_solver.t() && bits_of(*bits)[j]
                    ==> !wfc_solver.cell(xx, yi as int, zz)[j],
        decreases sx - x,
    {
        let mut z: usize = 0;
        while z < sz
            invariant
                wfc_solver.wf(),
                wfc_solver.same_frame(start),
                wfc_solver.spec_seed() == start.spec_seed(),
                wfc_solver.shrinks_from(start),
                start.inv_ok() ==> wfc_solver.inv_ok(),
                bits_of(*bits).len() == wfc_solver.t(),
                yi < wfc_solver.sh(1),
                x < wfc_solver.sh(0),
                sx == wfc_solver.sh(0),
                sz == wfc_solver.sh(2),
                z <= sz,
                forall|xx: int, zz: int, j: int|
                    #![trigger wfc_solver.cell(xx, yi as int, zz)[j]]
                    0 <= xx < sx && 0 <= zz < sz && (xx < x || (xx == x && zz < z)) && 0 <= j
                        < wfc_solver.t() && bits_of(*bits)[j] ==> !wfc_solver.cell(
                        xx,
                        yi as int,
                        zz,
                    )[j],
            decreases sz - z,
        {
            let ghost pre = *wfc_solver;
            wfc_solver.constrain_list(&[x, yi, z], bits);
            proof {
                lemma_shrink_trans(start, pre, *wfc_solver);
                assert forall|xx: int, zz: int, j: int|
                    0 <= xx < sx && 0 <= zz < sz && (xx < x || (xx == x && zz < z + 1)) && 0 <= j
                        < wfc_solver.t() && bits_of(*bits)[j] implies !wfc_solver.cell(
                    xx,
                    yi as int,
                    zz,
                )[j] by {
                    if !(xx == x && zz == z) {
                        lemma_idx_bounds(
                            wfc_solver.sh(0),
                            wfc_solver.sh(1),
                            wfc_solver.sh(2),
                            xx,
                            yi as int,
                            zz,
                        );
                        let f = wfc_solver.idx(xx, yi as int, zz);
                        assert(subset_of(wfc_solver.cells()[f], pre.cells()[f]));
                        assert(!pre.cell(xx, yi as int, zz)[j]);
                    }
                }
            }
            z += 1;
        }
        x += 1;
    }
}

/// Forces the neighbors in direction `dir` of an area of the plane
/// `y = const` to lie in `bits`: each area cell keeps only options that
/// allow some tile of `bits` next door.  A negative `y` names the last
/// plane.
pub fn collapse_y_axis(
    wfc_solver: &mut Solver,
    bits: &Bits,
    y: i32,
    dir: &Direction,
    x_shape: [usize; 2],
    z_shape: [usize; 2],
)
    requires
        old(wfc_solver).wf(),
        bits_of(*bits).len() == old(wfc_solver).t(),
        y < 0 ==> old(wfc_solver).sh(1) >= 1,
        y >= 0 ==> y < old(wfc_solver).sh(1),
        x_shape[1] <= old(wfc_solver).sh(0),
        z_shape[1] <= old(wfc_solver).sh(2),
    ensures
        final(wfc_solver).wf(),
        final(wfc_solver).same_frame(*old(wfc_solver)),
        final(wfc_solver).spec_seed() == old(wfc_solver).spec_seed(),
        final(wfc_solver).shrinks_from(*old(wfc_solver)),
        old(wfc_solver).inv_ok() ==> final(wfc_solver).inv_ok(),
        ({
            let yi = if y < 0 {
                old(wfc_solver).sh(1) - 1
            } else {
                y as int
            };
            forall|x: int, z: int, j: int|
                #![trigger final(wfc_solver).cell(x, yi, z)[j]]
                x_shape[0] <= x < x_shape[1] && z_shape[0] <= z < z_shape[1] && 0 <= j
                    < final(wfc_solver).t() && final(wfc_solver).cell(x, yi, z)[j] ==> exists|i: int|
                    0 <= i < final(wfc_solver).t() && bits_of(*bits)[i] && #[trigger] nb_of(
                        final(wfc_solver).nodes()[i],
                        *dir,
                    )[j]
        }),
{
    let yi: usize = if y < 0 {
        wfc_solver.shape()[1] - 1
    } else {
        y as usize
    };
    let ghost start = *wfc_solver;
    let mut x: usize = x_shape[0];
    while x < x_shape[1]
        invariant
            wfc_solver.wf(),
            wfc_solver.same_frame(start),
            wfc_solver.spec_seed() == start.spec_seed(),
            wfc_solver.shrinks_from(start),
            start.inv_ok() ==> wfc_solver.inv_ok(),
            bits_of(*bits).len() == wfc_solver.t(),
            yi < wfc_solver.sh(1),
            x_shape[1] <= wfc_solver.sh(0),
            z_shape[1] <= wfc_solver.sh(2),
            x >= x_shape[0],
            forall|xx: int, zz: int, j: int|
                #![trigger wfc_solver.cell(xx, yi as int, zz)[j]]
                x_shape[0] <= xx < x && z_shape[0] <= zz < z_shape[1] && 0 <= j < wfc_solver.t()
                    && wfc_solver.cell(xx, yi as int, zz)[j] ==> exists|i: int|
                    0 <= i < wfc_solver.t() && bits_of(*bits)[i] && #[trigger] nb_of(
                        wfc_solver.nodes()[i],
                        *dir,
                    )[j],
        decreases x_shape[1] - x,
    {
        let mut z: usize = z_shape[0];
        while z < z_shape[1]
            invariant
                wfc_solver.wf(),
                wfc_solver.same_frame(start),
                wfc_solver.spec_seed() == start.spec_seed(),
                wfc_solver.shrinks_from(start),
                start.inv_ok() ==> wfc_solver.inv_ok(),
                bits_of(*bits).len() == wfc_solver.t(),
                yi < wfc_solver.sh(1),
                x < wfc_solver.sh(0),
                x >= x_shape[0],
                x_shape[1] <= wfc_solver.sh(0),
                z_shape[1] <= wfc_solver.sh(2),
                z >= z_shape[0],
                forall|xx: int, zz: int, j: int|
                    #![trigger wfc_solver.cell(xx, yi as int, zz)[j]]
                    x_shape[0] <= xx < x_shape[1] && z_shape[0] <= zz < z_shape[1] && (xx < x || (
                    xx == x && zz < z)) && 0 <= j < wfc_solver.t() && wfc_solver.cell(
                        xx,
                        yi as int,
                        zz,
                    )[j] ==> exists|i: int|
                        0 <= i < wfc_solver.t() && bits_of(*bits)[i] && #[trigger] nb_of(
                            wfc_solver.nodes()[i],
                            *dir,
                        )[j],
            decreases z_shape[1] - z,
        {
            let ghost pre = *wfc_solver;
            wfc_solver.force_neighbor(&[x, yi, z], bits, dir);
            proof {
                lemma_shrink_trans(start, pre, *wfc_solver);
                assert forall|xx: int, zz: int, j: int|
                    x_shape[0] <= xx < x_shape[1] && z_shape[0] <= zz < z_shape[1] && (xx < x || (
                    xx == x && zz < z + 1)) && 0 <= j < wfc_solver.t() && wfc_solver.cell(
                    xx,
                    yi as int,
                    zz,
                )[j] implies exists|i: int|
                    0 <= i < wfc_solver.t() && bits_of(*bits)[i] && #[trigger] nb_of(
                        wfc_solver.nodes()[i],
                        *dir,
                    )[j] by {
                    if !(xx == x && zz == z) {
                        lemma_idx_bounds(
                            wfc_solver.sh(0),
                            wfc_solver.sh(1),
                            wfc_solver.sh(2),
                            xx,
                            yi as int,
                            zz,
                        );
                        let f = wfc_solver.idx(xx, yi as int, zz);
                        assert(subset_of(wfc_solver.cells()[f], pre.cells()[f]));
                        assert(pre.cell(xx, yi as int, zz)[j]);
                        let i = choose|i: int|
                            0 <= i < pre.t() && bits_of(*bits)[i] && #[trigger] nb_of(
                                pre.nodes()[i],
                                *dir,
                            )[j];
                        assert(nb_of(wfc_solver.nodes()[i], *dir)[j]);
                    }
                }
            }
            z += 1;
        }
        x += 1;
    }
}

/// Removes the options in `bits` from every cell of the plane `z = const`;
/// a negative `z` names the last plane.
pub fn constrain_z_axis(wfc_solver: &mut Solver, bits: &Bits, z: i32)
    requires
        old(wfc_solver).wf(),
        bits_of(*bits).len() == old(wfc_solver).t(),
        z < 0 ==> old(wfc_solver).sh(2) >= 1,
        z >= 0 ==> z < old(wfc_solver).sh(2),
    ensures
        final(wfc_solver).wf(),
        final(wfc_solver).same_frame(*old(wfc_solver)),
        final(wfc_solver).spec_seed() == old(wfc_solver).spec_seed(),
        final(wfc_solver).shrinks_from(*old(wfc_solver)),
        old(wfc_solver).inv_ok() ==> final(wfc_solver).inv_ok(),
        ({
            let zi = if z < 0 {
                old(wfc_solver).sh(2) - 1
            } else {
                z as int
            };
            forall|x: int, y: int, j: int|
                #![trigger final(wfc_solver).cell(x, y, zi)[j]]
                0 <= x < final(wfc_solver).sh(0) && 0 <= y < final(wfc_solver).sh(1) && 0 <= j
                    < final(wfc_solver).t() && bits_of(*bits)[j] ==> !final(wfc_solver).cell(
                    x,
                    y,
                    zi,
                )[j]
        }),
{
    let zi: usize = if z < 0 {
        wfc_solver.shape()[2] - 1
    } else {
        z as usize
    };
    let sx = wfc_solver.shape()[0];
    let sy = wfc_solver.shape()[1];
    let ghost start = *wfc_solver;
    let mut x: usize = 0;
    while x < sx
        invariant
            wfc_solver.wf(),
            wfc_solver.same_frame(start),
            wfc_solver.spec_seed() == start.spec_seed(),
            wfc_solver.shrinks_from(start),
            start.inv_ok() ==> wfc_solver.inv_ok(),
            bits_of(*bits).len() == wfc_solver.t(),
            zi < wfc_solver.sh(2),
            sx == wfc_solver.sh(0),
            sy == wfc_solver.sh(1),
            x <= sx,
            forall|xx: int, yy: int, j: int|
                #![trigger wfc_solver.cell(xx, yy, zi as int)[j]]
                0 <= xx < x && 0 <= yy < sy && 0 <= j < wfc_solver.t() && bits_of(*bits)[j]
                    ==> !wfc_solver.cell(xx, yy, zi as int)[j],
        decreases sx - x,
    {
        let mut y: usize = 0;
        while y < sy
            invariant
                wfc_solver.wf(),
                wfc_solver.same_frame(start),
                wfc_solver.spec_seed() == start.spec_seed(),
                wfc_solver.shrinks_from(start),
                start.inv_ok() ==> wfc_solver.inv_ok(),
                bits_of(*bits).len() == wfc_solver.t(),
                zi < wfc_solver.sh(2),
                x < wfc_solver.sh(0),
                sx == wfc_solver.sh(0),
                sy == wfc_solver.sh(1),
                y <= sy,
                forall|xx: int, yy: int, j: int|
                    #![trigger wfc_solver.cell(xx, yy, zi as int)[j]]
                    0 <= xx < sx && 0 <= yy < sy && (xx < x || (xx == x && yy < y)) && 0 <= j
                        < wfc_solver.t() && bits_of(*bits)[j] ==> !wfc_solver.cell(
                        xx,
                        yy,
                        zi as int,
                    )[j],
            decreases sy - y,
        {
            let ghost pre = *wfc_solver;
            wfc_solver.constrain_list(&[x, y, zi], bits);
            proof {
                lemma_shrink_trans(start, pre, *wfc_solver);
                assert forall|xx: int, yy: int, j: int|
                    0 <= xx < sx && 0 <= yy < sy && (xx < x || (xx == x && yy < y + 1)) && 0 <= j
                        < wfc_solver.t() && bits_of(*bits)[j] implies !wfc_solver.cell(
                    xx,
                    yy,
                    zi as int,
                )[j] by {
                    if !(xx == x && yy == y) {
                        lemma_idx_bounds(
                            wfc_solver.sh(0),
                            wfc_solver.sh(1),
                            wfc_solver.sh(2),
                            xx,
                            yy,
                            zi as int,
                        );
                        let f = wfc_solver.idx(xx, yy, zi as int);
                        assert(subset_of(wfc_solver.cells()[f], pre.cells()[f]));
                        assert(!pre.cell(xx, yy, zi as int)[j]);
                    }
                }
            }
            y += 1;
        }
        x += 1;
    }
}

/// Forces the neighbors in direction `dir` of an area of the plane
/// `z = const` to lie in `bits`: each area cell keeps only options that
/// allow some tile of `bits` next door.  A negative `z` names the last
/// plane.
pub fn collapse_z_axis(
    wfc_solver: &mut Solver,
    bits: &Bits,
    z: i32,
    dir: &Direction,
    y_shape: [usize; 2],
    x_shape: [usize; 2],
)
    requires
        old(wfc_solver).wf(),
        bits_of(*bits).len() == old(wfc_solver).t(),
        z < 0 ==> old(wfc_solver).sh(2) >= 1,
        z >= 0 ==> z < old(wfc_solver).sh(2),
        x_shape[1] <= old(wfc_solver).sh(0),
        y_shape[1] <= old(wfc_solver).sh(1),
    ensures
        final(wfc_solver).wf(),
        final(wfc_solver).same_frame(*old(wfc_solver)),
        final(wfc_solver).spec_seed() == old(wfc_solver).spec_seed(),
        final(wfc_solver).shrinks_from(*old(wfc_solver)),
        old(wfc_solver).inv_ok() ==> final(wfc_solver).inv_ok(),
        ({
            let zi = if z < 0 {
                old(wfc_solver).sh(2) - 1
            } else {
                z as int
            };
            forall|x: int, y: int, j: int|
                #![trigger final(wfc_solver).cell(x, y, zi)[j]]
                x_shape[0] <= x < x_shape[1] && y_shape[0] <= y < y_shape[1] && 0 <= j
                    < final(wfc_solver).t() && final(wfc_solver).cell(x, y, zi)[j] ==> exists|i: int|
                    0 <= i < final(wfc_solver).t() && bits_of(*bits)[i] && #[trigger] nb_of(
                        final(wfc_solver).nodes()[i],
                        *dir,
                    )[j]
        }),
{
    let zi: usize = if z < 0 {
        wfc_solver.shape()[2] - 1
    } else {
        z as usize
    };
    let ghost start = *wfc_solver;
    let mut x: usize = x_shape[0];
    while x < x_shape[1]
        invariant
            wfc_solver.wf(),
            wfc_solver.same_frame(start),
            wfc_solver.spec_seed() == start.spec_seed(),
            wfc_solver.shrinks_from(start),
            start.inv_ok() ==> wfc_solver.inv_ok(),
            bits_of(*bits).len() == wfc_solver.t(),
            zi < wfc_solver.sh(2),
            x_shape[1] <= wfc_solver.sh(0),
            y_shape[1] <= wfc_solver.sh(1),
            x >= x_shape[0],
            forall|xx: int, yy: int, j: int|
                #![trigger wfc_solver.cell(xx, yy, zi as int)[j]]
                x_shape[0] <= xx < x && y_shape[0] <= yy < y_shape[1] && 0 <= j < wfc_solver.t()
                    && wfc_solver.cell(xx, yy, zi as int)[j] ==> exists|i: int|
                    0 <= i < wfc_solver.t() && bits_of(*bits)[i] && #[trigger] nb_of(
                        wfc_solver.nodes()[i],
                        *dir,
                    )[j],
        decreases x_shape[1] - x,
    {
        let mut y: usize = y_shape[0];
        while y < y_shape[1]
            invariant
                wfc_solver.wf(),
                wfc_solver.same_frame(start),
                wfc_solver.spec_seed() == start.spec_seed(),
                wfc_solver.shrinks_from(start),
                start.inv_ok() ==> wfc_solver.inv_ok(),
                bits_of(*bits).len() == wfc_solver.t(),
                zi < wfc_solver.sh(2),
                x < wfc_solver.sh(0),
                x >= x_shape[0],
                x_shape[1] <= wfc_solver.sh(0),
                y_shape[1] <= wfc_solver.sh(1),
                y >= y_shape[0],
                forall|xx: int, yy: int, j: int|
                    #![trigger wfc_solver.cell(xx, yy, zi as int)[j]]
                    x_shape[0] <= xx < x_shape[1] && y_shape[0] <= yy < y_shape[1] && (xx < x || (
                    xx == x && yy < y)) && 0 <= j < wfc_solver.t() && wfc_solver.cell(
                        xx,
                        yy,
                        zi as int,
                    )[j] ==> exists|i: int|
                        0 <= i < wfc_solver.t() && bits_of(*bits)[i] && #[trigger] nb_of(
                            wfc_solver.nodes()[i],
                            *dir,
                        )[j],
            decreases y_shape[1] - y,
        {
            let ghost pre = *wfc_solver;
            wfc_solver.force_neighbor(&[x, y, zi], bits, dir);
            proof {
                lemma_shrink_trans(start, pre, *wfc_solver);
                assert forall|xx: int, yy: int, j: int|
                    x_shape[0] <= xx < x_shape[1] && y_shape[0] <= yy < y_shape[1] && (xx < x || (
                    xx == x && yy < y + 1)) && 0 <= j < wfc_solver.t() && wfc_solver.cell(
                    xx,
                    yy,
                    zi as int,
                )[j] implies exists|i: int|
                    0 <= i < wfc_solver.t() && bits_of(*bits)[i] && #[trigger] nb_of(
                        wfc_solver.nodes()[i],
                        *dir,
                    )[j] by {
                    if !(xx == x && yy == y) {
                        lemma_idx_bounds(
                            wfc_solver.sh(0),
                            wfc_solver.sh(1),
                            wfc_solver.sh(2),
                            xx,
                            yy,
                            zi as int,
                        );
                        let f = wfc_solver.idx(xx, yy, zi as int);
                        assert(subset_of(wfc_solver.cells()[f], pre.cells()[f]));
                        assert(pre.cell(xx, yy, zi as int)[j]);
                        let i = choose|i: int|
                            0 <= i < pre.t() && bits_of(*bits)[i] && #[trigger] nb_of(
                                pre.nodes()[i],
                                *dir,
                            )[j];
                        assert(nb_of(wfc_solver.nodes()[i], *dir)[j]);
                    }
                }
            }
            y += 1;
        }
        x += 1;
    }
}

} // verus!
