//! The tile set: the tile dictionary, the universe mask and the per-asset
//! bit masks.

use vstd::prelude::*;

use crate::bits::{bits_of, bv_repeat, bv_set, Bits};
use crate::node::Node;
use crate::voxel::{dict_ok, node_dict_from_files, str_eq, TileError, VoxFile};

verus! {

/// Some entry of the asset map carries this name.
pub open spec fn has_entry(m: Seq<(String, Bits)>, name: Seq<char>) -> bool {
    exists|e: int| 0 <= e < m.len() && (#[trigger] m[e]).0@ == name
}

/// Holds every tile and the asset bit masks.  Built once from voxel files
/// plus an exclusion list; immutable afterwards.
pub struct NodeData {
    node_dict: Vec<Node>,
    bit_mask: Bits,
    asset_bits: Vec<(String, Bits)>,
}

impl NodeData {
    /// The tiles, indexed by their dense IDs.
    pub closed spec fn spec_nodes(self) -> Seq<Node> {
        self.node_dict@
    }

    /// The universe mask.
    pub closed spec fn spec_mask(self) -> Seq<bool> {
        bits_of(self.bit_mask)
    }

    /// Every asset-bits entry marks exactly the tiles of its asset, and
    /// every tile's asset has an entry.
    pub closed spec fn assets_ok(self) -> bool {
        &&& forall|e: int|
            0 <= e < self.asset_bits@.len() ==> bits_of((#[trigger] self.asset_bits@[e]).1).len()
                == self.node_dict@.len() && forall|k: int|
                0 <= k < self.node_dict@.len() ==> bits_of(self.asset_bits@[e].1)[k] == (
                self.node_dict@[k].asset_name@ == self.asset_bits@[e].0@)
        &&& forall|k: int|
            0 <= k < self.node_dict@.len() ==> has_entry(
                self.asset_bits@,
                (#[trigger] self.node_dict@[k]).asset_name@,
            )
    }

    /// The universe mask has one set bit per tile, and the asset masks are
    /// in order.
    pub open spec fn wf(self) -> bool {
        &&& self.spec_mask().len() == self.spec_nodes().len()
        &&& forall|i: int| 0 <= i < self.spec_mask().len() ==> self.spec_mask()[i]
        &&& self.assets_ok()
    }

    /// Builds the tile set from voxel files: four tiles per file, the
    /// derived compatibility matrix, the all-ones universe mask and one bit
    /// mask per asset name.
    #[verifier::rlimit(50)]
    pub fn new(node_size: usize, files: &Vec<VoxFile>, exclusions: &Vec<(String, String)>) -> (r:
        Result<NodeData, TileError>)
        requires
            node_size >= 1,
            files@.len() * 6 + 6 <= usize::MAX,
        ensures
            r is Ok <==> (files@.len() > 0 && forall|i: int|
                0 <= i < files@.len() ==> crate::voxel::file_good(
                    #[trigger] files@[i],
                    node_size as int,
                )),
            match r {
                Ok(nd) => nd.wf() && dict_ok(
                    nd.spec_nodes(),
                    files@,
                    node_size as int,
                    exclusions@,
                ),
                Err(e) => match e {
                    TileError::BadVoxelFile { path, reason } => exists|i: int|
                        0 <= i < files@.len() && (#[trigger] files@[i]).name@ == path@ && (
                        !crate::voxel::spec_xraw_ok(files@[i].bytes@) || files@[i].name@.len() < 5),
                    TileError::BadTileSet { reason } => files@.len() == 0 || exists|i: int|
                        0 <= i < files@.len() && crate::voxel::spec_xraw_ok(
                            (#[trigger] files@[i]).bytes@,
                        ) && !(crate::voxel::spec_le32(files@[i].bytes@, 8) == node_size
                            && crate::voxel::spec_le32(files@[i].bytes@, 12) == node_size
                            && crate::voxel::spec_le32(files@[i].bytes@, 16) == node_size),
                },
            },
    {
        let node_dict = match node_dict_from_files(files, node_size, exclusions) {
            Ok(nodes) => nodes,
            Err(e) => {
                return Err(e);
            },
        };
        let asset_bits = build_asset_bits(&node_dict);
        let t = node_dict.len();
        let bit_mask = bv_repeat(true, t);
        let nd = NodeData { node_dict, bit_mask, asset_bits };
        assert(nd.wf());
        Ok(nd)
    }

    /// The dictionary of every tile.
    pub fn node_dict(&self) -> (r: &Vec<Node>)
        ensures
            r@ == self.spec_nodes(),
    {
        &self.node_dict
    }

    /// A bit mask with one set bit per tile.
    pub fn bit_mask(&self) -> (r: &Bits)
        ensures
            bits_of(*r) == self.spec_mask(),
    {
        &self.bit_mask
    }

    /// The rotation of the tile with the given ID, if it exists.
    pub fn get_rotation(&self, node_id: &usize) -> (r: Option<u8>)
        ensures
            *node_id < self.spec_nodes().len() ==> r == Some(
                self.spec_nodes()[*node_id as int].rotation,
            ),
            *node_id >= self.spec_nodes().len() ==> r is None,
    {
        if *node_id < self.node_dict.len() {
            Some(self.node_dict[*node_id].rotation)
        } else {
            None
        }
    }

    /// The asset name of the tile with the given ID, if it exists.
    pub fn get_asset_name(&self, node_id: &usize) -> (r: Option<&String>)
        ensures
            match r {
                Some(s) => *node_id < self.spec_nodes().len() && s@ == self.spec_nodes()[*node_id as int].asset_name@,
                None => *node_id >= self.spec_nodes().len(),
            },
    {
        if *node_id < self.node_dict.len() {
            Some(&self.node_dict[*node_id].asset_name)
        } else {
            None
        }
    }

    /// The bit mask of every tile of the given asset, if any tile has it.
    pub fn asset_bits(&self, asset: &String) -> (r: Option<&Bits>)
        requires
            self.wf(),
        ensures
            match r {
                Some(b) => bits_of(*b).len() == self.spec_nodes().len() && forall|k: int|
                    0 <= k < self.spec_nodes().len() ==> bits_of(*b)[k] == (
                    self.spec_nodes()[k].asset_name@ == asset@),
                None => forall|e: int|
                    0 <= e < self.spec_nodes().len() ==> (#[trigger] self.spec_nodes()[e]).asset_name@
                        != asset@,
            },
    {
        let mut e: usize = 0;
        while e < self.asset_bits.len()
            invariant
                self.wf(),
                e <= self.asset_bits@.len(),
                forall|x: int| 0 <= x < e ==> (#[trigger] self.asset_bits@[x]).0@ != asset@,
            decreases self.asset_bits@.len() - e,
        {
            if str_eq(self.asset_bits[e].0.as_str(), asset.as_str()) {
                return Some(&self.asset_bits[e].1);
            }
            e += 1;
        }
        assert forall|k: int|
            0 <= k < self.spec_nodes().len() implies (#[trigger] self.spec_nodes()[k]).asset_name@
            != asset@ by {
            assert(has_entry(self.asset_bits@, self.node_dict@[k].asset_name@));
            let x = choose|x: int|
                0 <= x < self.asset_bits@.len() && (#[trigger] self.asset_bits@[x]).0@
                    == self.node_dict@[k].asset_name@;
        }
        None
    }
}


/// One bit mask per distinct asset name: bit `k` of an asset's mask is set
/// exactly when tile `k` carries that asset.
#[verifier::rlimit(50)]
fn build_asset_bits(node_dict: &Vec<Node>) -> (r: Vec<(String, Bits)>)
    ensures
        forall|e: int|
            0 <= e < r@.len() ==> bits_of((#[trigger] r@[e]).1).len() == node_dict@.len()
                && forall|k: int|
                0 <= k < node_dict@.len() ==> bits_of(r@[e].1)[k] == (node_dict@[k].asset_name@
                    == r@[e].0@),
        forall|k: int|
            0 <= k < node_dict@.len() ==> has_entry(r@, (#[trigger] node_dict@[k]).asset_name@),
{
    let t = node_dict.len();
    let mut asset_bits: Vec<(String, Bits)> = Vec::new();
    let mut id: usize = 0;
    while id < t
        invariant
            t == node_dict@.len(),
            id <= t,
            forall|e: int|
                0 <= e < asset_bits@.len() ==> bits_of((#[trigger] asset_bits@[e]).1).len() == t
                    && forall|k: int|
                    0 <= k < t ==> bits_of(asset_bits@[e].1)[k] == (node_dict@[k].asset_name@
                        == asset_bits@[e].0@),
            forall|k: int|
                0 <= k < id ==> has_entry(asset_bits@, (#[trigger] node_dict@[k]).asset_name@),
        decreases t - id,
    {
        let mut found = false;
        let mut e: usize = 0;
        while e < asset_bits.len()
            invariant
                e <= asset_bits@.len(),
                t == node_dict@.len(),
                id < t,
                found ==> has_entry(asset_bits@, node_dict@[id as int].asset_name@),
            decreases asset_bits@.len() - e,
        {
            if str_eq(asset_bits[e].0.as_str(), node_dict[id].asset_name.as_str()) {
                found = true;
                break ;
            }
            e += 1;
        }
        if !found {
            let mut row = bv_repeat(false, t);
            let mut j: usize = 0;
            while j < t
                invariant
                    t == node_dict@.len(),
                    id < t,
                    j <= t,
                    bits_of(row).len() == t,
                    forall|k: int|
                        0 <= k < t ==> bits_of(row)[k] == (k < j && node_dict@[k].asset_name@
                            == node_dict@[id as int].asset_name@),
                decreases t - j,
            {
                if str_eq(node_dict[j].asset_name.as_str(), node_dict[id].asset_name.as_str()) {
                    bv_set(&mut row, j, true);
                }
                j += 1;
            }
            let key = String::from_str(node_dict[id].asset_name.as_str());
            let ghost before = asset_bits@;
            asset_bits.push((key, row));
            assert(asset_bits@[asset_bits@.len() - 1].0@ == node_dict@[id as int].asset_name@);
            assert(has_entry(asset_bits@, node_dict@[id as int].asset_name@));
            assert forall|k: int| 0 <= k < id implies has_entry(
                asset_bits@,
                (#[trigger] node_dict@[k]).asset_name@,
            ) by {
                let e0 = choose|e: int|
                    0 <= e < before.len() && (#[trigger] before[e]).0@
                        == node_dict@[k].asset_name@;
                assert(asset_bits@[e0] == before[e0]);
            }
            assert forall|e2: int|
                0 <= e2 < asset_bits@.len() implies bits_of(
                (#[trigger] asset_bits@[e2]).1,
            ).len() == t && forall|k: int|
                0 <= k < t ==> bits_of(asset_bits@[e2].1)[k] == (node_dict@[k].asset_name@
                    == asset_bits@[e2].0@) by {
                if e2 < before.len() {
                    assert(asset_bits@[e2] == before[e2]);
                }
            }
        }
        assert(has_entry(asset_bits@, node_dict@[id as int].asset_name@));
        id += 1;
    }
    asset_bits
}

} // verus!
