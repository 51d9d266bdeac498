use voxel_wfc::node::{Socket, SocketKind, Sockets};
use voxel_wfc::voxel::{
    mirrored_face, node_dict_from_files, register_side_face, register_vert_face,
    rotate_side_sockets, rotate_vert_socket, rotated_array_p90, socket_matches,
    usize_from_bits, vox_array_from_bytes, Face, TileError, VoxFile,
};
use voxel_wfc::NodeData;

/// Builds an xraw buffer of the given extents from a voxel function.
fn xraw(w: usize, h: usize, l: usize, f: impl Fn(usize, usize, usize) -> u8) -> Vec<u8> {
    let mut b = vec![0u8; 24];
    b[0] = b'X';
    b[1] = b'R';
    b[2] = b'A';
    b[3] = b'W';
    b[7] = 8;
    b[8] = w as u8;
    b[12] = h as u8;
    b[16] = l as u8;
    for x in 0..w {
        for y in 0..h {
            for z in 0..l {
                b.push(f(x, y, z));
            }
        }
    }
    b
}

fn bv_to_vec(b: &voxel_wfc::Bits, n: usize) -> Vec<bool> {
    (0..n).map(|i| voxel_wfc::bits::bv_get(b, i)).collect()
}

#[test]
fn usize_from_bits_little_endian() {
    assert_eq!(usize_from_bits(&[0x78, 0x56, 0x34, 0x12]), 0x12345678);
    assert_eq!(usize_from_bits(&[0, 0, 0, 0]), 0);
    assert_eq!(usize_from_bits(&[0xff, 0xff, 0xff, 0xff]), 0xffff_ffff);
}

#[test]
fn parse_good_header() {
    let b = xraw(2, 2, 2, |x, _, _| if x == 0 { 3 } else { 9 });
    let v = vox_array_from_bytes(&b).unwrap();
    assert_eq!((v.w, v.h, v.l), (2, 2, 2));
    assert_eq!(v.data, vec![3, 3, 3, 3, 9, 9, 9, 9]);
}

#[test]
fn parse_wrong_magic() {
    let mut b = xraw(1, 1, 1, |_, _, _| 0);
    b[0] = b'Y';
    let e = vox_array_from_bytes(&b).unwrap_err();
    assert_eq!(e, "wrong magic");
}

#[test]
fn parse_bad_bits_per_index() {
    let mut b = xraw(1, 1, 1, |_, _, _| 0);
    b[7] = 16;
    let e = vox_array_from_bytes(&b).unwrap_err();
    assert_eq!(e, "bits per index is not eight");
}

#[test]
fn parse_short_header() {
    let e = vox_array_from_bytes(&vec![b'X', b'R', b'A', b'W']).unwrap_err();
    assert_eq!(e, "file too short for header");
}

#[test]
fn parse_short_payload() {
    let mut b = xraw(2, 2, 2, |_, _, _| 1);
    b.truncate(30);
    let e = vox_array_from_bytes(&b).unwrap_err();
    assert_eq!(e, "file too short for voxel data");
}

#[test]
fn mirror_reverses_rows() {
    let f = Face { n: 2, bytes: vec![1, 2, 3, 4] };
    let m = mirrored_face(&f);
    assert_eq!(m.bytes, vec![2, 1, 4, 3]);
}

#[test]
fn quarter_turn_exact() {
    let f = Face { n: 2, bytes: vec![1, 2, 3, 4] };
    let r = rotated_array_p90(&f);
    assert_eq!(r.bytes, vec![2, 4, 1, 3]);
}

#[test]
fn socket_matching_rules() {
    let sym = Socket { serial: 0, kind: SocketKind::Sym };
    let fem = Socket { serial: 0, kind: SocketKind::Fem };
    let male = Socket { serial: 0, kind: SocketKind::Male };
    let male1 = Socket { serial: 1, kind: SocketKind::Male };
    let v1 = Socket { serial: 2, kind: SocketKind::VertRot(1) };
    let v2 = Socket { serial: 2, kind: SocketKind::VertRot(2) };
    let vi = Socket { serial: 3, kind: SocketKind::VertInv };
    assert!(socket_matches(&sym, &sym));
    assert!(socket_matches(&fem, &male));
    assert!(socket_matches(&male, &fem));
    assert!(!socket_matches(&fem, &fem));
    assert!(!socket_matches(&male, &male));
    assert!(!socket_matches(&fem, &male1));
    assert!(socket_matches(&v1, &v1));
    assert!(!socket_matches(&v1, &v2));
    assert!(socket_matches(&vi, &vi));
    assert!(!socket_matches(&sym, &fem));
}

#[test]
fn socket_matching_symmetric_samples() {
    let kinds = [
        SocketKind::Sym,
        SocketKind::Fem,
        SocketKind::Male,
        SocketKind::VertInv,
        SocketKind::VertRot(0),
        SocketKind::VertRot(3),
    ];
    for &ka in &kinds {
        for &kb in &kinds {
            for sa in 0..2usize {
                for sb in 0..2usize {
                    let a = Socket { serial: sa, kind: ka };
                    let b = Socket { serial: sb, kind: kb };
                    assert_eq!(socket_matches(&a, &b), socket_matches(&b, &a));
                }
            }
        }
    }
}

#[test]
fn register_side_mirror_pair() {
    let mut map: Vec<(Face, Socket)> = Vec::new();
    let mut serial: usize = 0;
    let mut sock = Socket { serial: 0, kind: SocketKind::Sym };
    register_side_face(
        &mut map,
        Face { n: 2, bytes: vec![1, 2, 1, 2] },
        &mut serial,
        &mut sock,
    );
    assert_eq!(sock, Socket { serial: 0, kind: SocketKind::Male });
    assert_eq!(serial, 1);
    assert_eq!(map.len(), 2);
    assert_eq!(map[0].0.bytes, vec![2, 1, 2, 1]);
    assert_eq!(map[0].1, Socket { serial: 0, kind: SocketKind::Fem });
    assert_eq!(map[1].1, Socket { serial: 0, kind: SocketKind::Male });
    // the mirrored face finds its female socket
    let mut sock2 = Socket { serial: 9, kind: SocketKind::Sym };
    register_side_face(
        &mut map,
        Face { n: 2, bytes: vec![2, 1, 2, 1] },
        &mut serial,
        &mut sock2,
    );
    assert_eq!(sock2, Socket { serial: 0, kind: SocketKind::Fem });
    assert_eq!(serial, 1);
    assert!(socket_matches(&sock, &sock2));
    assert!(!socket_matches(&sock, &sock));
}

#[test]
fn register_side_symmetric() {
    let mut map: Vec<(Face, Socket)> = Vec::new();
    let mut serial: usize = 0;
    let mut sock = Socket { serial: 9, kind: SocketKind::Male };
    register_side_face(
        &mut map,
        Face { n: 2, bytes: vec![5, 5, 7, 7] },
        &mut serial,
        &mut sock,
    );
    assert_eq!(sock, Socket { serial: 0, kind: SocketKind::Sym });
    assert_eq!(map.len(), 1);
    assert_eq!(serial, 1);
}

#[test]
fn register_vert_invariant() {
    let mut map: Vec<(Face, Socket)> = Vec::new();
    let mut serial: usize = 0;
    let mut sock = Socket { serial: 9, kind: SocketKind::Male };
    register_vert_face(
        &mut map,
        Face { n: 2, bytes: vec![4, 4, 4, 4] },
        &mut serial,
        &mut sock,
    );
    assert_eq!(sock, Socket { serial: 0, kind: SocketKind::VertInv });
    assert_eq!(map.len(), 1);
    assert_eq!(serial, 1);
}

#[test]
fn register_vert_four_rotations() {
    let mut map: Vec<(Face, Socket)> = Vec::new();
    let mut serial: usize = 0;
    let mut sock = Socket { serial: 9, kind: SocketKind::Male };
    register_vert_face(
        &mut map,
        Face { n: 2, bytes: vec![1, 2, 3, 4] },
        &mut serial,
        &mut sock,
    );
    assert_eq!(sock, Socket { serial: 0, kind: SocketKind::VertRot(0) });
    assert_eq!(map.len(), 4);
    assert_eq!(map[1].1, Socket { serial: 0, kind: SocketKind::VertRot(1) });
    assert_eq!(map[1].0.bytes, vec![2, 4, 1, 3]);
    assert_eq!(map[3].1, Socket { serial: 0, kind: SocketKind::VertRot(3) });
    assert_eq!(serial, 1);
    // a quarter turn of the face finds the next rotation socket
    let mut sock2 = Socket { serial: 9, kind: SocketKind::Male };
    register_vert_face(
        &mut map,
        Face { n: 2, bytes: vec![2, 4, 1, 3] },
        &mut serial,
        &mut sock2,
    );
    assert_eq!(sock2, Socket { serial: 0, kind: SocketKind::VertRot(1) });
    assert_eq!(serial, 1);
}

#[test]
fn rotate_vert_socket_wraps() {
    let base = Socket { serial: 4, kind: SocketKind::VertRot(3) };
    let mut out = Socket { serial: 0, kind: SocketKind::Sym };
    rotate_vert_socket(&base, &mut out, 2);
    assert_eq!(out, Socket { serial: 4, kind: SocketKind::VertRot(1) });
    let inv = Socket { serial: 5, kind: SocketKind::VertInv };
    rotate_vert_socket(&inv, &mut out, 3);
    assert_eq!(out, inv);
}

fn sample_sockets() -> Sockets {
    Sockets {
        px: Socket { serial: 0, kind: SocketKind::Male },
        nx: Socket { serial: 0, kind: SocketKind::Fem },
        py: Socket { serial: 1, kind: SocketKind::VertRot(2) },
        ny: Socket { serial: 2, kind: SocketKind::VertInv },
        pz: Socket { serial: 3, kind: SocketKind::Sym },
        nz: Socket { serial: 4, kind: SocketKind::Sym },
    }
}

#[test]
fn rotate_sides_permutation() {
    let s = sample_sockets();
    let mut out = s;
    rotate_side_sockets(&s, &mut out, 1);
    assert_eq!(out.px, s.pz);
    assert_eq!(out.nx, s.nz);
    assert_eq!(out.pz, s.nx);
    assert_eq!(out.nz, s.px);
    assert_eq!(out.py, s.py);
    assert_eq!(out.ny, s.ny);
}

#[test]
fn four_quarter_turns_restore_sockets() {
    let s = sample_sockets();
    let mut cur = s;
    for _ in 0..4 {
        let prev = cur;
        let mut next = prev;
        rotate_side_sockets(&prev, &mut next, 1);
        rotate_vert_socket(&prev.py, &mut next.py, 1);
        rotate_vert_socket(&prev.ny, &mut next.ny, 1);
        cur = next;
    }
    assert_eq!(cur, s);
}

#[test]
fn node_dict_uniform_cube() {
    let files = vec![VoxFile { name: "cube.xraw".to_string(), bytes: xraw(2, 2, 2, |_, _, _| 7) }];
    let nodes = node_dict_from_files(&files, 2, &Vec::new()).unwrap();
    assert_eq!(nodes.len(), 4);
    assert_eq!(nodes[0].rotation, 1);
    assert_eq!(nodes[1].rotation, 2);
    assert_eq!(nodes[2].rotation, 3);
    assert_eq!(nodes[3].rotation, 0);
    for n in &nodes {
        assert_eq!(n.asset_name, "cube");
        assert_eq!(n.sockets.px, Socket { serial: 0, kind: SocketKind::Sym });
        assert_eq!(n.sockets.py, Socket { serial: 1, kind: SocketKind::VertInv });
        // every tile is a legal neighbor of every tile in every direction
        assert_eq!(bv_to_vec(&n.valid_neighbors.px, 4), vec![true; 4]);
        assert_eq!(bv_to_vec(&n.valid_neighbors.ny, 4), vec![true; 4]);
    }
}

#[test]
fn node_dict_empty_is_error() {
    let e = match node_dict_from_files(&Vec::new(), 2, &Vec::new()) {
        Err(e) => e,
        Ok(_) => panic!("expected an error"),
    };
    assert!(matches!(e, TileError::BadTileSet { .. }));
}

#[test]
fn node_dict_short_name_is_error() {
    let files = vec![VoxFile { name: "a.xr".to_string(), bytes: xraw(2, 2, 2, |_, _, _| 7) }];
    let e = match node_dict_from_files(&files, 2, &Vec::new()) {
        Err(e) => e,
        Ok(_) => panic!("expected an error"),
    };
    match e {
        TileError::BadVoxelFile { path, .. } => assert_eq!(path, "a.xr"),
        _ => panic!("expected a voxel file error"),
    }
}

#[test]
fn node_dict_wrong_cube_is_error() {
    let files = vec![VoxFile { name: "a.xraw".to_string(), bytes: xraw(2, 2, 2, |_, _, _| 7) }];
    let e = match node_dict_from_files(&files, 3, &Vec::new()) {
        Err(e) => e,
        Ok(_) => panic!("expected an error"),
    };
    assert!(matches!(e, TileError::BadTileSet { .. }));
}

#[test]
fn exclusion_clears_ordered_pair() {
    let files = vec![
        VoxFile { name: "a.xraw".to_string(), bytes: xraw(2, 2, 2, |_, _, _| 7) },
        VoxFile { name: "b.xraw".to_string(), bytes: xraw(2, 2, 2, |_, _, _| 7) },
    ];
    let excl = vec![("a".to_string(), "b".to_string())];
    let nodes = node_dict_from_files(&files, 2, &excl).unwrap();
    assert_eq!(nodes.len(), 8);
    for i in 0..4 {
        let row = bv_to_vec(&nodes[i].valid_neighbors.px, 8);
        // every b-derived bit is cleared in every a-derived row
        assert_eq!(&row[4..8], &[false; 4]);
        // a next to a still allowed
        assert_eq!(&row[0..4], &[true; 4]);
    }
    // the exclusion is ordered: b rows still allow a
    for j in 4..8 {
        let row = bv_to_vec(&nodes[j].valid_neighbors.px, 8);
        assert_eq!(&row[0..4], &[true; 4]);
    }
}

#[test]
fn antisymmetry_with_symmetric_exclusions() {
    let files = vec![
        VoxFile { name: "a.xraw".to_string(), bytes: xraw(2, 2, 2, |_, _, _| 1) },
        VoxFile {
            name: "b.xraw".to_string(),
            bytes: xraw(2, 2, 2, |_, y, _| if y == 0 { 1 } else { 2 }),
        },
    ];
    let excl = vec![("a".to_string(), "b".to_string()), ("b".to_string(), "a".to_string())];
    let nodes = node_dict_from_files(&files, 2, &excl).unwrap();
    for i in 0..8 {
        for j in 0..8 {
            let fwd = [
                bv_to_vec(&nodes[i].valid_neighbors.px, 8)[j],
                bv_to_vec(&nodes[i].valid_neighbors.py, 8)[j],
                bv_to_vec(&nodes[i].valid_neighbors.pz, 8)[j],
            ];
            let back = [
                bv_to_vec(&nodes[j].valid_neighbors.nx, 8)[i],
                bv_to_vec(&nodes[j].valid_neighbors.ny, 8)[i],
                bv_to_vec(&nodes[j].valid_neighbors.nz, 8)[i],
            ];
            assert_eq!(fwd, back);
        }
    }
}

#[test]
fn node_data_accessors() {
    let files = vec![VoxFile { name: "cube.xraw".to_string(), bytes: xraw(2, 2, 2, |_, _, _| 7) }];
    let nd = NodeData::new(2, &files, &Vec::new()).unwrap();
    assert_eq!(nd.node_dict().len(), 4);
    assert_eq!(bv_to_vec(nd.bit_mask(), 4), vec![true; 4]);
    assert_eq!(nd.get_rotation(&0), Some(1));
    assert_eq!(nd.get_rotation(&3), Some(0));
    assert_eq!(nd.get_rotation(&4), None);
    assert_eq!(nd.get_asset_name(&2).map(|s| s.as_str()), Some("cube"));
    assert!(nd.get_asset_name(&9).is_none());
    let bits = nd.asset_bits(&"cube".to_string()).unwrap();
    assert_eq!(bv_to_vec(bits, 4), vec![true; 4]);
    assert!(nd.asset_bits(&"other".to_string()).is_none());
}
