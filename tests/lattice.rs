use voxel_sphere::geometry::{align_down_four, align_up_four, GridParams};
use voxel_sphere::grid::Grid3D;
use voxel_sphere::raster::{merge_flags, Atom};
use voxel_sphere::surface_area::classify_edge_point;

fn atom(x: i64, y: i64, z: i64, radius: i64) -> Atom {
    Atom { x, y, z, radius }
}

#[test]
fn new_grid_is_empty() {
    let g = Grid3D::new(4, 3, 2, 1000);
    assert_eq!(g.total_voxels, 24);
    assert_eq!(g.count_filled(), 0);
    assert_eq!(g.x_shift, 0);
}

#[test]
fn index_round_trip() {
    let g = Grid3D::new(4, 3, 5, 1000);
    assert_eq!(g.ijk_to_index(1, 2, 3), 1 + 2 * 4 + 3 * 12);
    for idx in 0..g.total_voxels {
        let (i, j, k) = g.index_to_ijk(idx);
        assert!(i < 4 && j < 3 && k < 5);
        assert_eq!(g.ijk_to_index(i, j, k), idx);
    }
    assert_eq!(g.index_to_ijk(47), (3, 2, 3));
    assert_eq!(g.ijk_to_shift(-1, 1, -1), -1 + 4 - 12);
}

#[test]
fn set_then_get() {
    let mut g = Grid3D::new(3, 3, 3, 1000);
    g.set_voxel_index(13, true);
    assert!(g.get_voxel_index(13));
    assert!(g.get_voxel_ijk(1, 1, 1));
    g.empty_voxel_ijk(1, 1, 1);
    assert!(!g.get_voxel_index(13));
    g.fill_voxel_ijk(2, 0, 1);
    assert!(g.get_voxel_index(2 + 9));
    g.fill_voxel_index(0);
    assert_eq!(g.count_filled(), 2);
    g.empty_voxel_index(0);
    g.set_voxel_ijk(0, 0, 0, true);
    assert!(g.get_voxel_index(0));
}

#[test]
fn invert_twice_restores() {
    let mut g = Grid3D::new(3, 2, 2, 1000);
    g.fill_voxel_index(1);
    g.fill_voxel_index(7);
    let before: Vec<bool> = (0..g.total_voxels).map(|i| g.get_voxel_index(i)).collect();
    g.invert();
    assert_eq!(g.count_filled(), 12 - 2);
    assert!(!g.get_voxel_index(1));
    assert!(g.get_voxel_index(0));
    g.invert();
    let after: Vec<bool> = (0..g.total_voxels).map(|i| g.get_voxel_index(i)).collect();
    assert_eq!(before, after);
}

#[test]
fn zero_grid_clears() {
    let mut g = Grid3D::new(2, 2, 2, 1000);
    g.invert();
    assert_eq!(g.count_filled(), 8);
    g.zero_grid();
    assert_eq!(g.count_filled(), 0);
}

#[test]
fn alignment_steps_one_block_further() {
    assert_eq!(align_down_four(8000, 1000), 4000);
    assert_eq!(align_up_four(8000, 1000), 12000);
    assert_eq!(align_down_four(-8000, 1000), -12000);
    assert_eq!(align_down_four(-5400, 1000), -8000);
    assert_eq!(align_up_four(6400, 1000), 8000);
}

#[test]
fn grid_params_need_three_valid_atoms() {
    let two = vec![atom(0, 0, 0, 1500), atom(1000, 0, 0, 1500)];
    assert!(GridParams::from_atoms(&two, 1400, 1000).is_none());
    let invalid = vec![atom(0, 0, 0, 1500), atom(1000, 0, 0, 0), atom(0, 1000, 0, 100_000)];
    assert!(GridParams::from_atoms(&invalid, 1400, 1000).is_none());
    let sentinel = vec![atom(0, 0, 0, 1500), atom(1000, 0, 0, 1500), atom(0, 9000, 0, -5)];
    assert!(GridParams::from_atoms(&sentinel, 1400, 1000).is_none());
}

#[test]
fn grid_params_padding_and_dimensions() {
    let atoms = vec![atom(0, 0, 0, 1500), atom(1000, 0, 0, 1500), atom(0, 2000, 0, 1500)];
    let p = GridParams::from_atoms(&atoms, 1400, 1000).unwrap();
    assert_eq!((p.xmin, p.xmax), (-12000, 12000));
    assert_eq!((p.ymin, p.ymax), (-12000, 12000));
    assert_eq!((p.zmin, p.zmax), (-12000, 12000));
    assert_eq!((p.len_i, p.len_j, p.len_k), (28, 28, 28));
    assert_eq!(p.grid, 1000);
    let g = p.build_grid();
    assert_eq!(g.total_voxels, 28 * 28 * 28);
    assert_eq!((g.x_shift, g.y_shift, g.z_shift), (-12000, -12000, -12000));
    assert_eq!(g.count_filled(), 0);
}

#[test]
fn grid_params_ignore_invalid_atoms() {
    let atoms = vec![
        atom(0, 0, 0, 1500),
        atom(50_000, 50_000, 50_000, 100_000),
        atom(1000, 0, 0, 1500),
        atom(0, 2000, 0, 1500),
    ];
    let p = GridParams::from_atoms(&atoms, 1400, 1000).unwrap();
    assert_eq!((p.xmin, p.xmax), (-12000, 12000));
    assert_eq!(p.len_i, 28);
}

#[test]
fn offsets_contain_zero_and_negations() {
    let g = Grid3D::new(10, 10, 10, 1000);
    for radius in [0i64, 500, 1000, 1500, 2300, 3000] {
        let offs = g.compute_offsets(radius);
        assert!(offs.contains(&0));
        for &o in &offs {
            assert!(offs.contains(&-o));
        }
    }
    assert_eq!(g.compute_offsets(0).len(), 1);
    assert_eq!(g.compute_offsets(1000).len(), 7);
    assert_eq!(g.compute_offsets(1500).len(), 19);
    assert_eq!(g.compute_offsets(2000).len(), 33);
}

#[test]
fn add_and_remove_sphere() {
    let mut g = Grid3D::new(7, 7, 7, 1000);
    g.add_sphere(3, 3, 3, 1000);
    assert_eq!(g.count_filled(), 7);
    assert!(g.get_voxel_ijk(3, 3, 4));
    assert!(!g.get_voxel_ijk(3, 4, 4));
    g.add_sphere(3, 3, 3, 2000);
    assert_eq!(g.count_filled(), 33);
    g.remove_sphere(3, 3, 3, 1000);
    assert_eq!(g.count_filled(), 33 - 7);
    assert!(!g.get_voxel_ijk(3, 3, 3));
}

#[test]
fn sphere_wraps_across_a_face() {
    let mut g = Grid3D::new(4, 4, 4, 1000);
    g.add_sphere(0, 1, 1, 1000);
    assert_eq!(g.count_filled(), 7);
    // the -i neighbour of (0, 1, 1) lands on (3, 0, 1)
    assert!(g.get_voxel_ijk(3, 0, 1));
}

#[test]
fn sphere_offsets_out_of_range_are_skipped() {
    let mut g = Grid3D::new(3, 3, 3, 1000);
    let offs = g.compute_offsets(1000);
    g.modify_sphere_with_offsets(0, 0, 0, &offs, true);
    // index -1, -3 and -9 fall outside the lattice
    assert_eq!(g.count_filled(), 4);
}

#[test]
fn fill_single_atom() {
    let mut g = Grid3D::new(5, 5, 5, 1000);
    let n = g.fill_accessible_parallel(&[atom(2000, 2000, 2000, 1000)], 0);
    assert_eq!(n, 1);
    let n = g.fill_accessible_parallel(&[atom(2000, 2000, 2000, 1000)], 500);
    assert_eq!(n, 19);
    assert_eq!(g.count_filled(), 19);
    assert!(g.get_voxel_ijk(3, 3, 2));
    assert!(!g.get_voxel_ijk(3, 3, 3));
}

#[test]
fn fill_skips_non_positive_radius_and_clears() {
    let mut g = Grid3D::new(5, 5, 5, 1000);
    g.invert();
    let n = g.fill_accessible_parallel(&[atom(2000, 2000, 2000, 1000)], -1000);
    assert_eq!(n, 0);
    let n = g.fill_accessible_parallel(&[], 1000);
    assert_eq!(n, 0);
}

#[test]
fn fill_uses_origin_shift() {
    let mut g = Grid3D::new(5, 5, 5, 500);
    g.x_shift = -1000;
    g.y_shift = -1000;
    g.z_shift = -1000;
    // centre (0, 0, 0) is cell (2, 2, 2); radius 1.2 cells
    let n = g.fill_accessible_parallel(&[atom(0, 0, 0, 600)], 0);
    assert_eq!(n, 7);
    assert!(g.get_voxel_ijk(2, 2, 2));
    assert!(g.get_voxel_ijk(1, 2, 2));
}

#[test]
fn fill_does_not_depend_on_chunking() {
    let atoms = vec![
        atom(1000, 1000, 1000, 1200),
        atom(4000, 3000, 2000, 1500),
        atom(2500, 2500, 6000, 900),
        atom(6000, 1000, 5000, 2000),
        atom(3000, 5500, 3500, 700),
    ];
    let mut reference = Grid3D::new(8, 8, 8, 1000);
    let n_ref = reference.fill_accessible_parallel(&atoms, 300);
    assert!(n_ref > 0);
    for chunk in 1..=6 {
        let mut g = Grid3D::new(8, 8, 8, 1000);
        let n = g.fill_accessible_chunked(&atoms, 300, chunk);
        assert_eq!(n, n_ref);
        for idx in 0..g.total_voxels {
            assert_eq!(g.get_voxel_index(idx), reference.get_voxel_index(idx));
        }
    }
}

fn cube(len: usize, lo: usize, hi: usize) -> Grid3D {
    let mut g = Grid3D::new(len, len, len, 1000);
    for k in lo..=hi {
        for j in lo..=hi {
            for i in lo..=hi {
                g.fill_voxel_ijk(i, j, k);
            }
        }
    }
    g
}

#[test]
fn contraction_with_zero_probe_is_noop() {
    let mut g = cube(7, 1, 5);
    let n = g.contract_exclusion_parallel(0);
    assert_eq!(n, 125);
    let n = g.contract_exclusion_parallel(-500);
    assert_eq!(n, 125);
}

#[test]
fn contraction_erodes_one_layer() {
    let mut g = cube(7, 1, 5);
    let n = g.contract_exclusion_parallel(1500);
    assert_eq!(n, 27);
    assert!(g.get_voxel_ijk(2, 2, 2));
    assert!(!g.get_voxel_ijk(1, 3, 3));
}

#[test]
fn contraction_with_sub_cell_probe_keeps_occupied_cells() {
    let mut g = cube(7, 1, 5);
    let n = g.contract_exclusion_parallel(1000);
    assert_eq!(n, 125);
}

#[test]
fn isolated_voxel_is_type_nine() {
    let mut g = Grid3D::new(3, 3, 3, 1000);
    g.fill_voxel_ijk(1, 1, 1);
    assert_eq!(classify_edge_point(&g, 13), 9);
    let (area, hist) = g.estimate_surface_area_with_edges();
    assert_eq!(hist[9], 1);
    assert_eq!(hist.iter().sum::<usize>(), 1);
    assert_eq!(area, 40800 * 1000 * 1000);
}

#[test]
fn surface_area_of_a_pair() {
    let mut g = Grid3D::new(4, 3, 3, 2000);
    g.fill_voxel_ijk(1, 1, 1);
    g.fill_voxel_ijk(2, 1, 1);
    assert_eq!(classify_edge_point(&g, g.ijk_to_index(1, 1, 1)), 6);
    let (area, hist) = g.estimate_surface_area_with_edges();
    assert_eq!(hist[6], 2);
    assert_eq!(area, 2 * 33333 * 2000 * 2000);
}

#[test]
fn classification_table() {
    // full 3x3x3 block: the centre is interior, face centres have one empty
    // neighbour, edges two (adjacent), corners three (adjacent)
    let g = cube(3, 0, 2);
    assert_eq!(classify_edge_point(&g, 13), 0);
    assert_eq!(classify_edge_point(&g, g.ijk_to_index(1, 1, 0)), 1);
    assert_eq!(classify_edge_point(&g, g.ijk_to_index(1, 0, 0)), 2);
    assert_eq!(classify_edge_point(&g, g.ijk_to_index(0, 0, 0)), 3);
    let (_, hist) = g.estimate_surface_area_with_edges();
    assert_eq!(hist[0..4].to_vec(), vec![1, 6, 12, 8]);
    // a straight rod of three cells: the middle has its two i neighbours
    // occupied and four empty
    let mut rod = Grid3D::new(5, 3, 3, 1000);
    for i in 1..=3 {
        rod.fill_voxel_ijk(i, 1, 1);
    }
    assert_eq!(classify_edge_point(&rod, rod.ijk_to_index(2, 1, 1)), 8);
    // a one-cell-thick slab: the centre has both k neighbours empty
    let mut slab = Grid3D::new(3, 3, 3, 1000);
    for j in 0..3 {
        for i in 0..3 {
            slab.fill_voxel_ijk(i, j, 1);
        }
    }
    assert_eq!(classify_edge_point(&slab, 13), 7);
    assert_eq!(classify_edge_point(&slab, slab.ijk_to_index(1, 0, 1)), 4);
    assert_eq!(classify_edge_point(&slab, slab.ijk_to_index(0, 0, 1)), 5);
}

#[test]
fn voxel_bytes_follow_linear_order() {
    let mut g = Grid3D::new(2, 2, 1, 1000);
    g.fill_voxel_ijk(1, 0, 0);
    g.fill_voxel_ijk(0, 1, 0);
    assert_eq!(g.voxel_bytes(), vec![0, 1, 1, 0]);
}

#[test]
fn surface_voxels_skip_interior() {
    let g = cube(3, 0, 2);
    let s = g.surface_voxels();
    assert_eq!(s.len(), 26);
    assert!(!s.contains(&13));
    assert!(s.windows(2).all(|w| w[0] < w[1]));
}

#[test]
fn naive_area_counts_exposed_faces() {
    let mut g = Grid3D::new(4, 3, 3, 2000);
    g.fill_voxel_ijk(1, 1, 1);
    assert_eq!(g.area_naive(), 6 * 2000 * 2000);
    g.fill_voxel_ijk(2, 1, 1);
    assert_eq!(g.area_naive(), 10 * 2000 * 2000);
    let full = cube(3, 0, 2);
    assert_eq!(full.area_naive(), 54 * 1000 * 1000);
}

#[test]
fn worker_shares_combine_by_or() {
    let atoms = vec![atom(1000, 1000, 1000, 1200), atom(4000, 3000, 2000, 1500), atom(2500, 2500, 6000, 900)];
    let g = Grid3D::new(8, 8, 8, 1000);
    let mut flags = g.accessible_flags(&atoms[..1], 200);
    let rest = g.accessible_flags(&atoms[1..], 200);
    merge_flags(&mut flags, &rest);
    let whole = g.accessible_flags(&atoms, 200);
    assert_eq!(flags, whole);
    let mut h = Grid3D::new(8, 8, 8, 1000);
    let n = h.store_cells(&flags);
    assert_eq!(n, whole.iter().filter(|&&b| b).count());
    let mut reference = Grid3D::new(8, 8, 8, 1000);
    assert_eq!(reference.fill_accessible_parallel(&atoms, 200), n);
}

#[test]
fn offsets_listed_once_in_loop_order() {
    let g = Grid3D::new(3, 3, 3, 1000);
    assert_eq!(g.compute_offsets(1000), vec![-1, -3, -9, 0, 9, 3, 1]);
    let h = Grid3D::new(5, 5, 5, 1000);
    let offs = h.compute_offsets(2000);
    assert_eq!(offs.len(), 33);
    assert!(offs.contains(&2) && offs.contains(&10) && offs.contains(&50));
    let n = offs.len();
    for i in 0..n {
        assert_eq!(offs[n - 1 - i], -offs[i]);
    }
    assert_eq!(offs[n / 2], 0);
}

#[test]
fn clone_keeps_frame_and_cells() {
    let mut g = Grid3D::new(3, 4, 5, 1500);
    g.x_shift = -7000;
    g.fill_voxel_ijk(2, 3, 4);
    let c = g.clone();
    g.empty_voxel_ijk(2, 3, 4);
    assert_eq!((c.len_i, c.len_j, c.len_k, c.grid_size, c.x_shift), (3, 4, 5, 1500, -7000));
    assert!(c.get_voxel_ijk(2, 3, 4));
    assert_eq!(c.count_filled(), 1);
    assert_eq!(g.count_filled(), 0);
}
