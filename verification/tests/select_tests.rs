use halite_core::coord::Coord;
use halite_core::select::{
    convolution, get_best_locations, get_kernel_builtin, get_max, ConvolveKernelVal, KERNEL_SCALE,
};

fn single_source_field(n: usize, z: (usize, usize), v: usize) -> Vec<Vec<usize>> {
    let mut m = vec![vec![0usize; n]; n];
    m[z.0][z.1] = v;
    m
}

#[test]
fn uniform_kernel_weights_are_scale_over_k_squared() {
    let k = 3;
    let ker = get_kernel_builtin(ConvolveKernelVal::Uniform, k);
    assert_eq!(ker.len(), 3);
    for row in &ker {
        assert_eq!(row.len(), 3);
        for w in row {
            assert_eq!(*w, KERNEL_SCALE / 9);
        }
    }
}

#[test]
fn gaussian_kernel_peaks_at_center() {
    let ker = get_kernel_builtin(ConvolveKernelVal::Gaussian, 5);
    let center = ker[2][2];
    for (i, row) in ker.iter().enumerate() {
        for (j, w) in row.iter().enumerate() {
            if (i, j) != (2, 2) {
                assert!(*w < center);
            }
        }
    }
}

#[test]
fn uniform_convolution_of_single_source() {
    // a single nonzero cell of value v scores v / k² (in kernel scale) at
    // every cell whose window covers it, and zero elsewhere
    let v = 1000usize;
    let m = single_source_field(5, (2, 2), v);
    let ker = get_kernel_builtin(ConvolveKernelVal::Uniform, 3);
    let scores = convolution(&m, Coord(5, 5), ker);
    let w = (KERNEL_SCALE / 9) as u64;
    for y in 0..5usize {
        for x in 0..5usize {
            let covered = (y as i32 - 2).rem_euclid(5) <= 1 || (y as i32 - 2).rem_euclid(5) == 4;
            let covered_x =
                (x as i32 - 2).rem_euclid(5) <= 1 || (x as i32 - 2).rem_euclid(5) == 4;
            if covered && covered_x {
                assert_eq!(scores[y][x], w * v as u64);
            } else {
                assert_eq!(scores[y][x], 0);
            }
        }
    }
}

#[test]
fn uniform_convolution_wraps_past_edges() {
    // with the kernel as large as the grid, every window covers the source
    // exactly once, so all cells tie at v / k²
    let v = 900usize;
    let m = single_source_field(5, (0, 0), v);
    let ker = get_kernel_builtin(ConvolveKernelVal::Uniform, 5);
    let scores = convolution(&m, Coord(5, 5), ker);
    let w = (KERNEL_SCALE / 25) as u64;
    for row in &scores {
        for s in row {
            assert_eq!(*s, w * v as u64);
        }
    }
}

#[test]
fn ranking_is_descending_and_complete() {
    let m = single_source_field(4, (1, 3), 500);
    let ker = get_kernel_builtin(ConvolveKernelVal::Uniform, 3);
    let scores = convolution(&m, Coord(4, 4), ker);
    let ranked = get_max(&scores, None);
    assert_eq!(ranked.len(), 16);
    for w in ranked.windows(2) {
        assert!(w[0].1 >= w[1].1);
    }
    // every cell appears exactly once
    for y in 0..4 {
        for x in 0..4 {
            assert_eq!(ranked.iter().filter(|e| e.0 == Coord(y, x)).count(), 1);
        }
    }
    // a requested prefix trims the tail
    let top3 = get_max(&scores, Some(3));
    assert_eq!(top3.len(), 3);
    assert_eq!(top3[0].1, ranked[0].1);
}

#[test]
fn best_locations_put_the_gaussian_peak_first() {
    let m = single_source_field(5, (2, 2), 1000);
    let locs = get_best_locations(ConvolveKernelVal::Gaussian, 5, &m, None);
    assert_eq!(locs.len(), 25);
    assert_eq!(locs[0], Coord(2, 2));
}
