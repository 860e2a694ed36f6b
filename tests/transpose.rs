use flat_transpose::inplace::{exchange, largest_power_of_two, shuffle, unshuffle};
use flat_transpose::outofplace::{oop_transpose_large, oop_transpose_medium, oop_transpose_small};
use flat_transpose::{ip_transpose, oop_transpose, square_transpose};

/// A rows x cols matrix, row-major, filled with 0, 1, 2, ...
fn test_array(rows: usize, cols: usize) -> Vec<f64> {
    (0..rows * cols).map(|i| i as f64).collect()
}

/// The transpose of a rows x cols matrix, computed element by element.
fn reference_transpose<T: Copy>(src: &[T], rows: usize, cols: usize) -> Vec<T> {
    let mut out = Vec::with_capacity(rows * cols);
    for c in 0..cols {
        for r in 0..rows {
            out.push(src[r * cols + c]);
        }
    }
    out
}

#[test]
fn test_square_transpose() {
    let n = 4;
    let mut src = test_array(n, n);
    let cmp = test_array(n, n);
    square_transpose(&mut src, n);
    assert!(src == reference_transpose(&cmp, n, n));
}

#[test]
fn test_inplace_transpose() {
    let sizes = [4, 5, 13, 16, 54, 67, 512, 813];
    for rows in sizes {
        for cols in sizes {
            let (n, m) = (rows, cols);
            let mut src = test_array(n, m);
            let cmp = test_array(n, m);
            let iw = 4;
            let mut w: Vec<f64> = vec![0.; iw];
            ip_transpose(&mut src, &mut w, n, m);
            assert!(src == reference_transpose(&cmp, n, m), "{} x {}", n, m);
        }
    }
}

#[test]
fn test_transposes() {
    let sizes = [4, 5, 13, 16, 54, 67, 813];
    for rows in sizes {
        for cols in sizes {
            let src = test_array(rows, cols);
            let expected = reference_transpose(&src, rows, cols);

            let mut dst = vec![0.0f64; rows * cols];
            oop_transpose_small(&src, &mut dst, rows, cols);
            assert!(dst == expected);

            let mut dst = vec![0.0f64; rows * cols];
            oop_transpose_medium(&src, &mut dst, rows, cols, 16);
            assert!(dst == expected);

            let mut dst = vec![0.0f64; rows * cols];
            oop_transpose_large(&src, &mut dst, rows, cols, 16);
            assert!(dst == expected);
        }
    }
}

#[test]
fn four_by_four_both_engines() {
    let src: Vec<u32> = (0..16).collect();
    let expected: Vec<u32> = vec![0, 4, 8, 12, 1, 5, 9, 13, 2, 6, 10, 14, 3, 7, 11, 15];
    let mut dst = vec![0u32; 16];
    oop_transpose(&src, &mut dst, 4, 4);
    assert_eq!(dst, expected);
    let mut inplace = src.clone();
    let mut w = vec![0u32; 2];
    ip_transpose(&mut inplace, &mut w, 4, 4);
    assert_eq!(inplace, expected);
    let mut sq = src.clone();
    square_transpose(&mut sq, 4);
    assert_eq!(sq, expected);
}

#[test]
fn transposing_twice_gives_back_the_matrix() {
    for (rows, cols) in [(3usize, 7usize), (20, 30), (1, 9), (600, 500)] {
        let src: Vec<u64> = (0..(rows * cols) as u64).collect();
        let mut once = vec![0u64; rows * cols];
        oop_transpose(&src, &mut once, rows, cols);
        let mut twice = vec![0u64; rows * cols];
        oop_transpose(&once, &mut twice, cols, rows);
        assert_eq!(twice, src);
    }
}

#[test]
fn strategies_agree_across_thresholds() {
    let shapes = [(3usize, 85usize), (16, 16), (257, 1), (3, 87381), (512, 512), (5, 52429)];
    for (rows, cols) in shapes {
        let src: Vec<u32> = (0..(rows * cols) as u32).collect();
        let expected = reference_transpose(&src, rows, cols);
        let mut a = vec![0u32; rows * cols];
        oop_transpose(&src, &mut a, rows, cols);
        let mut b = vec![0u32; rows * cols];
        oop_transpose_small(&src, &mut b, rows, cols);
        let mut c = vec![0u32; rows * cols];
        oop_transpose_medium(&src, &mut c, rows, cols, 16);
        let mut d = vec![0u32; rows * cols];
        oop_transpose_large(&src, &mut d, rows, cols, 16);
        assert_eq!(a, expected);
        assert_eq!(b, expected);
        assert_eq!(c, expected);
        assert_eq!(d, expected);
    }
}

#[test]
fn inplace_agrees_with_out_of_place_for_every_workspace() {
    for (rows, cols) in [(3usize, 5usize), (5, 3), (4, 4), (7, 2), (1, 6), (6, 1), (6, 9)] {
        let src: Vec<u32> = (0..(rows * cols) as u32).collect();
        let mut expected = vec![0u32; rows * cols];
        oop_transpose(&src, &mut expected, rows, cols);
        for iw in 2..=rows * cols {
            let mut a = src.clone();
            let mut w = vec![0u32; iw];
            ip_transpose(&mut a, &mut w, rows, cols);
            assert_eq!(a, expected, "{} x {} with workspace {}", rows, cols, iw);
        }
    }
}

#[test]
fn shapes_of_every_kind() {
    let shapes = [(1usize, 1usize), (1, 17), (17, 1), (31, 31), (37, 11), (11, 37), (64, 32), (32, 64), (2, 3), (0, 5), (5, 0)];
    for (rows, cols) in shapes {
        let src: Vec<i64> = (0..(rows * cols) as i64).collect();
        let expected = reference_transpose(&src, rows, cols);
        let mut dst = vec![0i64; rows * cols];
        oop_transpose(&src, &mut dst, rows, cols);
        assert_eq!(dst, expected);
        let mut a = src.clone();
        let mut w = vec![0i64; 3];
        ip_transpose(&mut a, &mut w, rows, cols);
        assert_eq!(a, expected);
    }
}

#[test]
fn unshuffle_separates_pairs() {
    let mut v: Vec<char> = "aBbCcD".chars().collect();
    unshuffle(&mut v, 0, 1, 1, 3);
    assert_eq!(v.iter().collect::<String>(), "abcBCD");
    let mut v: Vec<u8> = vec![1, 1, 9, 2, 2, 9, 3, 3, 9];
    unshuffle(&mut v, 0, 2, 1, 3);
    assert_eq!(v, vec![1, 1, 2, 2, 3, 3, 9, 9, 9]);
}

#[test]
fn shuffle_undoes_unshuffle() {
    for la in 0..4usize {
        for lb in 0..4usize {
            for m in 0..10usize {
                let v: Vec<usize> = (0..(la + lb) * m).collect();
                let mut u = v.clone();
                unshuffle(&mut u, 0, la, lb, m);
                shuffle(&mut u, 0, la, lb, m);
                assert_eq!(u, v, "la {} lb {} m {}", la, lb, m);
            }
        }
    }
}

#[test]
fn exchange_swaps_adjacent_blocks() {
    let mut v: Vec<u8> = vec![0, 1, 2, 3, 4, 5, 6];
    exchange(&mut v, 1, 2, 3);
    assert_eq!(v, vec![0, 3, 4, 5, 1, 2, 6]);
    let mut v: Vec<u8> = vec![1, 2, 3, 4, 5];
    exchange(&mut v, 0, 4, 1);
    assert_eq!(v, vec![5, 1, 2, 3, 4]);
}

#[test]
fn largest_power_of_two_at_boundaries() {
    assert_eq!(largest_power_of_two(2), 1);
    assert_eq!(largest_power_of_two(3), 2);
    assert_eq!(largest_power_of_two(4), 2);
    assert_eq!(largest_power_of_two(5), 4);
    assert_eq!(largest_power_of_two(7), 4);
    assert_eq!(largest_power_of_two(8), 4);
    assert_eq!(largest_power_of_two(9), 8);
    for k in 1..20u32 {
        let p = 1usize << k;
        assert_eq!(largest_power_of_two(p), p / 2);
        assert_eq!(largest_power_of_two(p + 1), p);
    }
}

#[test]
fn inplace_with_a_workspace_that_holds_everything() {
    let mut src: Vec<u32> = vec![0, 1, 2, 3, 4, 5];
    let mut w = vec![0u32; 6];
    ip_transpose(&mut src, &mut w, 2, 3);
    assert_eq!(src, vec![0, 3, 1, 4, 2, 5]);

    let mut src: Vec<u32> = (0..16).collect();
    let mut w = vec![0u32; 16];
    ip_transpose(&mut src, &mut w, 4, 4);
    assert_eq!(src, vec![0, 4, 8, 12, 1, 5, 9, 13, 2, 6, 10, 14, 3, 7, 11, 15]);

    let mut src: Vec<u32> = (0..15).collect();
    let mut w = vec![0u32; 2];
    ip_transpose(&mut src, &mut w, 3, 5);
    assert_eq!(src, vec![0, 5, 10, 1, 6, 11, 2, 7, 12, 3, 8, 13, 4, 9, 14]);
}

#[test]
fn inplace_twice_gives_back_the_matrix() {
    for (rows, cols) in [(3usize, 5usize), (7, 7), (1, 8), (12, 5)] {
        let src: Vec<u32> = (0..(rows * cols) as u32).collect();
        let mut a = src.clone();
        let mut w = vec![0u32; 2];
        ip_transpose(&mut a, &mut w, rows, cols);
        ip_transpose(&mut a, &mut w, cols, rows);
        assert_eq!(a, src);
    }
}

#[test]
fn exchange_with_an_empty_block_changes_nothing() {
    let mut v: Vec<u8> = vec![1, 2, 3, 4];
    exchange(&mut v, 1, 0, 3);
    assert_eq!(v, vec![1, 2, 3, 4]);
    exchange(&mut v, 0, 4, 0);
    assert_eq!(v, vec![1, 2, 3, 4]);
}

#[test]
fn unshuffle_undoes_shuffle() {
    let mut v: Vec<char> = "abcBCD".chars().collect();
    shuffle(&mut v, 0, 1, 1, 3);
    assert_eq!(v.iter().collect::<String>(), "aBbCcD");
    for la in 0..4usize {
        for lb in 0..4usize {
            for m in 0..10usize {
                let v: Vec<usize> = (0..(la + lb) * m + 3).collect();
                let mut u = v.clone();
                shuffle(&mut u, 2, la, lb, m);
                unshuffle(&mut u, 2, la, lb, m);
                assert_eq!(u, v, "la {} lb {} m {}", la, lb, m);
            }
        }
    }
}
