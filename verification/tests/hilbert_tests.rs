use bin2png::hilbert::d2xy;
use bin2png::hilbert::xy2d;

#[test]
fn known_distances_on_a_2_by_2_grid() {
    assert_eq!(d2xy(2, 0), (0, 0));
    assert_eq!(d2xy(2, 1), (0, 1));
    assert_eq!(d2xy(2, 2), (1, 1));
    assert_eq!(d2xy(2, 3), (1, 0));
    assert_eq!(xy2d(2, 0, 0), 0);
    assert_eq!(xy2d(2, 0, 1), 1);
    assert_eq!(xy2d(2, 1, 1), 2);
    assert_eq!(xy2d(2, 1, 0), 3);
}

#[test]
fn known_distances_on_a_4_by_4_grid() {
    assert_eq!(xy2d(4, 2, 3), 9);
    assert_eq!(d2xy(4, 9), (2, 3));
    assert_eq!(xy2d(4, 3, 0), 15);
    assert_eq!(d2xy(4, 15), (3, 0));
    assert_eq!(xy2d(4, 0, 0), 0);
}

#[test]
fn distance_to_coordinates_and_back() {
    for n in [1usize, 2, 4, 8, 16, 32] {
        for d in 0..n * n {
            let (x, y) = d2xy(n, d);
            assert!(x < n && y < n);
            assert_eq!(xy2d(n, x, y), d, "n = {}, d = {}", n, d);
        }
    }
}

#[test]
fn coordinates_to_distance_and_back() {
    for n in [1usize, 2, 4, 8, 16, 32] {
        for x in 0..n {
            for y in 0..n {
                let d = xy2d(n, x, y);
                assert!(d < n * n);
                assert_eq!(d2xy(n, d), (x, y), "n = {}, x = {}, y = {}", n, x, y);
            }
        }
    }
}

#[test]
fn every_cell_is_visited_once() {
    let n: usize = 8;
    let mut seen = vec![false; n * n];
    for x in 0..n {
        for y in 0..n {
            let d = xy2d(n, x, y);
            assert!(!seen[d]);
            seen[d] = true;
        }
    }
    assert!(seen.iter().all(|&v| v));
}
