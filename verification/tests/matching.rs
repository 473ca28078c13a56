use spack::align::{align, all_have_nonzero_edges, match_triangles, try_align, TAKE};
use spack::triangle::{generate_all_triangles, Triangle};
use spack::fixed::{Fixed, SCALE};

fn fx(v: f64) -> Fixed {
    Fixed { raw: (v * SCALE as f64).round() as i64 }
}

fn triangle(lengths: [f64; 3], luminance: [f64; 3], places: [usize; 3]) -> Triangle<Fixed> {
    Triangle {
        edge_lengths: [fx(lengths[0]), fx(lengths[1]), fx(lengths[2])],
        edge_luminance: [fx(luminance[0]), fx(luminance[1]), fx(luminance[2])],
        point_indices: places,
    }
}

fn places(pairs: &[(Triangle<Fixed>, Triangle<Fixed>)]) -> Vec<([usize; 3], [usize; 3])> {
    pairs.iter().map(|(a, b)| (a.point_indices, b.point_indices)).collect()
}

fn scattered(n: usize, shift: usize) -> Vec<(usize, usize, Fixed)> {
    (0..n)
        .map(|i| {
            (
                (i * 37 + shift) % 101 + 1,
                (i * i * 13 + 5 * i + 3 * shift) % 103 + 1,
                fx(0.5 + ((i + shift) % 7) as f64 / 16.0),
            )
        })
        .collect()
}

#[test]
fn the_same_shape_at_another_scale_is_found_at_a_loose_threshold() {
    let first = vec![(100, 100, fx(0.5)), (200, 100, fx(0.5)), (150, 187, fx(0.5))];
    let second = vec![(102, 102, fx(0.5)), (204, 102, fx(0.5)), (153, 191, fx(0.5))];
    let pairs = align(1000, 1000, &first, &second, fx(0.05));
    assert_eq!(pairs.len(), 1);
    assert_eq!(pairs[0].0.point_indices, [0, 1, 2]);
    assert_eq!(pairs[0].1.point_indices, [0, 1, 2]);
}

#[test]
fn the_same_shape_at_another_scale_is_not_found_at_a_tight_threshold() {
    let first = vec![(100, 100, fx(0.5)), (200, 100, fx(0.5)), (150, 187, fx(0.5))];
    let second = vec![(102, 102, fx(0.5)), (204, 102, fx(0.5)), (153, 191, fx(0.5))];
    let pairs = align(1000, 1000, &first, &second, fx(0.001));
    assert_eq!(pairs.len(), 0);
}

#[test]
fn a_shape_is_like_itself_at_any_threshold_above_zero() {
    let points = vec![(100, 100, fx(0.5)), (200, 100, fx(0.7)), (150, 187, fx(0.9))];
    assert_eq!(align(1000, 1000, &points, &points, Fixed { raw: 1 }).len(), 1);
    assert_eq!(align(1000, 1000, &points, &points, Fixed { raw: 0 }).len(), 0);
}

#[test]
fn the_ratios_decide_not_the_sizes() {
    let small = triangle([3.0, 4.0, 5.0], [0.1, 0.2, 0.4], [0, 1, 2]);
    let large = triangle([6.0, 8.0, 10.0], [0.2, 0.4, 0.8], [3, 4, 5]);
    assert_eq!(match_triangles(&[small], &[large], fx(0.001)).len(), 1);
}

#[test]
fn each_of_the_four_ratios_can_keep_two_triangles_apart() {
    let base = triangle([3.0, 4.0, 5.0], [0.1, 0.2, 0.4], [0, 1, 2]);
    let short = triangle([2.0, 4.0, 5.0], [0.1, 0.2, 0.4], [0, 1, 2]);
    let long = triangle([3.0, 4.0, 8.0], [0.1, 0.2, 0.4], [0, 1, 2]);
    let dim = triangle([3.0, 4.0, 5.0], [0.05, 0.2, 0.4], [0, 1, 2]);
    let bright = triangle([3.0, 4.0, 5.0], [0.1, 0.2, 0.6], [0, 1, 2]);
    for other in [short, long, dim, bright] {
        assert_eq!(match_triangles(&[base], &[other], fx(0.05)).len(), 0);
        assert_eq!(match_triangles(&[base], &[other], fx(0.5)).len(), 1);
    }
}

#[test]
fn the_difference_must_be_below_the_threshold_not_at_it() {
    let a = triangle([1.0, 2.0, 4.0], [1.0, 1.0, 1.0], [0, 1, 2]);
    let b = triangle([1.0, 4.0, 8.0], [1.0, 1.0, 1.0], [0, 1, 2]);
    assert_eq!(match_triangles(&[a], &[b], fx(0.25)).len(), 0);
    assert_eq!(match_triangles(&[a], &[b], Fixed { raw: fx(0.25).raw + 1 }).len(), 1);
}

#[test]
fn all_pairs_are_returned_in_the_order_of_the_lists() {
    let a = triangle([3.0, 4.0, 5.0], [0.1, 0.2, 0.4], [0, 1, 2]);
    let b = triangle([1.0, 1.0, 1.0], [0.3, 0.3, 0.3], [0, 1, 3]);
    let c = triangle([6.0, 8.0, 10.0], [0.2, 0.4, 0.8], [4, 5, 6]);
    let d = triangle([2.0, 2.0, 2.0], [0.1, 0.1, 0.1], [4, 5, 7]);
    let e = triangle([9.0, 12.0, 15.0], [0.3, 0.6, 1.2], [5, 6, 7]);
    let pairs = match_triangles(&[a, b], &[c, d, e], fx(0.001));
    assert_eq!(
        places(&pairs),
        vec![([0, 1, 2], [4, 5, 6]), ([0, 1, 2], [5, 6, 7]), ([0, 1, 3], [4, 5, 7])]
    );
}

#[test]
fn nothing_matches_an_empty_list() {
    let a = triangle([3.0, 4.0, 5.0], [0.1, 0.2, 0.4], [0, 1, 2]);
    assert!(match_triangles(&[a], &[], fx(0.5)).is_empty());
    assert!(match_triangles(&[], &[a], fx(0.5)).is_empty());
    let few = vec![(1, 1, fx(0.5)), (2, 7, fx(0.5))];
    let enough = vec![(1, 1, fx(0.5)), (2, 7, fx(0.5)), (9, 3, fx(0.5))];
    assert!(align(10, 10, &few, &enough, fx(0.5)).is_empty());
    assert!(align(10, 10, &enough, &few, fx(0.5)).is_empty());
}

#[test]
fn swapping_the_lists_mirrors_the_pairs() {
    let first = generate_all_triangles(110, 110, &scattered(7, 0), 30);
    let second = generate_all_triangles(110, 110, &scattered(8, 5), 30);
    for threshold in [fx(0.001), fx(0.02), fx(0.1), fx(0.5)] {
        let forward = places(&match_triangles(&first, &second, threshold));
        let backward = places(&match_triangles(&second, &first, threshold));
        assert_eq!(forward.len(), backward.len());
        for (a, b) in forward.iter() {
            assert!(backward.contains(&(*b, *a)));
        }
        for (b, a) in backward.iter() {
            assert!(forward.contains(&(*a, *b)));
        }
    }
    assert!(!match_triangles(&first, &second, fx(0.1)).is_empty());
}

#[test]
fn align_matches_the_triangles_of_both_lists() {
    let first = scattered(6, 0);
    let second = scattered(6, 5);
    let pairs = align(110, 110, &first, &second, fx(0.1));
    let by_hand = match_triangles(
        &generate_all_triangles(110, 110, &first, 30),
        &generate_all_triangles(110, 110, &second, 30),
        fx(0.1),
    );
    assert_eq!(places(&pairs), places(&by_hand));
    assert!(!pairs.is_empty());
}

#[test]
fn align_looks_at_the_first_thirty_points_only() {
    let mut first: Vec<(usize, usize, Fixed)> =
        (0..30).map(|i| (i * 3 + 1, (i * i) % 97 + 1, fx(0.5))).collect();
    let shape = [(400, 400, fx(0.5)), (500, 400, fx(0.5)), (450, 487, fx(0.5))];
    first.extend(shape);
    let second = shape.to_vec();
    let late = align(1000, 1000, &first, &second, Fixed { raw: 1 });
    assert!(late.iter().all(|(t, _)| t.point_indices[2] < 30));
    let mut early = shape.to_vec();
    early.extend(first[..30].iter().copied());
    let found = align(1000, 1000, &early, &second, Fixed { raw: 1 });
    assert!(found.iter().any(|(t, u)| t.point_indices == [0, 1, 2] && u.point_indices == [0, 1, 2]));
}

#[test]
fn thirty_points_take_part() {
    assert_eq!(TAKE, 30);
}

#[test]
fn the_checked_matcher_gives_what_the_matcher_gives() {
    let first = scattered(6, 0);
    let second = scattered(6, 5);
    let checked = try_align(110, 110, &first, &second, fx(0.1)).unwrap();
    assert_eq!(places(&checked), places(&align(110, 110, &first, &second, fx(0.1))));
}

#[test]
fn the_checked_matcher_refuses_an_edge_of_length_zero() {
    let good = vec![(1, 1, fx(0.5)), (2, 7, fx(0.5)), (9, 3, fx(0.5))];
    let twice = vec![(1, 1, fx(0.5)), (1, 1, fx(0.4)), (9, 3, fx(0.5))];
    assert!(try_align(10, 10, &twice, &good, fx(0.5)).is_none());
    assert!(try_align(10, 10, &good, &twice, fx(0.5)).is_none());
    assert!(try_align(10, 10, &good, &good, fx(0.5)).is_some());
}

#[test]
fn the_second_list_is_not_looked_at_where_the_first_has_no_triangle() {
    let few = vec![(1, 1, fx(0.5)), (2, 7, fx(0.5))];
    let twice = vec![(1, 1, fx(0.5)), (1, 1, fx(0.4)), (9, 3, fx(0.5))];
    assert_eq!(try_align(10, 10, &few, &twice, fx(0.5)).map(|pairs| pairs.len()), Some(0));
    assert!(try_align(10, 10, &twice, &few, fx(0.5)).is_none());
}

#[test]
fn points_past_the_thirtieth_may_lie_on_one_place() {
    let mut first: Vec<(usize, usize, Fixed)> =
        (0..30).map(|i| (i * 3 + 1, (i * i) % 97 + 1, fx(0.5))).collect();
    first.push((1, 1, fx(0.5)));
    first.push((1, 1, fx(0.5)));
    let second = vec![(1, 1, fx(0.5)), (2, 7, fx(0.5)), (9, 3, fx(0.5))];
    assert!(try_align(1000, 1000, &first, &second, fx(0.001)).is_some());
}

#[test]
fn a_list_is_checked_for_edges_of_length_zero() {
    let good = triangle([3.0, 4.0, 5.0], [0.1, 0.2, 0.4], [0, 1, 2]);
    let flat = triangle([0.0, 4.0, 4.0], [0.1, 0.2, 0.4], [0, 1, 3]);
    assert!(all_have_nonzero_edges(&[good, good]));
    assert!(!all_have_nonzero_edges(&[good, flat]));
    assert!(all_have_nonzero_edges::<Fixed>(&[]));
}
