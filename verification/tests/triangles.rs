use spack::align::has_nonzero_edges;
use spack::triangle::{generate_all_triangles, triangle_of, Triangle};
use spack::fixed::{Fixed, SCALE};
use spack::scalar::Scalar;

fn fx(v: f64) -> Fixed {
    Fixed { raw: (v * SCALE as f64).round() as i64 }
}

fn scattered(n: usize) -> Vec<(usize, usize, Fixed)> {
    (0..n).map(|i| ((i * 37) % 101, (i * i * 13 + 5 * i) % 103, fx(0.5 + i as f64 / 64.0))).collect()
}

#[test]
fn three_points_make_one_triangle() {
    let points = vec![(0, 0, fx(0.3)), (3, 0, fx(0.1)), (0, 4, fx(0.2))];
    let triangles = generate_all_triangles(1, 1, &points, 30);
    assert_eq!(triangles.len(), 1);
    let t = triangles[0];
    assert_eq!(t.edge_lengths, [fx(3.0), fx(4.0), fx(5.0)]);
    assert_eq!(t.edge_luminance, [fx(0.1), fx(0.2), fx(0.3)]);
    assert_eq!(t.point_indices, [0, 1, 2]);
}

#[test]
fn coordinates_are_shares_of_the_image() {
    let points = vec![(0, 0, fx(0.3)), (6, 0, fx(0.1)), (0, 16, fx(0.2))];
    let triangles = generate_all_triangles(2, 4, &points, 30);
    assert_eq!(triangles.len(), 1);
    assert_eq!(triangles[0].edge_lengths, [fx(3.0), fx(4.0), fx(5.0)]);
}

#[test]
fn the_descriptor_keeps_the_places_as_they_were_given() {
    let points = vec![(0, 0, fx(0.3)), (3, 0, fx(0.1)), (0, 4, fx(0.2)), (9, 9, fx(0.9))];
    let t: Triangle<Fixed> = triangle_of(&points, 1, 1, 2, 0, 1);
    assert_eq!(t.point_indices, [2, 0, 1]);
    assert_eq!(t.edge_lengths, [fx(3.0), fx(4.0), fx(5.0)]);
    assert_eq!(t.edge_luminance, [fx(0.1), fx(0.2), fx(0.3)]);
}

#[test]
fn fewer_than_three_points_make_no_triangle() {
    for n in 0..3 {
        assert!(generate_all_triangles(100, 100, &scattered(n), 30).is_empty());
    }
}

#[test]
fn there_is_one_triangle_for_every_three_points() {
    for n in 0..12usize {
        let triangles = generate_all_triangles(101, 103, &scattered(n), 30);
        let expected = if n < 3 { 0 } else { n * (n - 1) * (n - 2) / 6 };
        assert_eq!(triangles.len(), expected);
    }
}

#[test]
fn only_the_first_points_take_part() {
    let points = scattered(40);
    assert_eq!(generate_all_triangles(101, 103, &points, 30).len(), 4060);
    assert_eq!(generate_all_triangles(101, 103, &points, 4).len(), 4);
    assert_eq!(generate_all_triangles(101, 103, &points, 0).len(), 0);
    assert_eq!(generate_all_triangles(101, 103, &points, 100).len(), 9880);
    for t in generate_all_triangles(101, 103, &points, 5) {
        assert!(t.point_indices[2] < 5);
    }
}

#[test]
fn triples_come_in_dictionary_order() {
    let triangles = generate_all_triangles(101, 103, &scattered(5), 30);
    let places: Vec<[usize; 3]> = triangles.iter().map(|t| t.point_indices).collect();
    assert_eq!(
        places,
        vec![
            [0, 1, 2],
            [0, 1, 3],
            [0, 1, 4],
            [0, 2, 3],
            [0, 2, 4],
            [0, 3, 4],
            [1, 2, 3],
            [1, 2, 4],
            [1, 3, 4],
            [2, 3, 4],
        ]
    );
}

#[test]
fn no_triangle_is_described_twice() {
    let triangles = generate_all_triangles(101, 103, &scattered(9), 30);
    for (a, t) in triangles.iter().enumerate() {
        for u in triangles.iter().skip(a + 1) {
            let mut p = t.point_indices;
            let mut q = u.point_indices;
            p.sort();
            q.sort();
            assert_ne!(p, q);
        }
    }
}

#[test]
fn edges_and_brightness_ascend() {
    for t in generate_all_triangles(101, 103, &scattered(10), 30) {
        assert!(t.edge_lengths[0].le(t.edge_lengths[1]));
        assert!(t.edge_lengths[1].le(t.edge_lengths[2]));
        assert!(t.edge_luminance[0].le(t.edge_luminance[1]));
        assert!(t.edge_luminance[1].le(t.edge_luminance[2]));
        assert!(t.edge_lengths[0].raw > 0);
        assert!(has_nonzero_edges(&t));
    }
}

#[test]
fn two_points_on_one_place_make_an_edge_of_length_zero() {
    let points = vec![(5, 5, fx(0.3)), (5, 5, fx(0.1)), (0, 4, fx(0.2))];
    let triangles = generate_all_triangles(10, 10, &points, 30);
    assert_eq!(triangles.len(), 1);
    assert_eq!(triangles[0].edge_lengths[0], fx(0.0));
    assert!(!has_nonzero_edges(&triangles[0]));
}

#[test]
fn edge_lengths_are_exact_to_the_last_unit() {
    let points = vec![(0, 0, fx(1.0)), (1, 0, fx(1.0)), (0, 1, fx(1.0))];
    let triangles = generate_all_triangles(1, 1, &points, 30);
    assert_eq!(triangles[0].edge_lengths, [fx(1.0), fx(1.0), Fixed { raw: 6074000999 }]);
    let thirds = generate_all_triangles(3, 3, &points, 30);
    let third = Fixed { raw: 1431655765 };
    assert_eq!(third.times(third), Fixed { raw: 477218588 });
    assert_eq!(thirds[0].edge_lengths[0], Fixed { raw: 1431655764 });
    assert_eq!(thirds[0].edge_lengths[1], Fixed { raw: 1431655764 });
    assert_eq!(thirds[0].edge_lengths[2], Fixed { raw: 2024666999 });
}
