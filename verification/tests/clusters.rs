use kmeans::assign::{assign_points, closest_cluster};
use kmeans::cluster::Cluster;
use kmeans::geometry::{Centroid, Point};

fn at(x: i64, y: i64) -> Cluster {
    Cluster::new(Centroid { x, y, scale: 1 })
}

#[test]
fn new_cluster_has_no_members() {
    let c = Cluster::new(Centroid { x: 5, y: 5, scale: 2 });
    assert_eq!(c.centroid, Centroid { x: 5, y: 5, scale: 2 });
    assert!(c.members.is_empty());
}

#[test]
fn mean_is_the_sums_over_the_count() {
    let points = vec![Point::new(2, 4), Point::new(3, 3), Point::new(100, 100), Point::new(3, 4)];
    let mut c = at(0, 0);
    c.members = vec![0, 1, 3];
    assert_eq!(c.mean(&points), Some(Centroid { x: 8, y: 11, scale: 3 }));
}

#[test]
fn mean_of_negative_coordinates() {
    let points = vec![Point::new(-5, 7), Point::new(2, -9)];
    let mut c = at(0, 0);
    c.members = vec![0, 1];
    assert_eq!(c.mean(&points), Some(Centroid { x: -3, y: -2, scale: 2 }));
}

#[test]
fn mean_of_empty_cluster_is_none() {
    let points = vec![Point::new(1, 1)];
    let c = at(3, 3);
    assert_eq!(c.mean(&points), None);
}

#[test]
fn sse_of_empty_cluster_is_zero() {
    let points = vec![Point::new(1, 1)];
    let c = Cluster::new(Centroid { x: 5, y: 5, scale: 2 });
    let e = c.sse(&points);
    assert_eq!(e.num, 0);
    assert_eq!(e.den, 4);
}

#[test]
fn sse_sums_squared_distances() {
    // About (3, 3.5): 1 + 0.25, 0 + 0.25, 0 + 0.25, 1 + 0.25, in quarters 5 + 1 + 1 + 5.
    let points = vec![Point::new(2, 4), Point::new(3, 3), Point::new(3, 4), Point::new(4, 3)];
    let mut c = Cluster::new(Centroid { x: 6, y: 7, scale: 2 });
    c.members = vec![0, 1, 2, 3];
    let e = c.sse(&points);
    assert_eq!(e.num, 12);
    assert_eq!(e.den, 4);
}

#[test]
fn sse_counts_only_members() {
    let points = vec![Point::new(0, 0), Point::new(10, 0), Point::new(0, 3)];
    let mut c = at(0, 0);
    c.members = vec![2];
    let e = c.sse(&points);
    assert_eq!((e.num, e.den), (9, 1));
}

#[test]
fn tie_break_prefers_first_cluster() {
    let clusters = vec![at(0, 0), at(2, 0)];
    assert_eq!(closest_cluster(&Point::new(1, 0), &clusters), 0);
}

#[test]
fn tie_break_prefers_first_among_three() {
    let clusters = vec![at(5, 5), at(-1, 0), at(1, 0), at(0, 1)];
    assert_eq!(closest_cluster(&Point::new(0, 0), &clusters), 1);
}

#[test]
fn tie_between_fractions_of_different_denominators() {
    // (1/2, 0) written over 2 and over 4, and a farther one.
    let clusters = vec![
        Cluster::new(Centroid { x: 3, y: 0, scale: 1 }),
        Cluster::new(Centroid { x: 2, y: 0, scale: 4 }),
        Cluster::new(Centroid { x: 1, y: 0, scale: 2 }),
    ];
    assert_eq!(closest_cluster(&Point::new(0, 0), &clusters), 1);
}

#[test]
fn closest_cluster_picks_the_strictly_nearer() {
    let clusters = vec![at(0, 0), at(2, 0)];
    assert_eq!(closest_cluster(&Point::new(2, 1), &clusters), 1);
    assert_eq!(closest_cluster(&Point::new(-3, 0), &clusters), 0);
}

#[test]
fn closest_cluster_compares_fractions_exactly() {
    // 10/3 is nearer to 3 than 7/2 is.
    let clusters = vec![
        Cluster::new(Centroid { x: 7, y: 0, scale: 2 }),
        Cluster::new(Centroid { x: 10, y: 0, scale: 3 }),
    ];
    assert_eq!(closest_cluster(&Point::new(3, 0), &clusters), 1);
    assert_eq!(closest_cluster(&Point::new(4, 0), &clusters), 0);
}

#[test]
fn closest_cluster_with_one_cluster() {
    let clusters = vec![at(100, 100)];
    assert_eq!(closest_cluster(&Point::new(-7, 3), &clusters), 0);
}

#[test]
fn assignment_gives_each_point_to_one_cluster() {
    let points = vec![
        Point::new(0, 0),
        Point::new(9, 9),
        Point::new(1, 0),
        Point::new(10, 10),
        Point::new(5, 5),
        Point::new(0, 1),
    ];
    let mut clusters = vec![at(0, 0), at(10, 10), at(50, 50)];
    assign_points(&points, &mut clusters);
    assert_eq!(clusters[0].members, vec![0, 2, 4, 5]);
    assert_eq!(clusters[1].members, vec![1, 3]);
    assert!(clusters[2].members.is_empty());
    let mut seen = vec![0usize; points.len()];
    for c in clusters.iter() {
        for &i in c.members.iter() {
            seen[i] += 1;
        }
    }
    assert_eq!(seen, vec![1; points.len()]);
}

#[test]
fn assignment_starts_from_empty_lists() {
    let points = vec![Point::new(0, 0), Point::new(10, 0)];
    let mut clusters = vec![at(0, 0), at(10, 0)];
    clusters[0].members = vec![0, 1, 1, 0];
    clusters[1].members = vec![1];
    assign_points(&points, &mut clusters);
    assert_eq!(clusters[0].members, vec![0]);
    assert_eq!(clusters[1].members, vec![1]);
    assert_eq!(clusters[0].centroid, Centroid { x: 0, y: 0, scale: 1 });
    assert_eq!(clusters[1].centroid, Centroid { x: 10, y: 0, scale: 1 });
}
