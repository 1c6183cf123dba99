use kmeans::assign::assign_points;
use kmeans::cluster::{Cluster, MAX_POINTS};
use kmeans::engine::{k_means, update_centroids, validate, Config, Fit, KMeansError};
use kmeans::geometry::{Centroid, Point, Threshold, MAX_COORD, MAX_SCALE};

fn sample() -> Vec<Point> {
    let raw: [(i64, i64); 20] = [
        (2, 4),
        (3, 3),
        (3, 4),
        (3, 5),
        (4, 3),
        (4, 4),
        (9, 4),
        (9, 5),
        (9, 9),
        (9, 10),
        (10, 4),
        (10, 5),
        (10, 9),
        (10, 10),
        (11, 10),
        (15, 4),
        (15, 5),
        (15, 6),
        (16, 4),
        (16, 6),
    ];
    raw.iter().map(|&(x, y)| Point::new(x, y)).collect()
}

fn three_clusters(max_iterations: usize) -> Config {
    Config {
        k: 3,
        initial_centroids: vec![
            Centroid { x: 5, y: 5, scale: 2 },
            Centroid { x: 5, y: 5, scale: 1 },
            Centroid { x: 16, y: 10, scale: 1 },
        ],
        threshold: Threshold { num: 1, den: 10 },
        max_iterations,
    }
}

fn gcd(a: u128, b: u128) -> u128 {
    if b == 0 {
        a
    } else {
        gcd(b, a % b)
    }
}

/// The sum of the clusters' squared errors, in lowest terms.
fn total_sse(points: &Vec<Point>, fit: &Fit) -> (u128, u128) {
    let mut num: u128 = 0;
    let mut den: u128 = 1;
    for c in fit.clusters.iter() {
        let e = c.sse(points);
        num = num * e.den + e.num * den;
        den = den * e.den;
        let g = gcd(num, den);
        num /= g;
        den /= g;
    }
    (num, den)
}

#[test]
fn known_scenario_converges_to_three_groups() {
    let points = sample();
    let fit = k_means(&points, &three_clusters(100)).unwrap();
    assert!(fit.converged);
    assert_eq!(fit.iterations, 4);
    assert_eq!(fit.clusters.len(), 3);
    // The six points with both coordinates at most 5.
    assert_eq!(fit.clusters[0].members, vec![0, 1, 2, 3, 4, 5]);
    // The points with x from 9 to 11.
    assert_eq!(fit.clusters[1].members, vec![6, 7, 8, 9, 10, 11, 12, 13, 14]);
    // The five points with x of 15 or 16.
    assert_eq!(fit.clusters[2].members, vec![15, 16, 17, 18, 19]);
    for c in fit.clusters.iter() {
        for &i in c.members.iter() {
            let p = points[i];
            let group = if p.x <= 5 && p.y <= 5 {
                0
            } else if 9 <= p.x && p.x <= 11 {
                1
            } else {
                2
            };
            assert_eq!(c.centroid, fit.clusters[group].centroid);
        }
    }
    // Each centroid is the mean of its group: sums over the count.
    assert_eq!(fit.clusters[0].centroid, Centroid { x: 19, y: 23, scale: 6 });
    assert_eq!(fit.clusters[1].centroid, Centroid { x: 87, y: 66, scale: 9 });
    assert_eq!(fit.clusters[2].centroid, Centroid { x: 77, y: 25, scale: 5 });
}

#[test]
fn known_scenario_pass_by_pass() {
    let points = sample();
    let first = k_means(&points, &three_clusters(1)).unwrap();
    assert!(!first.converged);
    assert_eq!(first.iterations, 1);
    assert_eq!(first.clusters[0].members, vec![0, 1, 2, 4]);
    assert_eq!(first.clusters[1].members, vec![3, 5, 6, 7, 8, 9, 10, 11]);
    assert_eq!(first.clusters[2].members, vec![12, 13, 14, 15, 16, 17, 18, 19]);
    assert_eq!(first.clusters[0].centroid, Centroid { x: 12, y: 14, scale: 4 });
    assert_eq!(first.clusters[1].centroid, Centroid { x: 63, y: 46, scale: 8 });
    assert_eq!(first.clusters[2].centroid, Centroid { x: 108, y: 54, scale: 8 });
    let second = k_means(&points, &three_clusters(2)).unwrap();
    assert!(!second.converged);
    assert_eq!(second.iterations, 2);
    assert_eq!(second.clusters[1].members, vec![6, 7, 8, 9, 10, 11, 12, 13]);
    assert_eq!(second.clusters[2].centroid, Centroid { x: 88, y: 35, scale: 6 });
    let third = k_means(&points, &three_clusters(3)).unwrap();
    assert!(!third.converged);
    assert_eq!(third.iterations, 3);
    assert_eq!(third.clusters[1].centroid, Centroid { x: 87, y: 66, scale: 9 });
}

#[test]
fn total_squared_error_never_rises() {
    let points = sample();
    let expected: [(u128, u128); 4] = [(1527, 8), (611, 6), (1123, 15), (1123, 15)];
    let mut last: Option<(u128, u128)> = None;
    for n in 1..=4usize {
        let fit = k_means(&points, &three_clusters(n)).unwrap();
        assert_eq!(fit.iterations, n);
        let now = total_sse(&points, &fit);
        assert_eq!(now, expected[n - 1]);
        if let Some(before) = last {
            assert!(now.0 * before.1 <= before.0 * now.1);
        }
        last = Some(now);
    }
}

#[test]
fn two_clusters_settle_in_one_pass() {
    let points = sample();
    let config = Config {
        k: 2,
        initial_centroids: vec![
            Centroid { x: 4, y: 4, scale: 1 },
            Centroid { x: 12, y: 7, scale: 1 },
        ],
        threshold: Threshold { num: 1, den: 1 },
        max_iterations: 50,
    };
    let fit = k_means(&points, &config).unwrap();
    assert!(fit.converged);
    assert_eq!(fit.iterations, 1);
    assert_eq!(fit.clusters[0].members, vec![0, 1, 2, 3, 4, 5]);
    assert_eq!(fit.clusters[1].members, (6..20).collect::<Vec<usize>>());
    assert_eq!(fit.clusters[0].centroid, Centroid { x: 19, y: 23, scale: 6 });
    assert_eq!(fit.clusters[1].centroid, Centroid { x: 164, y: 91, scale: 14 });
    assert_eq!(total_sse(&points, &fit), (8317, 42));
}

#[test]
fn run_from_true_centers_stops_after_one_pass() {
    // Two tight groups far apart, centroids at their means.
    let points = vec![
        Point::new(0, 0),
        Point::new(2, 0),
        Point::new(0, 2),
        Point::new(2, 2),
        Point::new(100, 100),
        Point::new(102, 100),
        Point::new(101, 103),
    ];
    let config = Config {
        k: 2,
        initial_centroids: vec![
            Centroid { x: 1, y: 1, scale: 1 },
            Centroid { x: 101, y: 101, scale: 1 },
        ],
        threshold: Threshold { num: 1, den: 1_000_000 },
        max_iterations: 10,
    };
    let fit = k_means(&points, &config).unwrap();
    assert!(fit.converged);
    assert_eq!(fit.iterations, 1);
    assert_eq!(fit.clusters[0].members, vec![0, 1, 2, 3]);
    assert_eq!(fit.clusters[1].members, vec![4, 5, 6]);
    assert_eq!(fit.clusters[0].centroid, Centroid { x: 4, y: 4, scale: 4 });
    assert_eq!(fit.clusters[1].centroid, Centroid { x: 303, y: 303, scale: 3 });
}

#[test]
fn one_more_pass_after_rest_moves_nothing() {
    let points = sample();
    let fit = k_means(&points, &three_clusters(100)).unwrap();
    assert!(fit.converged);
    let mut clusters = fit.clusters;
    let before: Vec<Centroid> = clusters.iter().map(|c| c.centroid).collect();
    let lists: Vec<Vec<usize>> = clusters.iter().map(|c| c.members.clone()).collect();
    assign_points(&points, &mut clusters);
    let at_rest = update_centroids(&points, &mut clusters, &Threshold { num: 1, den: 1_000_000 });
    assert!(at_rest);
    for k in 0..clusters.len() {
        assert_eq!(clusters[k].centroid, before[k]);
        assert_eq!(clusters[k].members, lists[k]);
    }
}

#[test]
fn a_settled_run_need_not_be_at_rest() {
    // With a wide threshold the run stops although the next pass would
    // move a centroid by 2.
    let points = vec![
        Point::new(1, 0),
        Point::new(5, 0),
        Point::new(10, 0),
        Point::new(10, 0),
        Point::new(10, 0),
        Point::new(10, 0),
        Point::new(10, 0),
        Point::new(10, 0),
        Point::new(10, 0),
        Point::new(10, 0),
        Point::new(10, 0),
    ];
    let config = Config {
        k: 2,
        initial_centroids: vec![
            Centroid { x: 1, y: 0, scale: 10 },
            Centroid { x: 9, y: 0, scale: 1 },
        ],
        threshold: Threshold { num: 1, den: 1 },
        max_iterations: 10,
    };
    let fit = k_means(&points, &config).unwrap();
    assert!(fit.converged);
    assert_eq!(fit.iterations, 1);
    assert_eq!(fit.clusters[0].centroid, Centroid { x: 1, y: 0, scale: 1 });
    assert_eq!(fit.clusters[1].centroid, Centroid { x: 95, y: 0, scale: 10 });
    let mut clusters = fit.clusters;
    assign_points(&points, &mut clusters);
    let at_rest = update_centroids(&points, &mut clusters, &config.threshold);
    assert!(!at_rest);
    assert_eq!(clusters[0].centroid, Centroid { x: 6, y: 0, scale: 2 });
}

#[test]
fn cluster_without_points_keeps_its_centroid() {
    let points = vec![Point::new(0, 0), Point::new(2, 0)];
    let config = Config {
        k: 2,
        initial_centroids: vec![
            Centroid { x: 1, y: 0, scale: 1 },
            Centroid { x: 500, y: 500, scale: 1 },
        ],
        threshold: Threshold { num: 1, den: 100 },
        max_iterations: 10,
    };
    let fit = k_means(&points, &config).unwrap();
    assert!(fit.converged);
    assert_eq!(fit.iterations, 1);
    assert_eq!(fit.clusters[0].members, vec![0, 1]);
    assert_eq!(fit.clusters[0].centroid, Centroid { x: 2, y: 0, scale: 2 });
    assert!(fit.clusters[1].members.is_empty());
    assert_eq!(fit.clusters[1].centroid, Centroid { x: 500, y: 500, scale: 1 });
}

#[test]
fn more_clusters_than_points() {
    let points = vec![Point::new(3, 3)];
    let config = Config {
        k: 3,
        initial_centroids: vec![
            Centroid { x: 0, y: 0, scale: 1 },
            Centroid { x: 4, y: 4, scale: 1 },
            Centroid { x: 9, y: 9, scale: 1 },
        ],
        threshold: Threshold { num: 1, den: 2 },
        max_iterations: 10,
    };
    let fit = k_means(&points, &config).unwrap();
    assert!(fit.converged);
    assert_eq!(fit.iterations, 2);
    assert!(fit.clusters[0].members.is_empty());
    assert_eq!(fit.clusters[1].members, vec![0]);
    assert!(fit.clusters[2].members.is_empty());
    assert_eq!(fit.clusters[1].centroid, Centroid { x: 3, y: 3, scale: 1 });
}

#[test]
fn zero_threshold_runs_to_the_limit() {
    let points = sample();
    let mut config = three_clusters(7);
    config.threshold = Threshold { num: 0, den: 1 };
    let fit = k_means(&points, &config).unwrap();
    assert!(!fit.converged);
    assert_eq!(fit.iterations, 7);
    assert_eq!(fit.clusters[1].centroid, Centroid { x: 87, y: 66, scale: 9 });
}

#[test]
fn iteration_limit_is_reported() {
    let points = sample();
    let fit = k_means(&points, &three_clusters(2)).unwrap();
    assert!(!fit.converged);
    assert_eq!(fit.iterations, 2);
    let members: usize = fit.clusters.iter().map(|c| c.members.len()).sum();
    assert_eq!(members, points.len());
}

#[test]
fn update_moves_centroids_to_means() {
    let points = vec![Point::new(0, 0), Point::new(4, 0), Point::new(10, 10)];
    let mut clusters = vec![
        Cluster::new(Centroid { x: 0, y: 0, scale: 1 }),
        Cluster::new(Centroid { x: 10, y: 10, scale: 1 }),
        Cluster::new(Centroid { x: -7, y: 7, scale: 3 }),
    ];
    clusters[0].members = vec![0, 1];
    clusters[1].members = vec![2];
    // Cluster 0 moves by 2, the others not at all.
    assert!(!update_centroids(&points, &mut clusters, &Threshold { num: 2, den: 1 }));
    assert_eq!(clusters[0].centroid, Centroid { x: 4, y: 0, scale: 2 });
    assert_eq!(clusters[1].centroid, Centroid { x: 10, y: 10, scale: 1 });
    assert_eq!(clusters[2].centroid, Centroid { x: -7, y: 7, scale: 3 });
    assert_eq!(clusters[0].members, vec![0, 1]);
    clusters[0].centroid = Centroid { x: 0, y: 0, scale: 1 };
    assert!(update_centroids(&points, &mut clusters, &Threshold { num: 201, den: 100 }));
}

fn plain(k: usize, count: usize) -> Config {
    Config {
        k,
        initial_centroids: (0..count).map(|i| Centroid { x: i as i64, y: 0, scale: 1 }).collect(),
        threshold: Threshold { num: 1, den: 10 },
        max_iterations: 10,
    }
}

#[test]
fn rejects_zero_clusters() {
    let points = sample();
    assert_eq!(k_means(&points, &plain(0, 0)).err(), Some(KMeansError::NoClusters));
    // The cluster count is looked at first.
    assert_eq!(k_means(&Vec::new(), &plain(0, 2)).err(), Some(KMeansError::NoClusters));
}

#[test]
fn rejects_mismatched_centroid_count() {
    let points = sample();
    assert_eq!(k_means(&points, &plain(3, 2)).err(), Some(KMeansError::CentroidCountMismatch));
    assert_eq!(k_means(&points, &plain(1, 2)).err(), Some(KMeansError::CentroidCountMismatch));
}

#[test]
fn rejects_empty_dataset() {
    assert_eq!(k_means(&Vec::new(), &plain(2, 2)).err(), Some(KMeansError::EmptyDataset));
}

#[test]
fn rejects_too_many_points() {
    let points = vec![Point::new(0, 0); MAX_POINTS + 1];
    assert_eq!(k_means(&points, &plain(2, 2)).err(), Some(KMeansError::TooManyPoints));
}

#[test]
fn rejects_first_point_out_of_range() {
    let mut points = sample();
    points[7] = Point::new(MAX_COORD + 1, 0);
    points[12] = Point::new(0, -MAX_COORD - 1);
    assert_eq!(k_means(&points, &plain(2, 2)).err(), Some(KMeansError::PointOutOfRange(7)));
}

#[test]
fn rejects_first_invalid_centroid() {
    let points = sample();
    let mut config = plain(4, 4);
    config.initial_centroids[2] = Centroid { x: 0, y: 0, scale: 0 };
    config.initial_centroids[3] = Centroid { x: 0, y: 0, scale: MAX_SCALE + 1 };
    assert_eq!(k_means(&points, &config).err(), Some(KMeansError::InvalidCentroid(2)));
    config.initial_centroids[1] = Centroid { x: MAX_COORD * 2 + 1, y: 0, scale: 2 };
    assert_eq!(k_means(&points, &config).err(), Some(KMeansError::InvalidCentroid(1)));
}

#[test]
fn rejects_invalid_threshold() {
    let points = sample();
    let mut config = plain(2, 2);
    config.threshold = Threshold { num: 1, den: 0 };
    assert_eq!(k_means(&points, &config).err(), Some(KMeansError::InvalidThreshold));
    config.threshold = Threshold { num: 1, den: MAX_SCALE as u32 + 1 };
    assert_eq!(k_means(&points, &config).err(), Some(KMeansError::InvalidThreshold));
}

#[test]
fn rejects_zero_iteration_limit() {
    let points = sample();
    let mut config = plain(2, 2);
    config.max_iterations = 0;
    assert_eq!(k_means(&points, &config).err(), Some(KMeansError::NoIterationsAllowed));
}

#[test]
fn validate_accepts_what_can_be_run() {
    let points = sample();
    assert_eq!(validate(&points, &three_clusters(1)), Ok(()));
    assert_eq!(validate(&points, &plain(2, 1)), Err(KMeansError::CentroidCountMismatch));
}

#[test]
fn largest_dataset_at_the_limits_fits() {
    // Every sum and product is at its largest here.
    let mut points = vec![Point::new(MAX_COORD, MAX_COORD); MAX_POINTS];
    points[0] = Point::new(-MAX_COORD, -MAX_COORD);
    let s = MAX_SCALE as i64;
    let config = Config {
        k: 2,
        initial_centroids: vec![
            Centroid { x: -MAX_COORD * s, y: -MAX_COORD * s, scale: MAX_SCALE },
            Centroid { x: -MAX_COORD * (s - 1), y: -MAX_COORD * (s - 1), scale: MAX_SCALE - 1 },
        ],
        threshold: Threshold { num: u32::MAX, den: MAX_SCALE as u32 },
        max_iterations: 3,
    };
    // Both centroids start at the same place, so the first pass gives every
    // point to the first; the second pass parts the odd point from the rest.
    let fit = k_means(&points, &config).unwrap();
    assert!(fit.converged);
    assert_eq!(fit.iterations, 2);
    assert_eq!(fit.clusters[0].members.len(), MAX_POINTS - 1);
    assert_eq!(fit.clusters[1].members, vec![0]);
    let n = MAX_POINTS as i64;
    assert_eq!(
        fit.clusters[0].centroid,
        Centroid { x: MAX_COORD * (n - 1), y: MAX_COORD * (n - 1), scale: MAX_SCALE - 1 }
    );
    assert_eq!(fit.clusters[1].centroid, Centroid { x: -MAX_COORD, y: -MAX_COORD, scale: 1 });
    let e = fit.clusters[0].sse(&points);
    assert_eq!(e.num, 0);
    let first = k_means(&points, &Config { max_iterations: 1, ..config }).unwrap();
    assert!(!first.converged);
    assert_eq!(first.clusters[0].members.len(), MAX_POINTS);
    assert_eq!(
        first.clusters[0].centroid,
        Centroid { x: MAX_COORD * (n - 2), y: MAX_COORD * (n - 2), scale: MAX_SCALE }
    );
    let spread = first.clusters[0].sse(&points);
    assert_eq!(spread.den, (MAX_SCALE as u128) * (MAX_SCALE as u128));
    // One point at distance 2 * (n - 1) / n of the limit in each coordinate,
    // the others at 2 / n of it.
    let far: u128 = 2 * (MAX_COORD as u128) * (n as u128 - 1);
    let near: u128 = 2 * (MAX_COORD as u128);
    assert_eq!(spread.num, 2 * far * far + (n as u128 - 1) * 2 * near * near);
}
