//! A cluster: a centroid and the dataset indices of the points assigned to it.

use vstd::prelude::*;
use crate::geometry::{dist2, Centroid, Point};
use crate::ratio::{lemma_quotient_sum, quotient, Ratio};

verus! {

/// Largest number of points in a dataset.
pub const MAX_POINTS: usize = 1_048_576;

/// A centroid together with the indices, into the dataset, of the points
/// that are currently assigned to it.
#[derive(Debug)]
pub struct Cluster {
    pub centroid: Centroid,
    pub members: Vec<usize>,
}

/// The dataset is small enough and every point of it is in range.
pub open spec fn dataset_ok(points: Seq<Point>) -> bool {
    &&& points.len() <= MAX_POINTS
    &&& forall|i: int| 0 <= i < points.len() ==> (#[trigger] points[i]).in_range()
}

/// Whether the dataset is small enough and every point of it is in range.
pub fn is_dataset_ok(points: &Vec<Point>) -> (b: bool)
    ensures
        b == dataset_ok(points@),
{
    if points.len() > MAX_POINTS {
        return false;
    }
    let mut i: usize = 0;
    while i < points.len()
        invariant
            i <= points@.len(),
            points@.len() <= MAX_POINTS,
            forall|j: int| 0 <= j < i ==> (#[trigger] points@[j]).in_range(),
        decreases points@.len() - i,
    {
        if !points[i].is_in_range() {
            return false;
        }
        i = i + 1;
    }
    true
}

/// Every member is an index into a dataset of `n` points.
pub open spec fn members_within(members: Seq<usize>, n: nat) -> bool {
    forall|j: int| 0 <= j < members.len() ==> (#[trigger] members[j]) < n
}

/// Sum of the horizontal coordinates of the listed points.
pub open spec fn sum_x(points: Seq<Point>, members: Seq<usize>) -> int
    decreases members.len(),
{
    if members.len() == 0 {
        0
    } else {
        sum_x(points, members.drop_last()) + points[members.last() as int].x
    }
}

/// Sum of the vertical coordinates of the listed points.
pub open spec fn sum_y(points: Seq<Point>, members: Seq<usize>) -> int
    decreases members.len(),
{
    if members.len() == 0 {
        0
    } else {
        sum_y(points, members.drop_last()) + points[members.last() as int].y
    }
}

/// The arithmetic mean of the listed points, as a fraction over their count.
pub open spec fn mean_of(points: Seq<Point>, members: Seq<usize>) -> Centroid {
    Centroid {
        x: sum_x(points, members) as i64,
        y: sum_y(points, members) as i64,
        scale: members.len() as u64,
    }
}

/// Sum, over the listed points, of the squared distance to `c`.
pub open spec fn sse_of(points: Seq<Point>, members: Seq<usize>, c: Centroid) -> real
    decreases members.len(),
{
    if members.len() == 0 {
        0 as real
    } else {
        sse_of(points, members.drop_last(), c) + dist2(points[members.last() as int], c)
    }
}

/// The coordinate sums of `n` points in range are at most `n` times the
/// coordinate limit.
pub proof fn lemma_sum_bounds(points: Seq<Point>, members: Seq<usize>)
    requires
        dataset_ok(points),
        members_within(members, points.len()),
    ensures
        -0x10_0000 * members.len() <= sum_x(points, members) <= 0x10_0000 * members.len(),
        -0x10_0000 * members.len() <= sum_y(points, members) <= 0x10_0000 * members.len(),
    decreases members.len(),
{
    if members.len() > 0 {
        lemma_sum_bounds(points, members.drop_last());
        assert(points[members.last() as int].in_range());
    }
}

/// The mean of a non-empty list of at most `MAX_POINTS` points in range is a
/// well-formed centroid whose fields are the two sums and the count.
pub proof fn lemma_mean_wf(points: Seq<Point>, members: Seq<usize>)
    requires
        dataset_ok(points),
        members_within(members, points.len()),
        0 < members.len() <= MAX_POINTS,
    ensures
        mean_of(points, members).wf(),
        mean_of(points, members).x == sum_x(points, members),
        mean_of(points, members).y == sum_y(points, members),
        mean_of(points, members).scale == members.len(),
{
    lemma_sum_bounds(points, members);
}

impl Cluster {
    /// The cluster fits the dataset: its centroid is well formed and its
    /// members are at most `MAX_POINTS` indices into `points`.
    pub open spec fn wf(self, points: Seq<Point>) -> bool {
        &&& self.centroid.wf()
        &&& self.members@.len() <= MAX_POINTS
        &&& members_within(self.members@, points.len())
    }

    /// Whether the cluster fits the dataset.
    pub fn fits(&self, points: &Vec<Point>) -> (b: bool)
        ensures
            b == self.wf(points@),
    {
        if !self.centroid.is_valid() || self.members.len() > MAX_POINTS {
            return false;
        }
        let mut j: usize = 0;
        while j < self.members.len()
            invariant
                j <= self.members@.len(),
                forall|i: int| 0 <= i < j ==> (#[trigger] self.members@[i]) < points@.len(),
            decreases self.members@.len() - j,
        {
            if self.members[j] >= points.len() {
                return false;
            }
            j = j + 1;
        }
        true
    }

    /// A cluster at `centroid` with no point assigned.
    pub fn new(centroid: Centroid) -> (c: Cluster)
        ensures
            c.centroid == centroid,
            c.members@ == Seq::<usize>::empty(),
    {
        Cluster { centroid, members: Vec::new() }
    }

    /// The arithmetic mean of the assigned points, or `None` where no point
    /// is assigned.
    pub fn mean(&self, points: &Vec<Point>) -> (m: Option<Centroid>)
        requires
            dataset_ok(points@),
            self.wf(points@),
        ensures
            self.members@.len() == 0 ==> m.is_none(),
            self.members@.len() > 0 ==> m == Some(mean_of(points@, self.members@)),
            m.is_some() ==> m.unwrap().wf(),
    {
        let n: usize = self.members.len();
        if n == 0 {
            return None;
        }
        let mut sx: i64 = 0;
        let mut sy: i64 = 0;
        let mut j: usize = 0;
        while j < n
            invariant
                j <= n,
                n == self.members@.len(),
                n <= MAX_POINTS,
                dataset_ok(points@),
                members_within(self.members@, points@.len()),
                sx == sum_x(points@, self.members@.take(j as int)),
                sy == sum_y(points@, self.members@.take(j as int)),
                -0x10_0000 * j <= sx <= 0x10_0000 * j,
                -0x10_0000 * j <= sy <= 0x10_0000 * j,
            decreases n - j,
        {
            let i: usize = self.members[j];
            let p: Point = points[i];
            proof {
                let next = self.members@.take(j + 1);
                assert(next.drop_last() == self.members@.take(j as int));
                assert(next.last() == i);
                assert(points@[i as int].in_range());
            }
            sx = sx + p.x;
            sy = sy + p.y;
            j = j + 1;
        }
        proof {
            assert(self.members@.take(n as int) == self.members@);
            lemma_mean_wf(points@, self.members@);
        }
        Some(Centroid { x: sx, y: sy, scale: n as u64 })
    }

    /// The sum of squared distances from the assigned points to the
    /// centroid, as a fraction over the square of the centroid's
    /// denominator. It is zero where no point is assigned.
    pub fn sse(&self, points: &Vec<Point>) -> (r: Ratio)
        requires
            dataset_ok(points@),
            self.wf(points@),
        ensures
            r.wf(),
            r.den == self.centroid.scale * self.centroid.scale,
            r.value() == sse_of(points@, self.members@, self.centroid),
    {
        let n: usize = self.members.len();
        let s: u128 = self.centroid.scale as u128;
        proof {
            assert(1 <= s * s <= 0x100_0000_0000) by (nonlinear_arith)
                requires
                    1 <= s <= 0x10_0000,
            ;
        }
        let den: u128 = s * s;
        proof {
            assert(quotient(0, den as int) == 0 as real) by (nonlinear_arith)
                requires
                    den >= 1,
            ;
        }
        let mut total: u128 = 0;
        let mut j: usize = 0;
        while j < n
            invariant
                j <= n,
                n == self.members@.len(),
                n <= MAX_POINTS,
                dataset_ok(points@),
                self.centroid.wf(),
                members_within(self.members@, points@.len()),
                den == self.centroid.scale * self.centroid.scale,
                den >= 1,
                total <= 0x8_0000_0000_0000_0000_0000 * j,
                quotient(total as int, den as int) == sse_of(
                    points@,
                    self.members@.take(j as int),
                    self.centroid,
                ),
            decreases n - j,
        {
            let i: usize = self.members[j];
            let p: Point = points[i];
            proof {
                assert(points@[i as int].in_range());
            }
            let d: Ratio = self.centroid.dist2_to(&p);
            proof {
                let next = self.members@.take(j + 1);
                assert(next.drop_last() == self.members@.take(j as int));
                assert(next.last() == i);
                lemma_quotient_sum(total as int, d.num as int, den as int);
            }
            total = total + d.num;
            j = j + 1;
        }
        proof {
            assert(self.members@.take(n as int) == self.members@);
        }
        Ratio { num: total, den }
    }
}

} // verus!
