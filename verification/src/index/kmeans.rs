//! k-means over document vectors, with a sweep to pick `k`.
//!
//! The arithmetic on vectors (distances, means, silhouettes) lies outside this
//! module, which takes its results and decides: which centroid is nearest, when
//! the assignments have settled, which `k` wins, which members stand for a
//! cluster. Everything is seeded and deterministic. Clustering is already a
//! judgement call; re-running the same query and getting different groups would
//! make it an unusable one.

use std::collections::HashMap;

use vstd::prelude::*;

use crate::number::{Double, Single, INFINITY_SINGLE};
use crate::sort::{order, sort, sorted, sorting_keeps_the_values, Ordered};

verus! {

/// The `k` values the auto sweep tries when the query didn't say.
pub const AUTO_K: [usize; 5] = [2, 4, 8, 16, 32];

/// Lloyd iterations. Assignments almost always settle well before this; the cap
/// is what keeps a pathological corpus from stalling a query.
pub const MAX_ITERATIONS: usize = 50;

/// Points scored when evaluating a candidate `k`. Silhouette is quadratic in
/// full, so a sample stands in for the whole: the winner is stable long before
/// the score is precise.
pub const SILHOUETTE_SAMPLE: usize = 256;

/// The seed of the pseudo-random stream that spreads the initial centroids.
pub const SEED: u64 = 0x5E_1EC7ED;

/// A clustering: which cluster each point landed in, and how many there are.
#[derive(Debug, Clone, PartialEq)]
pub struct Clustering {
    /// Cluster index per input point, parallel to the input.
    pub assignments: Vec<usize>,
    pub k: usize,
}

/// The points of a cluster, in order.
pub open spec fn members_of(assignments: Seq<usize>, cluster: int) -> Seq<int>
    decreases assignments.len(),
{
    if assignments.len() == 0 {
        Seq::empty()
    } else {
        let before = members_of(assignments.drop_last(), cluster);
        if assignments.last() == cluster {
            before.push(assignments.len() - 1)
        } else {
            before
        }
    }
}

/// Point indices, as mathematical integers.
pub open spec fn ints(v: Seq<usize>) -> Seq<int> {
    v.map_values(|i: usize| i as int)
}

/// What a [`Clustering`] stands for.
pub struct ClusteringView {
    pub assignments: Seq<int>,
    pub k: nat,
}

impl View for Clustering {
    type V = ClusteringView;

    open spec fn view(&self) -> ClusteringView {
        ClusteringView { assignments: ints(self.assignments@), k: self.k as nat }
    }
}

impl Clustering {
    /// Every point lies in a cluster.
    pub open spec fn well_formed(&self) -> bool {
        forall|i: int| 0 <= i < self.assignments.len() ==> #[trigger] self.assignments[i] < self.k
    }

    /// The point indices belonging to each cluster, cluster 0 first.
    pub fn members(&self) -> (r: Vec<Vec<usize>>)
        requires
            self.well_formed(),
        ensures
            r.len() == self.k,
            forall|c: int|
                0 <= c < self.k ==> ints((#[trigger] r[c])@) == members_of(self.assignments@, c),
    {
        let mut members: Vec<Vec<usize>> = Vec::new();
        let mut c: usize = 0;
        while c < self.k
            invariant
                c <= self.k,
                members.len() == c,
                forall|d: int| 0 <= d < c ==> (#[trigger] members[d])@.len() == 0,
            decreases self.k - c,
        {
            members.push(Vec::new());
            c += 1;
        }
        let ghost all = self.assignments@;
        let mut point: usize = 0;
        assert forall|d: int| 0 <= d < self.k implies ints((#[trigger] members[d])@) == members_of(
            all.take(0),
            d,
        ) by {
            assert(members[d]@.len() == 0);
        }
        while point < self.assignments.len()
            invariant
                self.well_formed(),
                point <= self.assignments.len(),
                all == self.assignments@,
                members.len() == self.k,
                forall|d: int|
                    0 <= d < self.k ==> ints((#[trigger] members[d])@) == members_of(
                        all.take(point as int),
                        d,
                    ),
            decreases self.assignments.len() - point,
        {
            assert(all.take(point + 1).drop_last() == all.take(point as int));
            let cluster: usize = self.assignments[point];
            let ghost before = members@;
            let list: &mut Vec<usize> = &mut members[cluster];
            let ghost had = ints(list@);
            list.push(point);
            assert(ints(list@) == had.push(point as int));
            assert forall|d: int| 0 <= d < self.k implies ints((#[trigger] members[d])@)
                == members_of(all.take(point + 1), d) by {
                assert(ints(before[d]@) == members_of(all.take(point as int), d));
                if d != cluster {
                    assert(members[d] == before[d]);
                }
            }
            point += 1;
        }
        assert(all.take(point as int) == all);
        members
    }
}

pub proof fn lemma_members(assignments: Seq<usize>, cluster: int)
    ensures
        forall|j: int|
            0 <= j < members_of(assignments, cluster).len() ==> {
                let p = #[trigger] members_of(assignments, cluster)[j];
                0 <= p < assignments.len() && assignments[p] == cluster
            },
        forall|p: int|
            0 <= p < assignments.len() && #[trigger] assignments[p] == cluster ==> members_of(
                assignments,
                cluster,
            ).contains(p),
    decreases assignments.len(),
{
    if assignments.len() > 0 {
        let short = assignments.drop_last();
        lemma_members(short, cluster);
        let before = members_of(short, cluster);
        let now = members_of(assignments, cluster);
        assert forall|j: int| 0 <= j < now.len() implies {
            let p = #[trigger] now[j];
            0 <= p < assignments.len() && assignments[p] == cluster
        } by {
            if j < before.len() {
                assert(now[j] == before[j]);
                assert(short[before[j]] == assignments[before[j]]);
            }
        }
        assert forall|p: int|
            0 <= p < assignments.len() && #[trigger] assignments[p] == cluster implies now.contains(
            p,
        ) by {
            if p < short.len() {
                assert(short[p] == cluster);
                let j = choose|j: int| 0 <= j < before.len() && before[j] == p;
                assert(now[j] == p);
            } else {
                assert(now[now.len() - 1] == p);
            }
        }
    }
}

/// Every point is a member of its own cluster and of no other.
pub proof fn clusters_partition_the_points(c: &Clustering, point: int, cluster: int)
    requires
        c.well_formed(),
        0 <= point < c.assignments.len(),
        0 <= cluster < c.k,
    ensures
        members_of(c.assignments@, cluster).contains(point) <==> c.assignments[point] == cluster,
{
    lemma_members(c.assignments@, cluster);
    let m = members_of(c.assignments@, cluster);
    if m.contains(point) {
        let j = choose|j: int| 0 <= j < m.len() && m[j] == point;
        assert(c.assignments@[m[j]] == cluster);
    }
}

/// How a set of points is to be clustered.
#[derive(Debug, Clone, Copy, PartialEq, Eq, Structural)]
pub enum Grouping {
    /// There is nothing to cluster.
    Empty,
    /// Into so many groups, at most one per point.
    Fixed(usize),
    /// Into as many groups as the sweep likes best.
    Sweep,
}

/// A number of groups for some points, at least one and at most one per point.
pub open spec fn clamped_k(k: int, points: int) -> int {
    if k < 1 {
        1
    } else if k > points {
        points
    } else {
        k
    }
}

/// Cluster `points` into `k` groups, or into the `k` the sweep likes best when
/// `k` is `None`.
///
/// Fewer points than clusters is not an error: there are then as many groups as
/// points, and every point becomes its own cluster, which is the honest answer to
/// "group these three documents into eight". So it does where there are too few
/// points for the sweep's smallest candidate.
pub fn grouping(points: usize, k: Option<usize>) -> (r: Grouping)
    ensures
        points == 0 ==> r == Grouping::Empty,
        points > 0 ==> r == (match k {
            Some(k) => Grouping::Fixed(clamped_k(k as int, points as int) as usize),
            None => if candidate(0, points as int) is None {
                Grouping::Fixed(points)
            } else {
                Grouping::Sweep
            },
        }),
{
    if points == 0 {
        return Grouping::Empty;
    }
    match k {
        Some(k) => if k > points {
            Grouping::Fixed(points)
        } else if k < 1 {
            Grouping::Fixed(1)
        } else {
            Grouping::Fixed(k)
        },
        None => if points <= AUTO_K[0] {
            Grouping::Fixed(points)
        } else {
            Grouping::Sweep
        },
    }
}

/// Whether a point is the first of its cluster.
pub open spec fn comes_first(a: Seq<int>, i: int) -> bool {
    forall|j: int| 0 <= j < i ==> #[trigger] a[j] != a[i]
}

/// How many of the first `n` points come after another of their cluster.
pub open spec fn later_ones(a: Seq<int>, n: nat) -> nat
    decreases n,
{
    if n == 0 {
        0
    } else {
        let before = later_ones(a, (n - 1) as nat);
        if comes_first(a, n - 1) {
            before
        } else {
            before + 1
        }
    }
}

/// The clusters below `k` without a point, in order.
pub open spec fn unused(a: Seq<int>, k: nat) -> Seq<int>
    decreases k,
{
    if k == 0 {
        Seq::empty()
    } else {
        let before = unused(a, (k - 1) as nat);
        if a.contains(k - 1) {
            before
        } else {
            before.push(k - 1)
        }
    }
}

/// The assignments of points of which each is to be a cluster of its own: the
/// first point of a cluster stays in it, and each later one, which no distance
/// tells from the first, takes the next cluster that has none.
pub open spec fn apart(a: Seq<int>) -> Seq<int> {
    Seq::new(
        a.len(),
        |i: int|
            if comes_first(a, i) {
                a[i]
            } else {
                unused(a, a.len())[later_ones(a, i as nat) as int]
            },
    )
}

proof fn lemma_unused(a: Seq<int>, k: nat)
    ensures
        forall|j: int|
            0 <= j < unused(a, k).len() ==> 0 <= #[trigger] unused(a, k)[j] < k && !a.contains(
                unused(a, k)[j],
            ),
        forall|i: int, j: int|
            0 <= i < j < unused(a, k).len() ==> #[trigger] unused(a, k)[i] < #[trigger] unused(
                a,
                k,
            )[j],
        unused(a, k).len() <= k,
    decreases k,
{
    if k > 0 {
        let m = (k - 1) as nat;
        lemma_unused(a, m);
        let before = unused(a, m);
        let now = unused(a, k);
        assert forall|j: int| 0 <= j < now.len() implies 0 <= #[trigger] now[j] < k && !a.contains(
            now[j],
        ) by {
            if j < before.len() {
                assert(now[j] == before[j]);
            }
        }
        assert forall|i: int, j: int| 0 <= i < j < now.len() implies #[trigger] now[i]
            < #[trigger] now[j] by {
            assert(now[i] == before[i]);
            if j < before.len() {
                assert(now[j] == before[j]);
            }
        }
    }
}

/// One point more uses at most one cluster more.
proof fn lemma_unused_push(a: Seq<int>, v: int, k: nat)
    ensures
        unused(a.push(v), k).len() == unused(a, k).len() - if 0 <= v < k && !a.contains(v) {
            1int
        } else {
            0
        },
    decreases k,
{
    if k > 0 {
        lemma_unused_push(a, v, (k - 1) as nat);
        let more = a.push(v);
        assert(more.contains(k - 1) <==> a.contains(k - 1) || v == k - 1) by {
            if a.contains(k - 1) {
                let j = choose|j: int| 0 <= j < a.len() && a[j] == k - 1;
                assert(more[j] == k - 1);
            }
            if v == k - 1 {
                assert(more[a.len() as int] == k - 1);
            }
            if more.contains(k - 1) {
                let j = choose|j: int| 0 <= j < more.len() && more[j] == k - 1;
                if j < a.len() {
                    assert(a[j] == k - 1);
                }
            }
        }
    }
}

proof fn lemma_later_prefix(a: Seq<int>, b: Seq<int>, n: nat)
    requires
        n <= a.len(),
        n <= b.len(),
        forall|i: int| 0 <= i < n ==> a[i] == b[i],
    ensures
        later_ones(a, n) == later_ones(b, n),
        later_ones(a, n) <= n,
    decreases n,
{
    if n > 0 {
        lemma_later_prefix(a, b, (n - 1) as nat);
        assert(comes_first(a, n - 1) == comes_first(b, n - 1)) by {
            if comes_first(a, n - 1) {
                assert forall|j: int| 0 <= j < n - 1 implies #[trigger] b[j] != b[n - 1] by {
                    assert(a[j] != a[n - 1]);
                }
            }
            if comes_first(b, n - 1) {
                assert forall|j: int| 0 <= j < n - 1 implies #[trigger] a[j] != a[n - 1] by {
                    assert(b[j] != b[n - 1]);
                }
            }
        }
    }
}

/// Where there are as many clusters as points, as many are without a point as
/// points come after another of their cluster.
proof fn lemma_as_many_unused(a: Seq<int>, k: nat)
    requires
        forall|i: int| 0 <= i < a.len() ==> 0 <= #[trigger] a[i] < k,
    ensures
        later_ones(a, a.len()) + k == a.len() + unused(a, k).len(),
    decreases a.len(),
{
    if a.len() == 0 {
        lemma_all_unused(a, k);
    } else {
        let b = a.drop_last();
        let v = a.last();
        let n = b.len();
        assert forall|i: int| 0 <= i < b.len() implies 0 <= #[trigger] b[i] < k by {
            assert(b[i] == a[i]);
        }
        lemma_as_many_unused(b, k);
        assert(b.push(v) =~= a);
        lemma_unused_push(b, v, k);
        lemma_later_prefix(a, b, n);
        assert(0 <= a[n as int] < k);
        assert(comes_first(a, n as int) == !b.contains(v)) by {
            if b.contains(v) {
                let j = choose|j: int| 0 <= j < b.len() && b[j] == v;
                assert(a[j] == a[n as int]);
            }
            if !b.contains(v) {
                assert forall|j: int| 0 <= j < n implies #[trigger] a[j] != a[n as int] by {
                    assert(b[j] == a[j]);
                }
            }
        }
    }
}

proof fn lemma_all_unused(a: Seq<int>, k: nat)
    requires
        a.len() == 0,
    ensures
        unused(a, k).len() == k,
    decreases k,
{
    if k > 0 {
        lemma_all_unused(a, (k - 1) as nat);
    }
}

proof fn lemma_later_grows(a: Seq<int>, i: nat, j: nat)
    requires
        i < j <= a.len(),
    ensures
        later_ones(a, i) <= later_ones(a, j),
        !comes_first(a, i as int) ==> later_ones(a, i) < later_ones(a, j),
    decreases j,
{
    if i < j - 1 {
        lemma_later_grows(a, i, (j - 1) as nat);
    }
}

/// Every point stands alone: no two share a cluster, and none is beyond them.
/// Points that the distances tell apart keep the clusters that they were in.
pub proof fn points_stand_apart(a: Seq<int>)
    requires
        forall|i: int| 0 <= i < a.len() ==> 0 <= #[trigger] a[i] < a.len(),
    ensures
        apart(a).len() == a.len(),
        forall|i: int| 0 <= i < a.len() ==> 0 <= #[trigger] apart(a)[i] < a.len(),
        apart(a).no_duplicates(),
        a.no_duplicates() ==> apart(a) == a,
{
    let n = a.len();
    let free = unused(a, n);
    let r = apart(a);
    lemma_as_many_unused(a, n);
    lemma_unused(a, n);
    assert forall|i: int| 0 <= i < n implies 0 <= #[trigger] r[i] < n && (!comes_first(a, i) ==> 0
        <= later_ones(a, i as nat) < free.len() && !a.contains(r[i])) by {
        if !comes_first(a, i) {
            lemma_later_grows(a, i as nat, n);
            assert(0 <= free[later_ones(a, i as nat) as int] < n);
        }
    }
    assert forall|i: int, j: int| 0 <= i < n && 0 <= j < n && i != j implies r[i] != r[j] by {
        let (x, y) = if i < j {
            (i, j)
        } else {
            (j, i)
        };
        assert(0 <= r[x] < n && 0 <= r[y] < n);
        if comes_first(a, y) {
            if comes_first(a, x) {
                assert(a[x] != a[y]);
            } else {
                assert(a.contains(a[y]));
            }
        } else if comes_first(a, x) {
            assert(a.contains(a[x]));
        } else {
            lemma_later_grows(a, x as nat, y as nat);
            assert(free[later_ones(a, x as nat) as int] < free[later_ones(a, y as nat) as int]);
        }
    }
    if a.no_duplicates() {
        assert forall|i: int| 0 <= i < n implies r[i] == a[i] by {
            assert(comes_first(a, i));
        }
        assert(r =~= a);
    }
}

/// Whether a number stands among some.
fn has_number(a: &Vec<usize>, n: usize, c: usize) -> (r: bool)
    requires
        n <= a.len(),
    ensures
        r == ints(a@.take(n as int)).contains(c as int),
{
    let ghost all = ints(a@.take(n as int));
    let mut i: usize = 0;
    while i < n
        invariant
            i <= n <= a.len(),
            all == ints(a@.take(n as int)),
            forall|j: int| 0 <= j < i ==> #[trigger] all[j] != c,
        decreases n - i,
    {
        assert(all[i as int] == a@[i as int]);
        if a[i] == c {
            return true;
        }
        i += 1;
    }
    false
}

/// Gives every point a cluster of its own.
fn set_apart(a: &Vec<usize>) -> (r: Vec<usize>)
    requires
        forall|i: int| 0 <= i < a.len() ==> #[trigger] a[i] < a.len(),
    ensures
        ints(r@) == apart(ints(a@)),
        forall|i: int| 0 <= i < r.len() ==> #[trigger] r[i] < a.len(),
{
    let n: usize = a.len();
    let ghost all = ints(a@);
    let mut free: Vec<usize> = Vec::new();
    let mut c: usize = 0;
    assert(ints(free@) =~= unused(all, 0));
    while c < n
        invariant
            c <= n == a.len(),
            all == ints(a@),
            ints(free@) == unused(all, c as nat),
        decreases n - c,
    {
        assert(a@.take(n as int) =~= a@);
        if !has_number(a, n, c) {
            let ghost before = ints(free@);
            free.push(c);
            assert(ints(free@) =~= before.push(c as int));
        }
        c += 1;
    }
    proof {
        assert forall|i: int| 0 <= i < all.len() implies 0 <= #[trigger] all[i] < all.len() by {
            assert(all[i] == a[i]);
        }
        points_stand_apart(all);
        lemma_as_many_unused(all, n as nat);
    }
    let ghost want = apart(all);
    let mut out: Vec<usize> = Vec::new();
    let mut next: usize = 0;
    let mut i: usize = 0;
    assert(ints(out@) =~= want.take(0));
    while i < n
        invariant
            i <= n == a.len(),
            all == ints(a@),
            want == apart(all),
            ints(free@) == unused(all, n as nat),
            later_ones(all, n as nat) == free.len(),
            next == later_ones(all, i as nat),
            ints(out@) == want.take(i as int),
        decreases n - i,
    {
        let ghost before = ints(out@);
        assert(all[i as int] == a@[i as int]);
        let again: bool = has_number(a, i, a[i]);
        proof {
            let past = ints(a@.take(i as int));
            assert(again == !comes_first(all, i as int)) by {
                if again {
                    let j = choose|j: int| 0 <= j < past.len() && past[j] == a@[i as int];
                    assert(all[j] == all[i as int]);
                } else {
                    assert forall|j: int| 0 <= j < i implies #[trigger] all[j] != all[i as int] by {
                        assert(past[j] == all[j]);
                    }
                }
            }
            lemma_later_grows(all, i as nat, n as nat);
        }
        if again {
            assert(ints(free@)[next as int] == free@[next as int]);
            out.push(free[next]);
            next += 1;
        } else {
            out.push(a[i]);
        }
        assert(ints(out@) =~= before.push(want[i as int]));
        assert(want.take(i + 1) =~= before.push(want[i as int]));
        i += 1;
    }
    assert(want.take(n as int) =~= want);
    assert forall|j: int| 0 <= j < out.len() implies #[trigger] out[j] < a.len() by {
        assert(ints(out@)[j] == out[j]);
        assert(0 <= want[j] < all.len());
    }
    out
}

/// The index of the nearest of some centroids, and its distance: the first
/// whose distance is less than that of all before it.
pub open spec fn nearest_in(distances: Seq<Single>) -> (int, Single)
    decreases distances.len(),
{
    if distances.len() == 0 {
        (0, Single { bits: INFINITY_SINGLE })
    } else {
        let best = nearest_in(distances.drop_last());
        if distances.last().below(best.1) {
            (distances.len() - 1, distances.last())
        } else {
            best
        }
    }
}

/// The index of the nearest of some centroids, by their distances.
pub fn nearest_centroid(distances: &Vec<Single>) -> (r: usize)
    ensures
        r == nearest_in(distances@).0,
        r < distances.len() || r == 0,
{
    let mut best: usize = 0;
    let mut best_distance = Single { bits: INFINITY_SINGLE };
    let mut i: usize = 0;
    while i < distances.len()
        invariant
            i <= distances.len(),
            (best as int, best_distance) == nearest_in(distances@.take(i as int)),
            best < i || best == 0,
        decreases distances.len() - i,
    {
        assert(distances@.take(i + 1).drop_last() == distances@.take(i as int));
        if distances[i].lt(best_distance) {
            best = i;
            best_distance = distances[i];
        }
        i += 1;
    }
    assert(distances@.take(i as int) == distances@);
    best
}

/// Where every distance is a finite number, no centroid is nearer than the
/// chosen one, and none before it is as near.
pub proof fn the_nearest_centroid_is_nearest(distances: Seq<Single>, other: int)
    requires
        forall|i: int|
            0 <= i < distances.len() ==> (#[trigger] distances[i]).below(
                Single { bits: INFINITY_SINGLE },
            ),
        0 <= other < distances.len(),
    ensures
        0 <= nearest_in(distances).0 < distances.len(),
        nearest_in(distances).1 == distances[nearest_in(distances).0],
        nearest_in(distances).1.at_most(distances[other]),
        other < nearest_in(distances).0 ==> nearest_in(distances).1.below(distances[other]),
    decreases distances.len(),
{
    let short = distances.drop_last();
    assert forall|i: int| 0 <= i < short.len() implies (#[trigger] short[i]).below(
        Single { bits: INFINITY_SINGLE },
    ) by {
        assert(short[i] == distances[i]);
    }
    assert(distances.last() == distances[distances.len() - 1]);
    if other < short.len() {
        the_nearest_centroid_is_nearest(short, other);
        assert(short[other] == distances[other]);
        assert(short[nearest_in(short).0] == distances[nearest_in(short).0]);
    } else if short.len() > 0 {
        the_nearest_centroid_is_nearest(short, 0);
        assert(short[nearest_in(short).0] == distances[nearest_in(short).0]);
    }
}

/// What Lloyd's algorithm asks for next.
#[derive(Debug, Clone, Copy, PartialEq, Eq, Structural)]
pub enum Step {
    /// Move each centroid to its members' mean, and measure again.
    Recentre,
    /// The clustering is settled.
    Done,
}

/// Lloyd's algorithm between two measurements: the assignments so far, and how
/// many rounds have been made.
#[derive(Debug)]
pub struct Lloyd {
    pub assignments: Vec<usize>,
    pub k: usize,
    pub rounds: usize,
}

/// The distances of each point from each centroid, as they were measured.
pub open spec fn measured(distances: Seq<Vec<Single>>) -> Seq<Seq<Single>> {
    distances.map_values(|d: Vec<Single>| d@)
}

/// The nearest centroid of each point.
pub open spec fn nearest_each(distances: Seq<Seq<Single>>) -> Seq<int> {
    distances.map_values(|d: Seq<Single>| nearest_in(d).0)
}

/// Where the points stand after some rounds: all in the first cluster before the
/// first.
pub open spec fn standing(points: nat, past: Seq<Seq<int>>) -> Seq<int> {
    if past.len() == 0 {
        Seq::new(points, |i: int| 0int)
    } else {
        past.last()
    }
}

/// What the distances are once points are in `k` clusters: a function of that
/// number and of where the points stood after each round so far, which is what
/// the centroids follow from.
pub type Measure = spec_fn(nat, Seq<Seq<int>>) -> Seq<Seq<Single>>;

/// How well a clustering separates the points.
pub type Scoring = spec_fn(ClusteringView) -> Double;

/// Where Lloyd's algorithm ends, from some rounds on: each round moves every
/// point to its nearest centroid, until none has moved or the cap is reached.
pub open spec fn settles(points: nat, k: nat, measure: Measure, past: Seq<Seq<int>>) -> Seq<int>
    decreases MAX_ITERATIONS - past.len(),
{
    let now = nearest_each(measure(k, past));
    if now == standing(points, past) || past.len() + 1 >= MAX_ITERATIONS {
        now
    } else {
        settles(points, k, measure, past.push(now))
    }
}

/// The assignments as a clustering: where there are as many clusters as points,
/// every point stands apart.
pub open spec fn grouped(assignments: Seq<int>, k: nat) -> ClusteringView {
    ClusteringView {
        assignments: if k == assignments.len() {
            apart(assignments)
        } else {
            assignments
        },
        k,
    }
}

/// The clustering of some points into `k` groups.
pub open spec fn run_of(points: nat, k: nat, measure: Measure) -> ClusteringView {
    grouped(settles(points, k, measure, Seq::empty()), k)
}

impl Lloyd {
    pub open spec fn well_formed(&self) -> bool {
        &&& 0 < self.k
        &&& forall|i: int|
            0 <= i < self.assignments.len() ==> #[trigger] self.assignments[i] < self.k
    }

    /// Whether the algorithm stands where some rounds have brought it, and what is
    /// measured from here on decides where it ends.
    pub open spec fn has_run(&self, measure: Measure, past: Seq<Seq<int>>) -> bool {
        let points = self.assignments@.len();
        &&& self.rounds == past.len()
        &&& ints(self.assignments@) == standing(points, past)
        &&& settles(points, self.k as nat, measure, past) == settles(
            points,
            self.k as nat,
            measure,
            Seq::empty(),
        )
    }

    /// All points in the first cluster, before the first round.
    pub fn new(points: usize, k: usize) -> (r: Lloyd)
        requires
            points > 0,
        ensures
            r.well_formed(),
            r.k == clamped_k(k as int, points as int),
            r.rounds == 0,
            r.assignments@ == Seq::new(points as nat, |i: int| 0usize),
            forall|measure: Measure| #[trigger] r.has_run(measure, Seq::empty()),
    {
        let k: usize = if k < 1 {
            1
        } else if k > points {
            points
        } else {
            k
        };
        let mut assignments: Vec<usize> = Vec::new();
        let mut i: usize = 0;
        while i < points
            invariant
                i <= points,
                assignments@ == Seq::new(i as nat, |j: int| 0usize),
            decreases points - i,
        {
            assignments.push(0);
            i += 1;
        }
        assert(ints(assignments@) =~= standing(points as nat, Seq::empty()));
        Lloyd { assignments, k, rounds: 0 }
    }

    /// One round: each point moves to its nearest centroid. The algorithm stops
    /// once no point has moved, or at the cap.
    pub fn step(&mut self, distances: &Vec<Vec<Single>>) -> (r: Step)
        requires
            old(self).well_formed(),
            old(self).rounds < MAX_ITERATIONS,
            distances.len() == old(self).assignments.len(),
            forall|i: int| 0 <= i < distances.len() ==> (#[trigger] distances[i]).len() == old(self).k,
        ensures
            final(self).well_formed(),
            final(self).k == old(self).k,
            final(self).rounds == old(self).rounds + 1,
            ints(final(self).assignments@) == nearest_each(measured(distances@)),
            r == Step::Done <==> ints(old(self).assignments@) == nearest_each(
                measured(distances@),
            ) || old(self).rounds + 1 == MAX_ITERATIONS,
            forall|measure: Measure, past: Seq<Seq<int>>| #[trigger]
                old(self).has_run(measure, past) && measured(distances@) == measure(
                    old(self).k as nat,
                    past,
                ) ==> if r == Step::Done {
                    ints(final(self).assignments@) == settles(
                        distances@.len(),
                        final(self).k as nat,
                        measure,
                        Seq::empty(),
                    )
                } else {
                    final(self).has_run(measure, past.push(ints(final(self).assignments@)))
                },
    {
        let ghost before = self.assignments@;
        let ghost want = nearest_each(measured(distances@));
        let mut moved: bool = false;
        let mut i: usize = 0;
        while i < distances.len()
            invariant
                i <= distances.len() == self.assignments.len() == before.len(),
                self.k == old(self).k,
                self.rounds == old(self).rounds,
                self.well_formed(),
                want == nearest_each(measured(distances@)),
                forall|j: int| 0 <= j < distances.len() ==> (#[trigger] distances[j]).len() == self.k,
                forall|j: int| 0 <= j < i ==> #[trigger] self.assignments@[j] == want[j],
                forall|j: int| i <= j < before.len() ==> #[trigger] self.assignments@[j] == before[j],
                moved == !(forall|j: int| 0 <= j < i ==> #[trigger] before[j] == want[j]),
            decreases distances.len() - i,
        {
            let nearest: usize = nearest_centroid(&distances[i]);
            assert(measured(distances@)[i as int] == distances@[i as int]@);
            assert(want[i as int] == nearest);
            if self.assignments[i] != nearest {
                assert(before[i as int] != want[i as int]);
                self.assignments.set(i, nearest);
                moved = true;
            }
            i += 1;
        }
        assert(ints(self.assignments@) == want);
        assert(moved == (ints(before) != want)) by {
            if !moved {
                assert(ints(before) == want);
            } else {
                let j = choose|j: int| 0 <= j < before.len() && #[trigger] before[j] != want[j];
                assert(ints(before)[j] != want[j]);
            }
        }
        self.rounds = self.rounds + 1;
        if !moved || self.rounds == MAX_ITERATIONS {
            Step::Done
        } else {
            Step::Recentre
        }
    }

    /// The clustering that the algorithm has reached. Where there are as many
    /// clusters as points, every point is a cluster of its own.
    pub fn clustering(self) -> (r: Clustering)
        requires
            self.well_formed(),
        ensures
            r.well_formed(),
            r@ == grouped(ints(self.assignments@), self.k as nat),
    {
        let k: usize = self.k;
        if k == self.assignments.len() {
            Clustering { assignments: set_apart(&self.assignments), k }
        } else {
            Clustering { assignments: self.assignments, k }
        }
    }
}

/// The sweep over candidate numbers of groups, and the best clustering so far.
#[derive(Debug)]
pub struct Sweep {
    pub points: usize,
    pub tried: usize,
    pub best: Option<(Double, Clustering)>,
}

/// The candidate that the sweep tries after some others: none at or above the
/// point count, which degenerates to one point per cluster, always scores well
/// and never means anything.
pub open spec fn candidate(tried: int, points: int) -> Option<int> {
    if 0 <= tried < 5 {
        let k = if tried == 0 {
            2int
        } else if tried == 1 {
            4
        } else if tried == 2 {
            8
        } else if tried == 3 {
            16
        } else {
            32
        };
        if k < points {
            Some(k)
        } else {
            None
        }
    } else {
        None
    }
}

/// The best of some clusterings with their scores: a later one has to score
/// strictly better.
pub open spec fn best_of(reports: Seq<(Double, ClusteringView)>) -> Option<(Double, ClusteringView)>
    decreases reports.len(),
{
    if reports.len() == 0 {
        None
    } else {
        match best_of(reports.drop_last()) {
            Some(best) => if best.0.below(reports.last().0) {
                Some(reports.last())
            } else {
                Some(best)
            },
            None => Some(reports.last()),
        }
    }
}

impl Sweep {
    /// The best clustering so far, with its score.
    pub open spec fn leader(&self) -> Option<(Double, ClusteringView)> {
        match self.best {
            Some(best) => Some((best.0, best.1@)),
            None => None,
        }
    }

    /// There are enough points to choose among numbers of groups, and in the best
    /// clustering every point lies in a cluster.
    pub open spec fn well_formed(&self) -> bool {
        &&& self.points > 2
        &&& match self.best {
            Some(best) => best.1.well_formed(),
            None => true,
        }
    }

    /// Whether the sweep stands where some reports, one after another, bring it.
    pub open spec fn has_seen(&self, reports: Seq<(Double, ClusteringView)>) -> bool {
        self.tried == reports.len() && self.leader() == best_of(reports)
    }

    pub fn new(points: usize) -> (r: Sweep)
        ensures
            r.points == points,
            r.tried == 0,
            r.best is None,
            r.has_seen(Seq::empty()),
    {
        Sweep { points, tried: 0, best: None }
    }

    /// The next candidate to try.
    pub fn next_k(&self) -> (r: Option<usize>)
        ensures
            match r {
                Some(k) => candidate(self.tried as int, self.points as int) == Some(k as int),
                None => candidate(self.tried as int, self.points as int) is None,
            },
    {
        if self.tried >= 5 {
            return None;
        }
        let k: usize = AUTO_K[self.tried];
        if k >= self.points {
            None
        } else {
            Some(k)
        }
    }

    /// Takes the candidate's clustering in, and keeps it if it scores strictly
    /// better than the best so far.
    pub fn report(&mut self, score: Double, clustering: Clustering)
        requires
            old(self).tried < 5,
        ensures
            final(self).points == old(self).points,
            final(self).tried == old(self).tried + 1,
            final(self).best == (match old(self).best {
                Some(best) => if best.0.below(score) {
                    Some((score, clustering))
                } else {
                    Some(best)
                },
                None => Some((score, clustering)),
            }),
            forall|reports: Seq<(Double, ClusteringView)>| #[trigger]
                old(self).has_seen(reports) ==> final(self).has_seen(
                    reports.push((score, clustering@)),
                ),
    {
        let ghost report = (score, clustering@);
        let better: bool = match &self.best {
            Some(best) => best.0.lt(score),
            None => true,
        };
        if better {
            self.best = Some((score, clustering));
        }
        self.tried = self.tried + 1;
        assert forall|reports: Seq<(Double, ClusteringView)>| #[trigger]
            old(self).has_seen(reports) implies self.has_seen(reports.push(report)) by {
            assert(reports.push(report).drop_last() =~= reports);
        }
    }

    /// The winner, `None` where no candidate was tried.
    pub fn winner(self) -> (r: Option<Clustering>)
        ensures
            r == (match self.best {
                Some(best) => Some(best.1),
                None => None,
            }),
    {
        match self.best {
            Some(best) => Some(best.1),
            None => None,
        }
    }
}

proof fn lemma_candidates(i: int, j: int, points: int)
    requires
        0 <= i < j,
        candidate(j, points) is Some,
    ensures
        candidate(i, points) is Some,
        candidate(i, points)->0 < candidate(j, points)->0 < points,
{
}

/// How many candidates the sweep tries.
pub open spec fn candidates(points: int) -> nat {
    if points > 32 {
        5
    } else if points > 16 {
        4
    } else if points > 8 {
        3
    } else if points > 4 {
        2
    } else if points > 2 {
        1
    } else {
        0
    }
}

/// What is reported of each candidate: the clustering into so many groups, and
/// its score.
pub open spec fn reports_of(points: nat, measure: Measure, score: Scoring) -> Seq<
    (Double, ClusteringView),
> {
    Seq::new(
        candidates(points as int),
        |i: int|
            {
                let c = run_of(points, candidate(i, points as int)->0 as nat, measure);
                (score(c), c)
            },
    )
}

/// Some points clustered into `k` groups, or into as many as the sweep likes best
/// where none is given.
pub open spec fn clustered(
    points: nat,
    k: Option<nat>,
    measure: Measure,
    score: Scoring,
) -> ClusteringView {
    if points == 0 {
        ClusteringView { assignments: Seq::empty(), k: 0 }
    } else {
        match k {
            Some(k) => run_of(points, clamped_k(k as int, points as int) as nat, measure),
            None => match best_of(reports_of(points, measure, score)) {
                Some(best) => best.1,
                None => run_of(points, points, measure),
            },
        }
    }
}

/// The leader of a sweep over the clusterings into each candidate number of
/// groups, each reported with its score, is the clustering of the points.
pub proof fn the_sweep_clusters_the_points(sweep: &Sweep, measure: Measure, score: Scoring)
    requires
        sweep.points > 2,
        sweep.has_seen(reports_of(sweep.points as nat, measure, score)),
    ensures
        candidate(sweep.tried as int, sweep.points as int) is None,
        match sweep.best {
            Some(best) => best.1@ == clustered(sweep.points as nat, None, measure, score),
            None => false,
        },
{
    let reports = reports_of(sweep.points as nat, measure, score);
    assert(best_of(reports) is Some);
}

/// Where no number of groups is given and there are enough points to choose one,
/// the points are clustered as they would be into one of the candidate numbers,
/// no candidate separates them better, and on a tie the smallest wins. The
/// scores have to be numbers.
pub proof fn the_best_separated_clustering_wins(
    points: nat,
    measure: Measure,
    score: Scoring,
    j: nat,
)
    requires
        points > 2,
        forall|i: int|
            0 <= i < candidates(points as int) ==> !score(
                clustered(
                    points,
                    Some((#[trigger] candidate(i, points as int))->0 as nat),
                    measure,
                    score,
                ),
            ).is_nan(),
        j < candidates(points as int),
    ensures
        ({
            let c = clustered(points, None, measure, score);
            let k = candidate(j as int, points as int)->0 as nat;
            let other = clustered(points, Some(k), measure, score);
            &&& exists|i: int| #[trigger] candidate(i, points as int) == Some(c.k as int)
            &&& c.k < points
            &&& c == clustered(points, Some(c.k), measure, score)
            &&& score(other).at_most(score(c))
            &&& k < c.k ==> score(other).below(score(c))
        }),
{
    let n = points as int;
    let reports = reports_of(points, measure, score);
    assert forall|i: int| 0 <= i < reports.len() implies {
        let k = candidate(i, n)->0 as nat;
        &&& candidate(i, n) is Some
        &&& #[trigger] reports[i] == (score(run_of(points, k, measure)), run_of(points, k, measure))
        &&& clustered(points, Some(k), measure, score) == run_of(points, k, measure)
        &&& reports[i].1.k == k
        &&& k < points
        &&& !reports[i].0.is_nan()
    } by {
        let k = candidate(i, n)->0 as nat;
        assert(clamped_k(k as int, n) == k);
    }
    let w = lemma_best_of(reports, j as int);
    let c = clustered(points, None, measure, score);
    assert(reports[w].1 == c);
    assert(reports[w].0 == score(c));
    assert(reports[j as int].0 == score(reports[j as int].1));
    assert(candidate(w, n) == Some(c.k as int));
    if w < j {
        lemma_candidates(w, j as int, n);
    }
}

proof fn lemma_best_of(reports: Seq<(Double, ClusteringView)>, j: int) -> (w: int)
    requires
        forall|i: int| 0 <= i < reports.len() ==> !(#[trigger] reports[i]).0.is_nan(),
        0 <= j < reports.len(),
    ensures
        0 <= w < reports.len(),
        best_of(reports) == Some(reports[w]),
        reports[j].0.at_most(reports[w].0),
        j < w ==> reports[j].0.below(reports[w].0),
    decreases reports.len(),
{
    let short = reports.drop_last();
    let last = reports.len() - 1;
    assert forall|i: int| 0 <= i < short.len() implies !(#[trigger] short[i]).0.is_nan() by {
        assert(short[i] == reports[i]);
    }
    if short.len() == 0 {
        assert(best_of(short) is None);
        last
    } else {
        let v = if j < last {
            lemma_best_of(short, j)
        } else {
            lemma_best_of(short, 0)
        };
        assert(short[v] == reports[v]);
        if j < last {
            assert(short[j] == reports[j]);
        }
        if reports[v].0.below(reports[last].0) {
            last
        } else {
            v
        }
    }
}

/// The number of groups that is asked for, if any.
pub open spec fn wished(k: Option<usize>) -> Option<nat> {
    match k {
        Some(k) => Some(k as nat),
        None => None,
    }
}

/// The clustering of some points between two measurements.
#[derive(Debug)]
pub enum Clusterer {
    /// The distances of the points from the centroids are wanted, for the one
    /// number of groups or for a candidate of the sweep.
    Measuring { lloyd: Lloyd, sweep: Option<Sweep> },
    /// It is wanted how well a candidate's clustering separates the points.
    Scoring { clustering: Clustering, sweep: Sweep },
    /// The points are clustered.
    Done(Clustering),
}

impl Clusterer {
    pub open spec fn well_formed(&self) -> bool {
        match *self {
            Clusterer::Measuring { lloyd, sweep } => {
                &&& lloyd.well_formed()
                &&& lloyd.rounds < MAX_ITERATIONS
                &&& match sweep {
                    Some(sweep) => sweep.well_formed() && sweep.tried < 5,
                    None => true,
                }
            },
            Clusterer::Scoring { clustering, sweep } => clustering.well_formed()
                && sweep.well_formed() && sweep.tried < 5,
            Clusterer::Done(clustering) => clustering.well_formed(),
        }
    }

    /// Whether the clustering of some points is under way, by some measurements
    /// and scores, where some rounds of the present number of groups are made.
    pub open spec fn under_way(
        &self,
        points: nat,
        k: Option<nat>,
        measure: Measure,
        score: Scoring,
        past: Seq<Seq<int>>,
    ) -> bool {
        let reports = reports_of(points, measure, score);
        match *self {
            Clusterer::Measuring { lloyd, sweep } => {
                &&& points > 0
                &&& lloyd.assignments@.len() == points
                &&& lloyd.has_run(measure, past)
                &&& match sweep {
                    None => clustered(points, k, measure, score) == run_of(
                        points,
                        lloyd.k as nat,
                        measure,
                    ),
                    Some(sweep) => {
                        &&& k is None
                        &&& sweep.points == points
                        &&& candidate(sweep.tried as int, points as int) == Some(lloyd.k as int)
                        &&& sweep.has_seen(reports.take(sweep.tried as int))
                    },
                }
            },
            Clusterer::Scoring { clustering, sweep } => {
                &&& k is None
                &&& sweep.points == points
                &&& candidate(sweep.tried as int, points as int) is Some
                &&& clustering@ == run_of(
                    points,
                    candidate(sweep.tried as int, points as int)->0 as nat,
                    measure,
                )
                &&& sweep.has_seen(reports.take(sweep.tried as int))
            },
            Clusterer::Done(clustering) => clustering@ == clustered(points, k, measure, score),
        }
    }

    /// Begins to cluster some points into `k` groups, or into as many as the sweep
    /// likes best.
    pub fn start(points: usize, k: Option<usize>) -> (r: Clusterer)
        ensures
            r.well_formed(),
            forall|measure: Measure, score: Scoring| #[trigger]
                r.under_way(
                    points as nat,
                    wished(k),
                    measure,
                    score,
                    Seq::empty(),
                ),
    {
        match grouping(points, k) {
            Grouping::Empty => {
                let assignments: Vec<usize> = Vec::new();
                assert(ints(assignments@) =~= Seq::<int>::empty());
                Clusterer::Done(Clustering { assignments, k: 0 })
            },
            Grouping::Fixed(groups) => {
                proof {
                    if k is None {
                        assert forall|measure: Measure, score: Scoring| #[trigger]
                            reports_of(points as nat, measure, score).len() == 0 by {}
                        assert forall|measure: Measure, score: Scoring| #[trigger]
                            clustered(points as nat, None, measure, score) == run_of(
                                points as nat,
                                points as nat,
                                measure,
                            ) by {
                            assert(reports_of(points as nat, measure, score).len() == 0);
                        }
                    }
                }
                Clusterer::Measuring { lloyd: Lloyd::new(points, groups), sweep: None }
            },
            Grouping::Sweep => {
                let sweep = Sweep::new(points);
                proof {
                    assert forall|measure: Measure, score: Scoring| #[trigger]
                        reports_of(points as nat, measure, score).take(0) == Seq::<
                            (Double, ClusteringView),
                        >::empty() by {
                        assert(reports_of(points as nat, measure, score).take(0) =~= Seq::<
                            (Double, ClusteringView),
                        >::empty());
                    }
                }
                match sweep.next_k() {
                    Some(groups) => Clusterer::Measuring {
                        lloyd: Lloyd::new(points, groups),
                        sweep: Some(sweep),
                    },
                    None => {
                        assert(false);
                        Clusterer::Measuring { lloyd: Lloyd::new(points, 1), sweep: None }
                    },
                }
            },
        }
    }

    /// Takes in the distances of the points from the centroids.
    pub fn take_distances(self, distances: &Vec<Vec<Single>>) -> (r: Clusterer)
        requires
            self.well_formed(),
            match self {
                Clusterer::Measuring { lloyd, .. } => distances.len() == lloyd.assignments.len()
                    && forall|i: int|
                    0 <= i < distances.len() ==> (#[trigger] distances[i]).len() == lloyd.k,
                _ => false,
            },
        ensures
            r.well_formed(),
            forall|
                points: nat,
                k: Option<nat>,
                measure: Measure,
                score: Scoring,
                past: Seq<Seq<int>>,
            | #[trigger]
                self.under_way(points, k, measure, score, past) && measured(distances@) == measure(
                    self->lloyd.k as nat,
                    past,
                ) ==> r.under_way(
                    points,
                    k,
                    measure,
                    score,
                    past.push(nearest_each(measured(distances@))),
                ),
    {
        let ghost now = nearest_each(measured(distances@));
        match self {
            Clusterer::Measuring { lloyd, sweep } => {
                let ghost first = lloyd;
                let mut lloyd = lloyd;
                let next = lloyd.step(distances);
                let ghost reached = lloyd;
                let r = match next {
                    Step::Recentre => Clusterer::Measuring { lloyd, sweep },
                    Step::Done => {
                        let clustering = lloyd.clustering();
                        match sweep {
                            Some(sweep) => Clusterer::Scoring { clustering, sweep },
                            None => Clusterer::Done(clustering),
                        }
                    },
                };
                proof {
                    assert forall|
                        points: nat,
                        k: Option<nat>,
                        measure: Measure,
                        score: Scoring,
                        past: Seq<Seq<int>>,
                    | #[trigger]
                        self.under_way(points, k, measure, score, past) && measured(distances@)
                            == measure(self->lloyd.k as nat, past) implies r.under_way(
                        points,
                        k,
                        measure,
                        score,
                        past.push(now),
                    ) by {
                        assert(self->lloyd == first);
                        assert(first.has_run(measure, past));
                        assert(ints(reached.assignments@).len() == reached.assignments@.len());
                        if next == Step::Done {
                            assert(grouped(ints(reached.assignments@), first.k as nat) == run_of(
                                points,
                                first.k as nat,
                                measure,
                            ));
                        } else {
                            assert(reached.has_run(measure, past.push(now)));
                        }
                    }
                }
                r
            },
            other => other,
        }
    }

    /// Takes in how well the candidate's clustering separates the points.
    pub fn take_score(self, score: Double) -> (r: Clusterer)
        requires
            self.well_formed(),
            self is Scoring,
        ensures
            r.well_formed(),
            forall|
                points: nat,
                k: Option<nat>,
                measure: Measure,
                scoring: Scoring,
                past: Seq<Seq<int>>,
            | #[trigger]
                self.under_way(points, k, measure, scoring, past) && score == scoring(
                    self->clustering@,
                ) ==> r.under_way(points, k, measure, scoring, Seq::empty()),
    {
        match self {
            Clusterer::Scoring { clustering, sweep } => {
                let ghost shown = clustering@;
                let ghost before = sweep.tried as int;
                let points: usize = sweep.points;
                let mut sweep = sweep;
                sweep.report(score, clustering);
                proof {
                    assert forall|
                        n: nat,
                        k: Option<nat>,
                        measure: Measure,
                        scoring: Scoring,
                        past: Seq<Seq<int>>,
                    | #[trigger]
                        self.under_way(n, k, measure, scoring, past) && score == scoring(
                            shown,
                        ) implies sweep.has_seen(
                        reports_of(n, measure, scoring).take(before + 1),
                    ) by {
                        let reports = reports_of(n, measure, scoring);
                        assert(reports[before] == (score, shown));
                        assert(reports.take(before).push((score, shown)) =~= reports.take(
                            before + 1,
                        ));
                    }
                }
                match sweep.next_k() {
                    Some(groups) => Clusterer::Measuring {
                        lloyd: Lloyd::new(points, groups),
                        sweep: Some(sweep),
                    },
                    None => {
                        proof {
                            assert forall|
                                n: nat,
                                k: Option<nat>,
                                measure: Measure,
                                scoring: Scoring,
                                past: Seq<Seq<int>>,
                            | #[trigger]
                                self.under_way(n, k, measure, scoring, past) && score == scoring(
                                    shown,
                                ) implies match sweep.best {
                                Some(best) => best.1@ == clustered(n, k, measure, scoring),
                                None => false,
                            } by {
                                let reports = reports_of(n, measure, scoring);
                                assert(reports.take(before + 1) =~= reports);
                                the_sweep_clusters_the_points(&sweep, measure, scoring);
                            }
                        }
                        match sweep.winner() {
                            Some(best) => Clusterer::Done(best),
                            None => {
                                assert(false);
                                Clusterer::Done(Clustering { assignments: Vec::new(), k: 0 })
                            },
                        }
                    },
                }
            },
            other => other,
        }
    }
}

/// A member of a cluster and its distance from the centre, ordered by the
/// distance; ties break on the index so the choice is reproducible.
#[derive(Debug, Clone, Copy, PartialEq, Eq, Structural)]
pub struct Central {
    pub distance: Single,
    pub point: usize,
}

impl Ordered for Central {
    open spec fn le(a: Central, b: Central) -> bool {
        a.distance.total_rank() < b.distance.total_rank() || (a.distance.total_rank()
            == b.distance.total_rank() && a.point <= b.point)
    }

    proof fn lemma_total() {
        assert forall|a: Central, b: Central| #[trigger]
            Central::le(a, b) && #[trigger] Central::le(b, a) implies a == b by {
            assert(a.distance.bits == b.distance.bits);
        }
    }

    fn precedes(&self, other: &Central) -> (r: bool) {
        if !self.distance.total_le(other.distance) {
            false
        } else if !other.distance.total_le(self.distance) {
            true
        } else {
            self.point <= other.point
        }
    }
}

/// The members of a cluster with their distances from its centre.
pub open spec fn central(members: Seq<int>, distances: Seq<Single>) -> Seq<Central> {
    members.map_values(|p: int| Central { distance: distances[p], point: p as usize })
}

/// The members nearest the centre, nearest first, at most so many.
pub open spec fn most_central(members: Seq<int>, distances: Seq<Single>, count: nat) -> Seq<usize> {
    let all = sorted(central(members, distances)).map_values(|c: Central| c.point);
    if all.len() <= count {
        all
    } else {
        all.take(count as int)
    }
}

/// The members nearest their cluster's centre, per cluster: the documents a
/// label should be written from. An empty cluster has none. `distances` holds
/// each point's distance from the centre of its own cluster.
pub fn representatives(clustering: &Clustering, distances: &Vec<Single>, per_cluster: usize) -> (r:
    HashMap<usize, Vec<usize>>)
    requires
        clustering.well_formed(),
        distances.len() == clustering.assignments.len(),
    ensures
        forall|c: usize| #[trigger]
            r@.contains_key(c) <==> c < clustering.k && members_of(
                clustering.assignments@,
                c as int,
            ).len() > 0,
        forall|c: usize| #[trigger]
            r@.contains_key(c) ==> r@[c]@ == most_central(
                members_of(clustering.assignments@, c as int),
                distances@,
                per_cluster as nat,
            ),
        forall|c: usize| #[trigger]
            r@.contains_key(c) ==> nearest_chosen(
                members_of(clustering.assignments@, c as int),
                distances@,
                r@[c]@,
            ) && (r@[c].len() == per_cluster || r@[c].len() == members_of(
                clustering.assignments@,
                c as int,
            ).len()) && r@[c].len() <= per_cluster,
{
    let members = clustering.members();
    let mut chosen: HashMap<usize, Vec<usize>> = HashMap::new();
    let ghost assigned = clustering.assignments@;
    let mut c: usize = 0;
    while c < clustering.k
        invariant
            clustering.well_formed(),
            assigned == clustering.assignments@,
            distances.len() == clustering.assignments.len(),
            c <= clustering.k == members.len(),
            forall|d: int|
                0 <= d < clustering.k ==> ints((#[trigger] members[d])@) == members_of(assigned, d),
            forall|d: usize| #[trigger]
                chosen@.contains_key(d) <==> d < c && members_of(assigned, d as int).len() > 0,
            forall|d: usize| #[trigger]
                chosen@.contains_key(d) ==> chosen@[d]@ == most_central(
                    members_of(assigned, d as int),
                    distances@,
                    per_cluster as nat,
                ),
        decreases clustering.k - c,
    {
        let list = &members[c];
        let ghost points = members_of(assigned, c as int);
        assert(ints(list@) == points);
        if list.len() > 0 {
            proof {
                lemma_members(assigned, c as int);
            }
            let mut ranked: Vec<Central> = Vec::new();
            let ghost all = central(points, distances@);
            let mut i: usize = 0;
            while i < list.len()
                invariant
                    i <= list.len(),
                    ints(list@) == points,
                    all == central(points, distances@),
                    distances.len() == assigned.len(),
                    forall|j: int|
                        0 <= j < points.len() ==> 0 <= #[trigger] points[j] < assigned.len(),
                    ranked@ == all.take(i as int),
                decreases list.len() - i,
            {
                assert(points[i as int] == ints(list@)[i as int]);
                ranked.push(Central { distance: distances[list[i]], point: list[i] });
                i += 1;
            }
            assert(all.take(i as int) == all);
            let in_order = sort(&ranked);
            proof {
                sorting_keeps_the_values(all);
            }
            let ghost full = sorted(all).map_values(|c: Central| c.point);
            let count: usize = if in_order.len() <= per_cluster {
                in_order.len()
            } else {
                per_cluster
            };
            let mut top: Vec<usize> = Vec::new();
            let mut j: usize = 0;
            while j < count
                invariant
                    j <= count <= in_order.len(),
                    in_order@ == sorted(all),
                    full == sorted(all).map_values(|c: Central| c.point),
                    top@ == full.take(j as int),
                decreases count - j,
            {
                top.push(in_order[j].point);
                j += 1;
            }
            assert(top@ == most_central(points, distances@, per_cluster as nat)) by {
                assert(full.take(full.len() as int) == full);
            }
            chosen.insert(c, top);
        }
        c += 1;
    }
    proof {
        assert forall|d: usize| #[trigger] chosen@.contains_key(d) implies nearest_chosen(
            members_of(assigned, d as int),
            distances@,
            chosen@[d]@,
        ) && (chosen@[d].len() == per_cluster || chosen@[d].len() == members_of(
            assigned,
            d as int,
        ).len()) && chosen@[d].len() <= per_cluster by {
            lemma_members(assigned, d as int);
            lemma_members_ascend(assigned, d as int);
            representatives_are_the_nearest(
                members_of(assigned, d as int),
                distances@,
                per_cluster as nat,
            );
        }
    }
    chosen
}

/// Whether the chosen ones are members, each once, in ascending distance from the
/// centre, the lower index first where two are as far, and no member that is left
/// out is nearer than one that is chosen.
pub open spec fn nearest_chosen(members: Seq<int>, distances: Seq<Single>, chosen: Seq<usize>) -> bool {
    &&& forall|i: int| 0 <= i < chosen.len() ==> members.contains(#[trigger] chosen[i] as int)
    &&& forall|i: int, j: int|
        0 <= i < j < chosen.len() ==> {
            let (p, q) = (#[trigger] chosen[i], #[trigger] chosen[j]);
            &&& p != q
            &&& distances[p as int].total_rank() <= distances[q as int].total_rank()
            &&& distances[p as int].total_rank() == distances[q as int].total_rank() ==> p < q
        }
    &&& forall|i: int, q: int|
        0 <= i < chosen.len() && #[trigger] members.contains(q) && !chosen.contains(q as usize)
            ==> distances[(#[trigger] chosen[i]) as int].total_rank() <= distances[q].total_rank()
}

proof fn lemma_members_ascend(assignments: Seq<usize>, cluster: int)
    ensures
        forall|a: int, b: int|
            0 <= a < b < members_of(assignments, cluster).len() ==> members_of(
                assignments,
                cluster,
            )[a] < members_of(assignments, cluster)[b],
    decreases assignments.len(),
{
    if assignments.len() > 0 {
        let short = assignments.drop_last();
        lemma_members_ascend(short, cluster);
        lemma_members(short, cluster);
        let before = members_of(short, cluster);
        let now = members_of(assignments, cluster);
        assert forall|a: int, b: int| 0 <= a < b < now.len() implies now[a] < now[b] by {
            if b < before.len() {
                assert(before[a] < before[b]);
            } else {
                assert(now[a] == before[a]);
                assert(0 <= before[a] < short.len());
            }
        }
    }
}

/// The representatives of a cluster are its members nearest the centre: in
/// ascending distance, none that is left out nearer than one that is chosen, and as
/// many as were asked for, as far as the cluster has so many.
pub proof fn representatives_are_the_nearest(
    members: Seq<int>,
    distances: Seq<Single>,
    count: nat,
)
    requires
        distances.len() <= usize::MAX,
        members.no_duplicates(),
        forall|j: int| 0 <= j < members.len() ==> 0 <= #[trigger] members[j] < distances.len(),
    ensures
        nearest_chosen(members, distances, most_central(members, distances, count)),
        most_central(members, distances, count).len() <= count,
        most_central(members, distances, count).len() == count || most_central(
            members,
            distances,
            count,
        ).len() == members.len(),
{
    let all = central(members, distances);
    let ranked = sorted(all);
    let full = ranked.map_values(|c: Central| c.point);
    let chosen = most_central(members, distances, count);
    sorting_keeps_the_values(all);
    assert forall|i: int| 0 <= i < ranked.len() implies members.contains(
        (#[trigger] ranked[i]).point as int,
    ) && ranked[i].distance == distances[ranked[i].point as int] by {
        assert(sorted(all).contains(ranked[i]));
        assert(all.contains(ranked[i]));
        let j = choose|j: int| 0 <= j < all.len() && all[j] == ranked[i];
        assert(0 <= members[j] < distances.len());
        assert(members[j] == ranked[i].point);
    }
    assert(all.no_duplicates()) by {
        assert forall|i: int, j: int| 0 <= i < all.len() && 0 <= j < all.len() && i != j implies all[i]
            != all[j] by {
            assert(members[i] != members[j]);
            assert(0 <= members[i] < distances.len() && 0 <= members[j] < distances.len());
        }
    }
    assert(ranked.no_duplicates()) by {
        broadcast use vstd::seq_lib::group_to_multiset_ensures;

        all.lemma_multiset_has_no_duplicates();
        ranked.lemma_multiset_has_no_duplicates_conv();
    }
    assert forall|i: int, j: int| 0 <= i < j < ranked.len() implies #[trigger] ranked[i].point
        != #[trigger] ranked[j].point && Central::le(ranked[i], ranked[j]) by {
        assert(order::<Central>()(ranked[i], ranked[j]));
        assert(ranked[i] != ranked[j]);
    }
    assert forall|i: int| 0 <= i < chosen.len() implies #[trigger] chosen[i] == ranked[i].point by {}
    assert forall|i: int, q: int|
        0 <= i < chosen.len() && #[trigger] members.contains(q) && !chosen.contains(
            q as usize,
        ) implies distances[(#[trigger] chosen[i]) as int].total_rank()
        <= distances[q].total_rank() by {
        let j = choose|j: int| 0 <= j < members.len() && members[j] == q;
        assert(0 <= members[j] < distances.len());
        assert(all[j].point == q);
        assert(all.contains(all[j]));
        assert(ranked.contains(all[j]));
        let k = choose|k: int| 0 <= k < ranked.len() && ranked[k] == all[j];
        if k < chosen.len() {
            assert(chosen[k] == q as usize);
        }
        assert(ranked[i].point != ranked[k].point);
    }
}

/// A tiny linear congruential generator. Not for anything that needs real
/// randomness, only to make k-means++ seeding spread out and repeat.
#[derive(Debug)]
pub struct Lcg(pub u64);

/// The next state of the generator.
pub open spec fn lcg_next(state: u64) -> u64 {
    state.wrapping_mul(6364136223846793005).wrapping_add(1442695040888963407)
}

impl Lcg {
    pub fn new(seed: u64) -> (r: Lcg)
        ensures
            r.0 == seed | 1,
    {
        Lcg(seed | 1)
    }

    /// The upper bits of the next state.
    pub fn next(&mut self) -> (r: u64)
        ensures
            final(self).0 == lcg_next(old(self).0),
            final(self).0 == (old(self).0 * 6364136223846793005 + 1442695040888963407)
                % 0x1_0000_0000_0000_0000,
            r == lcg_next(old(self).0) >> 33,
            r == final(self).0 >> 33,
            r < 0x8000_0000,
    {
        proof {
            vstd::arithmetic::div_mod::lemma_add_mod_noop(
                self.0 * 6364136223846793005,
                1442695040888963407,
                0x1_0000_0000_0000_0000,
            );
            vstd::arithmetic::div_mod::lemma_add_mod_noop(
                (self.0 * 6364136223846793005) % 0x1_0000_0000_0000_0000,
                1442695040888963407,
                0x1_0000_0000_0000_0000,
            );
            vstd::arithmetic::div_mod::lemma_mod_twice(
                self.0 * 6364136223846793005,
                0x1_0000_0000_0000_0000,
            );
        }
        self.0 = self.0.wrapping_mul(6364136223846793005).wrapping_add(1442695040888963407);
        let state: u64 = self.0;
        assert(state >> 33 < 0x8000_0000) by (bit_vector);
        state >> 33
    }

    /// A number below a bound.
    pub fn below(&mut self, bound: usize) -> (r: usize)
        requires
            bound > 0,
        ensures
            final(self).0 == lcg_next(old(self).0),
            r == (lcg_next(old(self).0) >> 33) as int % bound as int,
            final(self).0 == (old(self).0 * 6364136223846793005 + 1442695040888963407)
                % 0x1_0000_0000_0000_0000,
            r == (final(self).0 >> 33) as int % bound as int,
            r < bound,
    {
        (self.next() % bound as u64) as usize
    }
}

/// Where the algorithm ends, every point lies with the centroid that was nearest
/// when the distances were last measured; and it ends only once no point moves any
/// more, or at the cap.
pub proof fn a_clustering_settles_with_the_nearest(
    points: nat,
    k: nat,
    measure: Measure,
    past: Seq<Seq<int>>,
) -> (rounds: Seq<Seq<int>>)
    requires
        past.len() < MAX_ITERATIONS,
    ensures
        past.len() <= rounds.len() < MAX_ITERATIONS,
        rounds.take(past.len() as int) == past,
        ({
            let end = settles(points, k, measure, past);
            let distances = measure(k, rounds);
            &&& end.len() == distances.len()
            &&& forall|i: int, c: int|
                0 <= i < end.len() && 0 <= c < distances[i].len() && (forall|d: int|
                    0 <= d < distances[i].len() ==> (#[trigger] distances[i][d]).below(
                        Single { bits: INFINITY_SINGLE },
                    )) ==> distances[i][#[trigger] end[i]].at_most(#[trigger] distances[i][c])
            &&& end == standing(points, rounds) || rounds.len() + 1 == MAX_ITERATIONS
        }),
    decreases MAX_ITERATIONS - past.len(),
{
    let now = nearest_each(measure(k, past));
    let rounds = if now == standing(points, past) || past.len() + 1 >= MAX_ITERATIONS {
        assert(past.take(past.len() as int) =~= past);
        past
    } else {
        let rounds = a_clustering_settles_with_the_nearest(points, k, measure, past.push(now));
        assert(rounds.take(past.len() as int) =~= rounds.take(past.len() + 1int).take(
            past.len() as int,
        ));
        assert(past.push(now).take(past.len() as int) =~= past);
        rounds
    };
    let end = settles(points, k, measure, past);
    let distances = measure(k, rounds);
    assert forall|i: int, c: int|
        0 <= i < end.len() && 0 <= c < distances[i].len() && (forall|d: int|
            0 <= d < distances[i].len() ==> (#[trigger] distances[i][d]).below(
                Single { bits: INFINITY_SINGLE },
            )) implies distances[i][#[trigger] end[i]].at_most(#[trigger] distances[i][c]) by {
        if end == now {
            the_nearest_centroid_is_nearest(distances[i], c);
        }
    }
    rounds
}

/// There are as many groups as were asked for, as long as each can have a point,
/// and at least one.
pub proof fn groups_are_as_many_as_asked_for(k: int, points: int)
    requires
        points > 0,
    ensures
        1 <= clamped_k(k, points) <= points,
        1 <= k <= points ==> clamped_k(k, points) == k,
        k < 1 ==> clamped_k(k, points) == 1,
        k > points ==> clamped_k(k, points) == points,
{
}

/// The sweep tries its numbers one after another, and none that is not below the
/// number of points.
pub proof fn the_sweep_tries_its_numbers(tried: int, points: int)
    ensures
        candidate(tried, points) matches Some(k) ==> 0 <= tried < 5 && k == AUTO_K[tried] && k
            < points,
        0 <= tried < 5 && AUTO_K[tried] < points ==> candidate(tried, points) is Some,
{
}

/// No member that is left out is nearer the centre than one that is chosen, and of
/// two that are chosen the nearer comes first.
pub proof fn no_nearer_member_is_left_out(
    members: Seq<int>,
    distances: Seq<Single>,
    count: nat,
    i: int,
    j: int,
    q: int,
)
    requires
        distances.len() <= usize::MAX,
        members.no_duplicates(),
        forall|m: int| 0 <= m < members.len() ==> 0 <= #[trigger] members[m] < distances.len(),
    ensures
        ({
            let chosen = most_central(members, distances, count);
            &&& 0 <= i < chosen.len() ==> members.contains(chosen[i] as int)
            &&& 0 <= i < j < chosen.len() ==> chosen[i] != chosen[j]
                && !distances[chosen[j] as int].below(distances[chosen[i] as int])
            &&& 0 <= i < chosen.len() && members.contains(q) && !chosen.contains(q as usize)
                ==> !distances[q].below(distances[chosen[i] as int])
            &&& chosen.len() == if members.len() <= count {
                members.len()
            } else {
                count
            }
        }),
{
    representatives_are_the_nearest(members, distances, count);
    sorting_keeps_the_values(central(members, distances));
    assert(sorted(central(members, distances)).len() == members.len());
}

}
