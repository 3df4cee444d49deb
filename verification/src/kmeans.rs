//! The rounds of k-means: assignment to the nearest centroid and new
//! centroids from cluster means.

use vstd::prelude::*;
use crate::colour::{
    channel_sum, lemma_channel_mean_bounds, lemma_channel_sum_bounds, mean_color, Color,
};
use crate::utils::{closest_index, nearest_index};

verus! {

/// The colours assigned to centroid `j`: those of `colors` whose nearest
/// centroid is `j`, in the order in which `colors` holds them.
pub open spec fn cluster_members(colors: Seq<Color>, centroids: Seq<Color>, j: int) -> Seq<Color>
    decreases colors.len(),
{
    if colors.len() == 0 {
        Seq::empty()
    } else {
        let before = cluster_members(colors.drop_last(), centroids, j);
        if nearest_index(centroids, colors.last()) == j {
            before.push(colors.last())
        } else {
            before
        }
    }
}

/// The new centroid of cluster `j`: the mean of its members, or black when
/// it has none.
pub open spec fn recentred(colors: Seq<Color>, centroids: Seq<Color>, j: int) -> Color {
    let members = cluster_members(colors, centroids, j);
    if members.len() == 0 {
        Color { r: 0, g: 0, b: 0 }
    } else {
        mean_color(members)
    }
}

/// One round of k-means with `k` clusters: every colour goes to its nearest
/// centroid, then each of the `k` clusters gets its new centroid.
pub open spec fn kmeans_step(colors: Seq<Color>, centroids: Seq<Color>, k: int) -> Seq<Color> {
    Seq::new(k as nat, |j: int| recentred(colors, centroids, j))
}

/// K-means run for at most `rounds` rounds from `centroids`. The result is
/// the centroid list reached and whether a round left it unchanged, which
/// ends the run.
pub open spec fn kmeans_run(colors: Seq<Color>, centroids: Seq<Color>, k: int, rounds: nat) -> (
    Seq<Color>,
    bool,
)
    decreases rounds,
{
    if rounds == 0 {
        (centroids, false)
    } else {
        let next = kmeans_step(colors, centroids, k);
        if next == centroids {
            (centroids, true)
        } else {
            kmeans_run(colors, next, k, (rounds - 1) as nat)
        }
    }
}

/// A cluster never has more members than there are colours.
pub proof fn lemma_cluster_members_len(colors: Seq<Color>, centroids: Seq<Color>, j: int)
    ensures
        cluster_members(colors, centroids, j).len() <= colors.len(),
    decreases colors.len(),
{
    if colors.len() > 0 {
        lemma_cluster_members_len(colors.drop_last(), centroids, j);
    }
}

/// The length of a run's result: after at least one round there are `k`
/// centroids; with no round the start is returned.
pub proof fn lemma_kmeans_run_len(colors: Seq<Color>, centroids: Seq<Color>, k: int, rounds: nat)
    requires
        k >= 0,
    ensures
        rounds == 0 ==> kmeans_run(colors, centroids, k, rounds).0 == centroids,
        rounds > 0 || centroids.len() == k ==> kmeans_run(colors, centroids, k, rounds).0.len()
            == k,
        kmeans_run(colors, centroids, k, rounds).1 ==> kmeans_step(
            colors,
            kmeans_run(colors, centroids, k, rounds).0,
            k,
        ) == kmeans_run(colors, centroids, k, rounds).0,
    decreases rounds,
{
    if rounds > 0 {
        let next = kmeans_step(colors, centroids, k);
        if next != centroids {
            lemma_kmeans_run_len(colors, next, k, (rounds - 1) as nat);
        }
    }
}

/// The running totals of one cluster while colours are assigned.
pub struct ClusterSum {
    pub r: u128,
    pub g: u128,
    pub b: u128,
    pub count: u128,
}

impl ClusterSum {
    /// The totals are those of `members`.
    pub open spec fn totals(self, members: Seq<Color>) -> bool {
        &&& self.r as int == channel_sum(members, 0)
        &&& self.g as int == channel_sum(members, 1)
        &&& self.b as int == channel_sum(members, 2)
        &&& self.count as int == members.len()
    }
}

/// Runs one round of k-means with `k` clusters.
pub(crate) fn step(colors: &Vec<Color>, centroids: &Vec<Color>, k: usize) -> (next: Vec<Color>)
    requires
        0 < centroids@.len() <= k,
    ensures
        next@ == kmeans_step(colors@, centroids@, k as int),
{
    let mut sums: Vec<ClusterSum> = Vec::new();
    let mut j: usize = 0;
    while j < k
        invariant
            j <= k,
            sums@.len() == j,
            forall|m: int| 0 <= m < j ==> (#[trigger] sums@[m]).totals(Seq::<Color>::empty()),
        decreases k - j,
    {
        sums.push(ClusterSum { r: 0, g: 0, b: 0, count: 0 });
        j = j + 1;
    }
    let mut i: usize = 0;
    while i < colors.len()
        invariant
            i <= colors.len(),
            0 < centroids@.len() <= k,
            sums@.len() == k,
            forall|m: int|
                0 <= m < k ==> (#[trigger] sums@[m]).totals(
                    cluster_members(colors@.take(i as int), centroids@, m),
                ),
        decreases colors.len() - i,
    {
        let c = colors[i];
        let near = closest_index(&c, centroids);
        let ghost before = sums@;
        let ghost next = colors@.take(i + 1);
        proof {
            assert(next.drop_last() =~= colors@.take(i as int));
            assert(next.last() == c);
            let members = cluster_members(next, centroids@, near as int);
            let earlier = cluster_members(colors@.take(i as int), centroids@, near as int);
            assert(members == earlier.push(c));
            assert(members.drop_last() =~= earlier);
            lemma_cluster_members_len(next, centroids@, near as int);
            lemma_channel_sum_bounds(members, 0);
            lemma_channel_sum_bounds(members, 1);
            lemma_channel_sum_bounds(members, 2);
            assert(before[near as int].totals(
                cluster_members(colors@.take(i as int), centroids@, near as int),
            ));
        }
        let old_sum = &sums[near];
        let new_sum = ClusterSum {
            r: old_sum.r + c.r as u128,
            g: old_sum.g + c.g as u128,
            b: old_sum.b + c.b as u128,
            count: old_sum.count + 1,
        };
        sums.set(near, new_sum);
        proof {
            assert forall|m: int| 0 <= m < k implies (#[trigger] sums@[m]).totals(
                cluster_members(next, centroids@, m),
            ) by {
                if m != near {
                    assert(sums@[m] == before[m]);
                } else {
                    let members = cluster_members(next, centroids@, near as int);
                    let earlier = cluster_members(colors@.take(i as int), centroids@, near as int);
                    assert(members.drop_last() =~= earlier);
                }
            }
        }
        i = i + 1;
    }
    proof {
        assert(colors@.take(colors@.len() as int) =~= colors@);
    }
    let mut next: Vec<Color> = Vec::new();
    j = 0;
    while j < k
        invariant
            j <= k,
            sums@.len() == k,
            forall|m: int|
                0 <= m < k ==> (#[trigger] sums@[m]).totals(
                    cluster_members(colors@, centroids@, m),
                ),
            next@.len() == j,
            forall|m: int| 0 <= m < j ==> #[trigger] next@[m] == recentred(colors@, centroids@, m),
        decreases k - j,
    {
        let sum = &sums[j];
        proof {
            assert(sums@[j as int].totals(cluster_members(colors@, centroids@, j as int)));
        }
        if sum.count == 0 {
            next.push(Color { r: 0, g: 0, b: 0 });
        } else {
            proof {
                let members = cluster_members(colors@, centroids@, j as int);
                lemma_channel_mean_bounds(members, 0);
                lemma_channel_mean_bounds(members, 1);
                lemma_channel_mean_bounds(members, 2);
            }
            next.push(
                Color {
                    r: (sum.r / sum.count) as u8,
                    g: (sum.g / sum.count) as u8,
                    b: (sum.b / sum.count) as u8,
                },
            );
        }
        j = j + 1;
    }
    proof {
        assert(next@ =~= kmeans_step(colors@, centroids@, k as int));
    }
    next
}

/// Tells whether two centroid lists are the same, colour by colour.
pub fn same_colors(a: &Vec<Color>, b: &Vec<Color>) -> (same: bool)
    ensures
        same == (a@ == b@),
{
    if a.len() != b.len() {
        return false;
    }
    let mut i: usize = 0;
    while i < a.len()
        invariant
            i <= a@.len(),
            a@.len() == b@.len(),
            forall|m: int| 0 <= m < i ==> a@[m] == b@[m],
        decreases a.len() - i,
    {
        if a[i] != b[i] {
            return false;
        }
        i = i + 1;
    }
    proof {
        assert(a@ =~= b@);
    }
    true
}

/// Assigns every colour to its nearest centroid.
pub(crate) fn assign(colors: &Vec<Color>, centroids: &Vec<Color>) -> (clusters: Vec<usize>)
    requires
        centroids@.len() > 0,
    ensures
        clusters@.len() == colors@.len(),
        forall|i: int|
            0 <= i < colors@.len() ==> #[trigger] clusters@[i] as int == nearest_index(
                centroids@,
                colors@[i],
            ),
{
    let mut clusters: Vec<usize> = Vec::new();
    let mut i: usize = 0;
    while i < colors.len()
        invariant
            i <= colors.len(),
            centroids@.len() > 0,
            clusters@.len() == i,
            forall|m: int|
                0 <= m < i ==> #[trigger] clusters@[m] as int == nearest_index(
                    centroids@,
                    colors@[m],
                ),
        decreases colors.len() - i,
    {
        clusters.push(closest_index(&colors[i], centroids));
        i = i + 1;
    }
    clusters
}

} // verus!
