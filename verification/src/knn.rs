//! The search of the index.
//!
//! The records lie in clusters, one behind the other. Each cluster has a centroid on the
//! lower level, and 256 of those in a row belong to one centroid of the upper level. A search
//! visits the clusters whose centroids are nearest and scores the query by the nearest
//! records that it meets there.
//!
//! Distances and scores are the bit patterns of non-negative real numbers, which are ordered
//! as the numbers are. How a distance is computed and how neighbours are weighed is given by
//! the caller.
use vstd::prelude::*;
use vstd::seq_lib::*;
use crate::kmeans;
use crate::records;
use crate::records::{Dataset, IvfData};
use crate::top_k;
use crate::top_k::{new_top_k, update_top_k_packed, Neighbor, FAR, K};

verus! {

/// The centroids of the upper level.
pub const N_L1: usize = 256;

/// The centroids of the lower level that belong to one of the upper level.
pub const N_L2_PER_L1: usize = 256;

/// The clusters.
pub const N_TOTAL_L2: usize = 65536;

/// A record nearer than this (0.05) is the same transaction, and its label decides.
pub const EXACT: u32 = 0x3d4c_cccd;

/// A query whose nearest record is farther than this (1.5) is searched on.
pub const REMOTE: u32 = 0x3fc0_0000;

/// A score above this (0.38) and below `CONFIDENT_HIGH` makes the search go on.
pub const CONFIDENT_LOW: u32 = 0x3ec2_8f5c;

/// A score below this (0.50) and above `CONFIDENT_LOW` makes the search go on.
pub const CONFIDENT_HIGH: u32 = 0x3f00_0000;

/// A score below this (0.44) is approved.
pub const APPROVAL_THRESHOLD: u32 = 0x3ee1_47ae;

/// The score of what is certainly fraud (1.0).
pub const CERTAIN: u32 = 0x3f80_0000;

/// How much of the index is visited: so many centroids of the upper level, so many clusters
/// at first, and so many clusters in all if the search goes on.
#[derive(Clone, Copy)]
pub struct Probing {
    pub l1: usize,
    pub l2: usize,
    pub extended: usize,
}

impl Probing {
    /// The widths fit the index.
    pub open spec fn wf(&self) -> bool {
        &&& self.l1 < N_L1
        &&& self.l2 <= self.extended < self.l1 * N_L2_PER_L1
    }

    /// Whether the widths fit the index.
    pub fn is_wf(&self) -> (r: bool)
        ensures
            r == self.wf(),
    {
        self.l1 < N_L1 && self.l2 <= self.extended && self.extended < self.l1 * N_L2_PER_L1
    }

    /// The widths of the three steps of a search: 8 centroids of the upper level, of the 2048
    /// clusters below them 32, and the records of those only.
    pub fn standard() -> (r: Probing)
        ensures
            r.wf(),
            r == (Probing { l1: 8, l2: 32, extended: 32 }),
    {
        Probing { l1: 8, l2: 32, extended: 32 }
    }

    /// Wider, and adaptive: 16 centroids of the upper level, 256 clusters, and 512 if the
    /// search goes on.
    pub fn adaptive() -> (r: Probing)
        ensures
            r.wf(),
            r == (Probing { l1: 16, l2: 256, extended: 512 }),
    {
        Probing { l1: 16, l2: 256, extended: 512 }
    }
}

/// What is searched for, and how its distance to a vector is taken.
pub struct Query<'q, D> {
    pub vector: [u32; 16],
    pub distance: &'q D,
}

/// Whether the distance of the query to every vector can be taken, and is the same whenever it
/// is taken.
pub open spec fn is_measure<D: Fn([u32; 16], [u32; 16]) -> u32>(query: Query<'_, D>) -> bool {
    kmeans::is_distance(*query.distance)
}

/// Whether the distance of the query to a vector comes out as `d`.
pub open spec fn measures<D: Fn([u32; 16], [u32; 16]) -> u32>(
    query: Query<'_, D>,
    s: Seq<u32>,
    d: u32,
) -> bool {
    exists|v: [u32; 16]|
        v@ == s && #[trigger] call_ensures(*query.distance, (query.vector, v), d)
}

/// The distance of the query to a vector.
pub open spec fn measured<D: Fn([u32; 16], [u32; 16]) -> u32>(
    query: Query<'_, D>,
    s: Seq<u32>,
) -> u32 {
    choose|d: u32| measures(query, s, d)
}

/// What is computed to weigh neighbours; all numbers are bit patterns.
#[derive(Clone, Copy, PartialEq, Eq, Structural, Debug)]
pub enum Weighing {
    /// The weight of a neighbour at a distance.
    Weight(u32),
    /// The sum of two weights.
    Sum(u32, u32),
    /// The share of the first weight in the second.
    Share(u32, u32),
}

/// Whether everything that is asked for can be computed, and is the same whenever it is.
pub open spec fn is_kernel<S: Fn(Weighing) -> u32>(kernel: S) -> bool {
    &&& forall|w: Weighing| #[trigger] call_requires(kernel, (w,))
    &&& forall|w: Weighing, r1: u32, r2: u32| #[trigger]
        call_ensures(kernel, (w,), r1) && #[trigger] call_ensures(kernel, (w,), r2) ==> r1 == r2
}

/// What is computed.
pub open spec fn computed<S: Fn(Weighing) -> u32>(kernel: S, w: Weighing) -> u32 {
    choose|r: u32| call_ensures(kernel, (w,), r)
}

/// The weight of the first `n` neighbours together.
pub open spec fn total_weight<S: Fn(Weighing) -> u32>(kernel: S, s: Seq<Neighbor>, n: int) -> u32
    decreases n,
{
    if n <= 0 {
        0
    } else {
        let weight = computed(kernel, Weighing::Weight(s[n - 1].dist));
        computed(kernel, Weighing::Sum(total_weight(kernel, s, n - 1), weight))
    }
}

/// The weight of those of the first `n` neighbours that are fraud.
pub open spec fn fraud_weight<S: Fn(Weighing) -> u32>(kernel: S, s: Seq<Neighbor>, n: int) -> u32
    decreases n,
{
    if n <= 0 {
        0
    } else if s[n - 1].label == 0 {
        fraud_weight(kernel, s, n - 1)
    } else {
        let weight = computed(kernel, Weighing::Weight(s[n - 1].dist));
        computed(kernel, Weighing::Sum(fraud_weight(kernel, s, n - 1), weight))
    }
}

/// Whether the number with these bits is above zero.
pub open spec fn is_positive(bits: u32) -> bool {
    0 < bits <= 0x7f80_0000
}

/// The score of the first `n` neighbours: the share of fraud in their weight, zero if they have
/// none.
pub open spec fn scored<S: Fn(Weighing) -> u32>(kernel: S, s: Seq<Neighbor>, n: int) -> u32 {
    let total = total_weight(kernel, s, n);
    if is_positive(total) {
        computed(kernel, Weighing::Share(fraud_weight(kernel, s, n), total))
    } else {
        0
    }
}

/// Takes the distance of the query to a vector.
pub fn measure<D: Fn([u32; 16], [u32; 16]) -> u32>(query: &Query<'_, D>, v: [u32; 16]) -> (r: u32)
    requires
        is_measure(*query),
    ensures
        r == measured(*query, v@),
{
    let distance = query.distance;
    let d = distance(query.vector, v);
    proof {
        assert(call_ensures(*query.distance, (query.vector, v), d));
        assert(measures(*query, v@, d));
        let chosen = measured(*query, v@);
        assert(measures(*query, v@, chosen));
        let w = choose|w: [u32; 16]|
            w@ == v@ && #[trigger] call_ensures(*query.distance, (query.vector, w), chosen);
        assert forall|i: int| 0 <= i < 16 implies w[i] == v[i] by {
            assert(w@[i] == v@[i]);
        }
        assert(w =~= v);
    }
    d
}

/// The centroids of the upper level with their distances.
pub open spec fn l1_keys<D: Fn([u32; 16], [u32; 16]) -> u32>(
    data: IvfData<'_>,
    query: Query<'_, D>,
) -> Seq<(u32, usize)> {
    Seq::new(
        N_L1 as nat,
        |i: int| (measured(query, data.l1_centroids()[i]), i as usize),
    )
}

/// The centroid of the lower level at place `t` among those that belong to `l1`.
pub open spec fn l2_index(l1: Seq<usize>, t: int) -> int {
    l1[t / N_L2_PER_L1 as int] * N_L2_PER_L1 + t % N_L2_PER_L1 as int
}

/// The centroids of the lower level that belong to `l1`, with their distances.
pub open spec fn l2_keys<D: Fn([u32; 16], [u32; 16]) -> u32>(
    data: IvfData<'_>,
    query: Query<'_, D>,
    l1: Seq<usize>,
) -> Seq<(u32, usize)> {
    Seq::new(
        l1.len() * N_L2_PER_L1 as nat,
        |t: int|
            (measured(query, data.l2_centroids()[l2_index(l1, t)]), l2_index(l1, t) as usize),
    )
}

/// Whether `chosen` are the `n` of `all` with the smallest keys, in whatever order. Where keys
/// are equal it is open which are chosen.
pub open spec fn nearest_of(
    chosen: Seq<(u32, usize)>,
    all: Seq<(u32, usize)>,
    n: int,
) -> bool {
    &&& chosen.len() == n
    &&& exists|rest: Seq<(u32, usize)>|
        #![trigger chosen + rest]
        {
            &&& (chosen + rest).to_multiset() == all.to_multiset()
            &&& forall|i: int, j: int|
                0 <= i < chosen.len() && 0 <= j < rest.len() ==> (#[trigger] chosen[i]).0 <= (
                #[trigger] rest[j]).0
        }
}

/// Whether the first `n` come by their keys, smallest first, and before all others.
pub open spec fn front_ordered(chosen: Seq<(u32, usize)>, n: int) -> bool {
    forall|i: int, j: int|
        0 <= i < n && i <= j < chosen.len() ==> (#[trigger] chosen[i]).0 <= (
        #[trigger] chosen[j]).0
}

/// The second halves of the pairs.
pub open spec fn places(chosen: Seq<(u32, usize)>) -> Seq<usize> {
    chosen.map_values(|e: (u32, usize)| e.1)
}

/// Whether the centroids of the lower level that belong to `l1` are all there.
pub open spec fn has_l2(data: IvfData<'_>, l1: Seq<usize>) -> bool {
    forall|k: int|
        0 <= k < l1.len() ==> (#[trigger] l1[k] + 1) * N_L2_PER_L1 <= data.l2_centroids().len()
}

/// Whether a search may visit the clusters in this order: they are the nearest of those that
/// belong to the nearest centroids of the upper level, and the nearest of them come first.
/// There is no order if centroids are missing.
pub open spec fn is_order<D: Fn([u32; 16], [u32; 16]) -> u32>(
    data: IvfData<'_>,
    query: Query<'_, D>,
    probing: Probing,
    order: Option<Seq<usize>>,
) -> bool {
    if data.l1_centroids().len() < N_L1 {
        order is None
    } else {
        exists|l1: Seq<(u32, usize)>| #[trigger]
            nearest_of(l1, l1_keys(data, query), probing.l1 as int) && is_order_below(
                data,
                query,
                probing,
                places(l1),
                order,
            )
    }
}

/// Whether a search may visit the clusters in this order if it goes through the centroids
/// `l1` of the upper level.
pub open spec fn is_order_below<D: Fn([u32; 16], [u32; 16]) -> u32>(
    data: IvfData<'_>,
    query: Query<'_, D>,
    probing: Probing,
    l1: Seq<usize>,
    order: Option<Seq<usize>>,
) -> bool {
    if !has_l2(data, l1) {
        order is None
    } else {
        exists|l2: Seq<(u32, usize)>| #[trigger]
            nearest_of(l2, l2_keys(data, query, l1), probing.extended as int)
                && front_ordered(l2, probing.l2 as int) && order == Some(places(l2))
    }
}

/// The records at the places from `start` to `end`, as neighbours.
pub open spec fn neighbors_between<D: Fn([u32; 16], [u32; 16]) -> u32>(
    vectors: Seq<Seq<u32>>,
    query: Query<'_, D>,
    start: int,
    end: int,
) -> Seq<Neighbor> {
    Seq::new(
        (end - start) as nat,
        |k: int| top_k::neighbor(measured(query, vectors[start + k]), vectors[start + k][15]),
    )
}

/// Whether a cluster is a range of the records.
pub open spec fn is_range(offsets: Seq<u32>, vectors: Seq<Seq<u32>>, cluster: int) -> bool {
    &&& 0 <= cluster && cluster + 1 < offsets.len()
    &&& offsets[cluster] <= offsets[cluster + 1] <= vectors.len()
}

/// The neighbours after the records of a cluster came.
pub open spec fn after_cluster<D: Fn([u32; 16], [u32; 16]) -> u32>(
    offsets: Seq<u32>,
    vectors: Seq<Seq<u32>>,
    query: Query<'_, D>,
    cluster: int,
    top: Seq<Neighbor>,
) -> Seq<Neighbor> {
    top_k::all_taken_in(
        top,
        neighbors_between(
            vectors,
            query,
            offsets[cluster] as int,
            offsets[cluster + 1] as int,
        ),
    )
}

/// The neighbours after the clusters from place `k` to `end` of the order were visited, up to
/// the first after which there is an exact neighbour. There are none if a cluster that is
/// visited is no range of the records.
pub open spec fn after_clusters<D: Fn([u32; 16], [u32; 16]) -> u32>(
    offsets: Seq<u32>,
    vectors: Seq<Seq<u32>>,
    query: Query<'_, D>,
    order: Seq<usize>,
    k: int,
    end: int,
    top: Seq<Neighbor>,
) -> Option<Seq<Neighbor>>
    decreases end - k,
{
    if k >= end {
        Some(top)
    } else if !is_range(offsets, vectors, order[k] as int) {
        None
    } else {
        let next = after_cluster(offsets, vectors, query, order[k] as int, top);
        if next[0].dist < EXACT {
            Some(next)
        } else {
            after_clusters(offsets, vectors, query, order, k + 1, end, next)
        }
    }
}

/// The neighbours that stand for a record.
pub open spec fn seen(top: Seq<Neighbor>) -> Seq<Neighbor> {
    top.filter(|n: Neighbor| n.dist != FAR)
}

/// What the neighbours say: whether the query is approved, and its score. An exact neighbour
/// decides by its label.
pub open spec fn verdict<S: Fn(Weighing) -> u32>(
    kernel: S,
    top: Seq<Neighbor>,
) -> (bool, u32) {
    if top[0].dist < EXACT {
        (
            top[0].label == 0,
            if top[0].label == 0 {
                0
            } else {
                CERTAIN
            },
        )
    } else {
        let score = scored(kernel, seen(top), seen(top).len() as int);
        (score < APPROVAL_THRESHOLD, score)
    }
}

/// Whether the search goes on after the first clusters: the score is near the threshold, or
/// the nearest record is remote.
pub open spec fn goes_on(top: Seq<Neighbor>, score: u32) -> bool {
    top[0].dist >= EXACT && (CONFIDENT_LOW < score < CONFIDENT_HIGH || top[0].dist > REMOTE)
}

/// The outcome of a search that visits the clusters in the given order, if those that it
/// visits are ranges of the records.
pub open spec fn outcome<
    D: Fn([u32; 16], [u32; 16]) -> u32,
    S: Fn(Weighing) -> u32,
>(
    offsets: Seq<u32>,
    vectors: Seq<Seq<u32>>,
    query: Query<'_, D>,
    kernel: S,
    probing: Probing,
    order: Seq<usize>,
) -> Option<(bool, u32)> {
    match after_clusters(
        offsets,
        vectors,
        query,
        order,
        0,
        probing.l2 as int,
        top_k::none_seen(),
    ) {
        None => None,
        Some(first) => if !goes_on(first, verdict(kernel, first).1) {
            Some(verdict(kernel, first))
        } else {
            match after_clusters(
                offsets,
                vectors,
                query,
                order,
                probing.l2 as int,
                probing.extended as int,
                first,
            ) {
                None => None,
                Some(second) => Some(verdict(kernel, second)),
            }
        },
    }
}

/// Whether a search may come out so.
pub open spec fn may_come_out<
    D: Fn([u32; 16], [u32; 16]) -> u32,
    S: Fn(Weighing) -> u32,
>(
    data: IvfData<'_>,
    vectors: Seq<Seq<u32>>,
    query: Query<'_, D>,
    kernel: S,
    probing: Probing,
    r: Option<(bool, u32)>,
) -> bool {
    exists|order: Option<Seq<usize>>| #[trigger]
        is_order(data, query, probing, order) && r == (match order {
            None => None,
            Some(clusters) => outcome(
                data.offsets(),
                vectors,
                query,
                kernel,
                probing,
                clusters,
            ),
        })
}

/// Whether all centroids of the index are there and all its clusters are ranges of the
/// records.
pub open spec fn fits(data: IvfData<'_>, vectors: Seq<Seq<u32>>) -> bool {
    &&& data.l1_centroids().len() >= N_L1
    &&& data.l2_centroids().len() >= N_TOTAL_L2
    &&& forall|c: int| 0 <= c < N_TOTAL_L2 ==> #[trigger] is_range(data.offsets(), vectors, c)
}

/// `<[T]>::select_nth_unstable_by_key`, the key being the first half of a pair: reorders the
/// pairs so that the one at `n` is where sorting by key would put it, no key before it is
/// larger and no key behind it is smaller.
#[verifier::external_body]
fn select_nth(v: &mut Vec<(u32, usize)>, n: usize)
    requires
        n < old(v)@.len(),
    ensures
        final(v)@.to_multiset() == old(v)@.to_multiset(),
        forall|i: int| 0 <= i < n ==> (#[trigger] final(v)@[i]).0 <= final(v)@[n as int].0,
        forall|i: int|
            n <= i < final(v)@.len() ==> final(v)@[n as int].0 <= (#[trigger] final(v)@[i]).0,
{
    v.select_nth_unstable_by_key(n, |e| e.0);
}

/// `<[T]>::sort_unstable_by_key`, the key being the first half of a pair: reorders the pairs
/// so that their keys do not decrease.
#[verifier::external_body]
fn sort_by_first(v: &mut Vec<(u32, usize)>)
    ensures
        final(v)@.to_multiset() == old(v)@.to_multiset(),
        forall|i: int, j: int|
            0 <= i <= j < final(v)@.len() ==> (#[trigger] final(v)@[i]).0 <= (
            #[trigger] final(v)@[j]).0,
{
    v.sort_unstable_by_key(|e| e.0);
}

/// Computes what is asked for.
fn compute<S: Fn(Weighing) -> u32>(kernel: &S, w: Weighing) -> (r: u32)
    requires
        is_kernel(*kernel),
    ensures
        r == computed(*kernel, w),
{
    let r = kernel(w);
    assert(call_ensures(*kernel, (w,), r));
    r
}

/// Adds a neighbour to the weight of fraud and to that of all.
fn weigh<S: Fn(Weighing) -> u32>(kernel: &S, fraud: u32, total: u32, n: &Neighbor) -> (r: (u32, u32))
    requires
        is_kernel(*kernel),
    ensures
        ({
            let weight = computed(*kernel, Weighing::Weight(n.dist));
            &&& r.0 == if n.label == 0 {
                fraud
            } else {
                computed(*kernel, Weighing::Sum(fraud, weight))
            }
            &&& r.1 == computed(*kernel, Weighing::Sum(total, weight))
        }),
{
    let weight = compute(kernel, Weighing::Weight(n.dist));
    let more = compute(kernel, Weighing::Sum(total, weight));
    if n.label == 0 {
        (fraud, more)
    } else {
        (compute(kernel, Weighing::Sum(fraud, weight)), more)
    }
}

/// The share of fraud in a weight, zero if there is none.
fn share<S: Fn(Weighing) -> u32>(kernel: &S, fraud: u32, total: u32) -> (r: u32)
    requires
        is_kernel(*kernel),
    ensures
        r == if is_positive(total) {
            computed(*kernel, Weighing::Share(fraud, total))
        } else {
            0
        },
{
    if 0 < total && total <= 0x7f80_0000 {
        compute(kernel, Weighing::Share(fraud, total))
    } else {
        0
    }
}

/// Takes the score of the first `n` neighbours.
pub fn score_of<S: Fn(Weighing) -> u32>(kernel: &S, top: &[Neighbor; 7], n: usize) -> (r: u32)
    requires
        is_kernel(*kernel),
        n <= K,
        top_k::labelled(top@),
    ensures
        r == scored(*kernel, top@, n as int),
{
    let mut fraud: u32 = 0;
    let mut total: u32 = 0;
    let mut k: usize = 0;
    while k < n
        invariant
            k <= n <= K,
            is_kernel(*kernel),
            total == total_weight(*kernel, top@, k as int),
            fraud == fraud_weight(*kernel, top@, k as int),
        decreases n - k,
    {
        let (f, t) = weigh(kernel, fraud, total, &top[k]);
        fraud = f;
        total = t;
        k += 1;
    }
    share(kernel, fraud, total)
}

/// Weights of the first `n` neighbours do not depend on what comes behind them.
proof fn lemma_weights_of_front<S: Fn(Weighing) -> u32>(
    kernel: S,
    a: Seq<Neighbor>,
    b: Seq<Neighbor>,
    n: int,
)
    requires
        n <= a.len(),
        n <= b.len(),
        forall|k: int| 0 <= k < n ==> #[trigger] a[k] == b[k],
    ensures
        total_weight(kernel, a, n) == total_weight(kernel, b, n),
        fraud_weight(kernel, a, n) == fraud_weight(kernel, b, n),
    decreases n,
{
    if n > 0 {
        lemma_weights_of_front(kernel, a, b, n - 1);
        assert(a[n - 1] == b[n - 1]);
    }
}

/// Takes the score of all neighbours that stand for a record.
fn score_seen<S: Fn(Weighing) -> u32>(kernel: &S, top: &[Neighbor; 7]) -> (r: u32)
    requires
        is_kernel(*kernel),
    ensures
        r == scored(*kernel, seen(top@), seen(top@).len() as int),
{
    let mut fraud: u32 = 0;
    let mut total: u32 = 0;
    let mut k: usize = 0;
    proof {
        reveal(Seq::filter);
        assert(seen(top@.take(0)) =~= Seq::empty());
    }
    while k < K
        invariant
            k <= K,
            is_kernel(*kernel),
            ({
                let before = seen(top@.take(k as int));
                &&& total == total_weight(*kernel, before, before.len() as int)
                &&& fraud == fraud_weight(*kernel, before, before.len() as int)
            }),
        decreases K - k,
    {
        let ghost before = seen(top@.take(k as int));
        let ghost after = seen(top@.take(k + 1));
        proof {
            reveal(Seq::filter);
            assert(top@.take(k + 1).drop_last() =~= top@.take(k as int));
            assert(top@.take(k + 1).last() == top@[k as int]);
        }
        if top[k].dist != FAR {
            assert(after == before.push(top@[k as int]));
            proof {
                lemma_weights_of_front(*kernel, before, after, before.len() as int);
            }
            let (f, t) = weigh(kernel, fraud, total, &top[k]);
            fraud = f;
            total = t;
        }
        k += 1;
    }
    assert(top@.take(7) =~= top@);
    share(kernel, fraud, total)
}

/// What the neighbours say.
pub fn calculate_fraud_score_weighted<S: Fn(Weighing) -> u32>(
    top: [Neighbor; 7],
    kernel: &S,
) -> (r: (bool, u32))
    requires
        is_kernel(*kernel),
        top_k::labelled(top@),
    ensures
        r == verdict(*kernel, top@),
{
    if top[0].dist < EXACT {
        if top[0].label == 0 {
            (true, 0)
        } else {
            (false, CERTAIN)
        }
    } else {
        let score = score_seen(kernel, &top);
        (score < APPROVAL_THRESHOLD, score)
    }
}

/// Takes in the records of a cluster.
fn scan_cluster<D: Fn([u32; 16], [u32; 16]) -> u32>(
    dataset: &Dataset<'_>,
    query: &Query<'_, D>,
    start: usize,
    end: usize,
    top: &mut [Neighbor; 7],
)
    requires
        start <= end <= dataset@.len(),
        is_measure(*query),
    ensures
        final(top)@ == top_k::all_taken_in(
            old(top)@,
            neighbors_between(dataset@, *query, start as int, end as int),
        ),
        top_k::labelled(old(top)@) ==> top_k::labelled(final(top)@),
{
    let ghost before = top@;
    let ghost all = neighbors_between(dataset@, *query, start as int, end as int);
    let mut k: usize = start;
    assert(all.take(0) =~= Seq::empty());
    while k < end
        invariant
            start <= k <= end <= dataset@.len(),
            is_measure(*query),
            all == neighbors_between(dataset@, *query, start as int, end as int),
            top@ == top_k::all_taken_in(before, all.take(k - start)),
        decreases end - k,
    {
        let vector: [u32; 16] = dataset.record(k).vector;
        let dist = measure(query, vector);
        update_top_k_packed(top, dist, vector[15]);
        assert(all.take(k + 1 - start).drop_last() =~= all.take(k - start));
        assert(all.take(k + 1 - start).last() == all[k - start]);
        k += 1;
    }
    assert(all.take(end - start) =~= all);
    proof {
        if top_k::labelled(before) {
            top_k::labels_are_kept(before, all);
        }
    }
}

proof fn lemma_same_pairs(a: Seq<(u32, usize)>, b: Seq<(u32, usize)>)
    requires
        a.to_multiset() == b.to_multiset(),
    ensures
        a.len() == b.len(),
        forall|i: int| 0 <= i < a.len() ==> b.contains(#[trigger] a[i]),
{
    broadcast use group_to_multiset_ensures;

    to_multiset_len(a);
    to_multiset_len(b);
    assert forall|i: int| 0 <= i < a.len() implies b.contains(#[trigger] a[i]) by {
        assert(a.contains(a[i]));
        assert(a.to_multiset().count(a[i]) > 0);
    }
}

/// The `n` pairs with the smallest keys.
fn nearest(all: Vec<(u32, usize)>, n: usize) -> (r: Vec<(u32, usize)>)
    requires
        n < all@.len(),
    ensures
        nearest_of(r@, all@, n as int),
{
    let mut v = all;
    select_nth(&mut v, n);
    let ghost whole = v@;
    v.truncate(n);
    proof {
        lemma_same_pairs(whole, all@);
        let rest = whole.subrange(n as int, whole.len() as int);
        assert(v@ + rest =~= whole);
    }
    v
}

/// Brings the `n` pairs with the smallest keys to the front, smallest first.
fn order_front(chosen: Vec<(u32, usize)>, n: usize) -> (r: Vec<(u32, usize)>)
    requires
        n <= chosen@.len(),
    ensures
        r@.to_multiset() == chosen@.to_multiset(),
        front_ordered(r@, n as int),
{
    let mut v = chosen;
    if n < v.len() {
        select_nth(&mut v, n);
    }
    let ghost whole = v@;
    proof {
        lemma_same_pairs(whole, chosen@);
    }
    let mut tail = v.split_off(n);
    let ghost front = v@;
    let ghost back = tail@;
    sort_by_first(&mut v);
    let ghost sorted = v@;
    v.append(&mut tail);
    proof {
        lemma_same_pairs(sorted, front);
        assert(whole =~= front + back);
        lemma_multiset_commutative(front, back);
        lemma_multiset_commutative(sorted, back);
        assert forall|i: int, j: int| 0 <= i < n && i <= j < v@.len() implies (
        #[trigger] v@[i]).0 <= (#[trigger] v@[j]).0 by {
            assert(v@[i] == sorted[i]);
            if j < n {
                assert(v@[j] == sorted[j]);
            } else {
                assert(front.contains(sorted[i]));
                let k = choose|k: int| 0 <= k < front.len() && front[k] == sorted[i];
                assert(whole[k] == front[k]);
                assert(v@[j] == whole[j]);
                assert(whole[k].0 <= whole[n as int].0 <= whole[j].0);
            }
        }
    }
    v
}

proof fn lemma_nearest_reordered(
    chosen: Seq<(u32, usize)>,
    again: Seq<(u32, usize)>,
    all: Seq<(u32, usize)>,
    n: int,
)
    requires
        nearest_of(chosen, all, n),
        again.to_multiset() == chosen.to_multiset(),
    ensures
        nearest_of(again, all, n),
{
    lemma_same_pairs(again, chosen);
    let rest = choose|rest: Seq<(u32, usize)>|
        #![trigger chosen + rest]
        {
            &&& (chosen + rest).to_multiset() == all.to_multiset()
            &&& forall|i: int, j: int|
                0 <= i < chosen.len() && 0 <= j < rest.len() ==> (#[trigger] chosen[i]).0 <= (
                #[trigger] rest[j]).0
        };
    lemma_multiset_commutative(chosen, rest);
    lemma_multiset_commutative(again, rest);
    assert forall|i: int, j: int| 0 <= i < again.len() && 0 <= j < rest.len() implies (
    #[trigger] again[i]).0 <= (#[trigger] rest[j]).0 by {
        assert(chosen.contains(again[i]));
        let k = choose|k: int| 0 <= k < chosen.len() && chosen[k] == again[i];
        assert(chosen[k].0 <= rest[j].0);
    }
    assert((again + rest).to_multiset() == all.to_multiset());
}

proof fn lemma_chosen(chosen: Seq<(u32, usize)>, all: Seq<(u32, usize)>, n: int)
    requires
        nearest_of(chosen, all, n),
    ensures
        forall|i: int| 0 <= i < chosen.len() ==> all.contains(#[trigger] chosen[i]),
{
    let rest = choose|rest: Seq<(u32, usize)>|
        #![trigger chosen + rest]
        {
            &&& (chosen + rest).to_multiset() == all.to_multiset()
            &&& forall|i: int, j: int|
                0 <= i < chosen.len() && 0 <= j < rest.len() ==> (#[trigger] chosen[i]).0 <= (
                #[trigger] rest[j]).0
        };
    lemma_same_pairs(chosen + rest, all);
    assert forall|i: int| 0 <= i < chosen.len() implies all.contains(#[trigger] chosen[i]) by {
        assert((chosen + rest)[i] == chosen[i]);
    }
}

/// Visits the clusters from place `from` to `to`, up to the first after which there is an
/// exact neighbour; the result is whether those visited are ranges of the records.
fn visit<D: Fn([u32; 16], [u32; 16]) -> u32>(
    data: &IvfData<'_>,
    dataset: &Dataset<'_>,
    query: &Query<'_, D>,
    clusters: &Vec<(u32, usize)>,
    from: usize,
    to: usize,
    top: &mut [Neighbor; 7],
) -> (r: bool)
    requires
        from <= to <= clusters@.len(),
        is_measure(*query),
    ensures
        ({
            let after = after_clusters(
                data.offsets(),
                dataset@,
                *query,
                places(clusters@),
                from as int,
                to as int,
                old(top)@,
            );
            &&& r == after is Some
            &&& r ==> after == Some(final(top)@)
        }),
        top_k::labelled(old(top)@) ==> top_k::labelled(final(top)@),
{
    let ghost offsets = data.offsets();
    let ghost order = places(clusters@);
    let ghost after = after_clusters(
        offsets,
        dataset@,
        *query,
        order,
        from as int,
        to as int,
        top@,
    );
    let mut k: usize = from;
    while k < to
        invariant
            from <= k <= to <= clusters@.len(),
            is_measure(*query),
            offsets == data.offsets(),
            order == places(clusters@),
            after == after_clusters(
                offsets,
                dataset@,
                *query,
                order,
                from as int,
                to as int,
                old(top)@,
            ),
            after == after_clusters(
                offsets,
                dataset@,
                *query,
                order,
                k as int,
                to as int,
                top@,
            ),
            top_k::labelled(old(top)@) ==> top_k::labelled(top@),
        decreases to - k,
    {
        let cluster = clusters[k].1;
        assert(order[k as int] == cluster);
        let count = data.offsets_len();
        if count < 2 || cluster > count - 2 {
            return false;
        }
        let start = data.offset(cluster) as usize;
        let end = data.offset(cluster + 1) as usize;
        if start > end || end > dataset.len() {
            return false;
        }
        scan_cluster(dataset, query, start, end, top);
        if top[0].dist < EXACT {
            return true;
        }
        k += 1;
    }
    true
}

/// Measures the centroids of the upper level.
fn measure_l1<D: Fn([u32; 16], [u32; 16]) -> u32>(
    data: &IvfData<'_>,
    query: &Query<'_, D>,
) -> (r: Vec<(u32, usize)>)
    requires
        data.l1_centroids().len() >= N_L1,
        is_measure(*query),
    ensures
        r@ == l1_keys(*data, *query),
{
    let mut keys: Vec<(u32, usize)> = Vec::new();
    let mut i: usize = 0;
    while i < N_L1
        invariant
            i <= N_L1,
            data.l1_centroids().len() >= N_L1,
            is_measure(*query),
            keys@ =~= l1_keys(*data, *query).take(i as int),
        decreases N_L1 - i,
    {
        let d = measure(query, data.l1_centroid(i));
        keys.push((d, i));
        i += 1;
    }
    assert(keys@ =~= l1_keys(*data, *query));
    keys
}

/// Whether the centroids of the lower level that belong to `l1` are all there.
fn l2_present(data: &IvfData<'_>, l1: &Vec<(u32, usize)>) -> (r: bool)
    ensures
        r == has_l2(*data, places(l1@)),
{
    let blocks: usize = data.l2_len() / N_L2_PER_L1;
    let ghost order = places(l1@);
    let mut k: usize = 0;
    while k < l1.len()
        invariant
            k <= l1@.len(),
            order == places(l1@),
            blocks == data.l2_centroids().len() / N_L2_PER_L1 as nat,
            forall|j: int|
                0 <= j < k ==> (#[trigger] order[j] + 1) * N_L2_PER_L1
                    <= data.l2_centroids().len(),
        decreases l1@.len() - k,
    {
        assert(order[k as int] == l1@[k as int].1);
        if l1[k].1 >= blocks {
            assert((order[k as int] + 1) * N_L2_PER_L1 > data.l2_centroids().len());
            return false;
        }
        k += 1;
    }
    true
}

/// Measures the centroids of the lower level that belong to `l1`.
fn measure_l2<D: Fn([u32; 16], [u32; 16]) -> u32>(
    data: &IvfData<'_>,
    query: &Query<'_, D>,
    l1: &Vec<(u32, usize)>,
) -> (r: Vec<(u32, usize)>)
    requires
        has_l2(*data, places(l1@)),
        l1@.len() <= N_L1,
        is_measure(*query),
    ensures
        r@ == l2_keys(*data, *query, places(l1@)),
{
    let ghost order = places(l1@);
    let ghost all = l2_keys(*data, *query, order);
    let mut keys: Vec<(u32, usize)> = Vec::new();
    let mut k: usize = 0;
    while k < l1.len()
        invariant
            k <= l1@.len() <= N_L1,
            order == places(l1@),
            all == l2_keys(*data, *query, order),
            has_l2(*data, order),
            is_measure(*query),
            keys@ =~= all.take(k * N_L2_PER_L1),
        decreases l1@.len() - k,
    {
        let top = l1[k].1;
        assert(order[k as int] == top);
        assert((order[k as int] + 1) * N_L2_PER_L1 <= data.l2_centroids().len());
        let count = data.l2_len();
        let base: usize = top * N_L2_PER_L1;
        let mut j: usize = 0;
        while j < N_L2_PER_L1
            invariant
                j <= N_L2_PER_L1,
                k < l1@.len() <= N_L1,
                order == places(l1@),
                order[k as int] == top,
                base == top * N_L2_PER_L1,
                base + N_L2_PER_L1 <= data.l2_centroids().len(),
                count == data.l2_centroids().len(),
                all == l2_keys(*data, *query, order),
                is_measure(*query),
                keys@ =~= all.take(k * N_L2_PER_L1 + j),
            decreases N_L2_PER_L1 - j,
        {
            let d = measure(query, data.l2_centroid(base + j));
            keys.push((d, base + j));
            let ghost t = k * N_L2_PER_L1 + j;
            assert(t / N_L2_PER_L1 as int == k && t % N_L2_PER_L1 as int == j);
            assert(l2_index(order, t) == base + j);
            j += 1;
        }
        k += 1;
    }
    assert(keys@ =~= all);
    keys
}

/// An index of records in clusters.
#[derive(Clone, Copy)]
pub struct IvfIndex<'a> {
    pub data: IvfData<'a>,
}

impl<'a> IvfIndex<'a> {
    /// The index with the given data.
    pub fn new(data: IvfData<'a>) -> (r: IvfIndex<'a>)
        ensures
            r.data == data,
    {
        IvfIndex { data }
    }

    /// Searches the index: whether the query is approved, and its score. There is no outcome
    /// if centroids are missing or a cluster that is visited is no range of the records.
    pub fn try_search<D: Fn([u32; 16], [u32; 16]) -> u32, S: Fn(Weighing) -> u32>(
        &self,
        query: &Query<'_, D>,
        dataset: &Dataset<'_>,
        probing: Probing,
        kernel: &S,
    ) -> (r: Option<(bool, u32)>)
        requires
            probing.wf(),
            is_measure(*query),
            is_kernel(*kernel),
        ensures
            may_come_out(self.data, dataset@, *query, *kernel, probing, r),
    {
        if self.data.l1_len() < N_L1 {
            assert(is_order(self.data, *query, probing, None));
            return None;
        }
        let l1 = nearest(measure_l1(&self.data, query), probing.l1);
        if !l2_present(&self.data, &l1) {
            assert(is_order(self.data, *query, probing, None));
            return None;
        }
        let keys = measure_l2(&self.data, query, &l1);
        let ghost all = keys@;
        let chosen = nearest(keys, probing.extended);
        let clusters = order_front(chosen, probing.l2);
        let ghost order = places(clusters@);
        proof {
            lemma_nearest_reordered(chosen@, clusters@, all, probing.extended as int);
            assert(is_order_below(self.data, *query, probing, places(l1@), Some(order)));
            assert(is_order(self.data, *query, probing, Some(order)));
        }
        let mut top = new_top_k();
        if !visit(&self.data, dataset, query, &clusters, 0, probing.l2, &mut top) {
            return None;
        }
        let first = calculate_fraud_score_weighted(top, kernel);
        if top[0].dist >= EXACT && (CONFIDENT_LOW < first.1 && first.1 < CONFIDENT_HIGH
            || top[0].dist > REMOTE) {
            if !visit(
                &self.data,
                dataset,
                query,
                &clusters,
                probing.l2,
                probing.extended,
                &mut top,
            ) {
                return None;
            }
            Some(calculate_fraud_score_weighted(top, kernel))
        } else {
            Some(first)
        }
    }

    /// Whether all centroids are there and all clusters are ranges of the records.
    pub fn fits_dataset(&self, dataset: &Dataset<'_>) -> (r: bool)
        ensures
            r == fits(self.data, dataset@),
    {
        let data = self.data;
        if data.l1_len() < N_L1 || data.l2_len() < N_TOTAL_L2 || data.offsets_len() <= N_TOTAL_L2 {
            assert(data.offsets().len() <= N_TOTAL_L2 ==> !is_range(
                data.offsets(),
                dataset@,
                N_TOTAL_L2 - 1,
            ));
            return false;
        }
        let count = dataset.len();
        let mut c: usize = 0;
        while c < N_TOTAL_L2
            invariant
                c <= N_TOTAL_L2 < data.offsets().len(),
                data == self.data,
                count == dataset@.len(),
                forall|b: int| 0 <= b < c ==> #[trigger] is_range(data.offsets(), dataset@, b),
            decreases N_TOTAL_L2 - c,
        {
            let start = data.offset(c) as usize;
            let end = data.offset(c + 1) as usize;
            if start > end || end > count {
                assert(!is_range(data.offsets(), dataset@, c as int));
                return false;
            }
            c += 1;
        }
        true
    }

    /// Searches an index that fits the records: whether the query is approved, and its score.
    pub fn search<D: Fn([u32; 16], [u32; 16]) -> u32, S: Fn(Weighing) -> u32>(
        &self,
        query: &Query<'_, D>,
        dataset: &Dataset<'_>,
        probing: Probing,
        kernel: &S,
    ) -> (r: (bool, u32))
        requires
            probing.wf(),
            is_measure(*query),
            is_kernel(*kernel),
            fits(self.data, dataset@),
        ensures
            may_come_out(self.data, dataset@, *query, *kernel, probing, Some(r)),
    {
        let found = self.try_search(query, dataset, probing, kernel);
        proof {
            a_fitting_index_answers(self.data, dataset@, *query, *kernel, probing, found);
        }
        found.unwrap()
    }
}

proof fn lemma_ranges_are_visited<D: Fn([u32; 16], [u32; 16]) -> u32>(
    offsets: Seq<u32>,
    vectors: Seq<Seq<u32>>,
    query: Query<'_, D>,
    order: Seq<usize>,
    k: int,
    end: int,
    top: Seq<Neighbor>,
)
    requires
        forall|j: int| k <= j < end ==> is_range(offsets, vectors, #[trigger] order[j] as int),
    ensures
        after_clusters(offsets, vectors, query, order, k, end, top) is Some,
    decreases end - k,
{
    if k < end {
        let next = after_cluster(offsets, vectors, query, order[k] as int, top);
        lemma_ranges_are_visited(offsets, vectors, query, order, k + 1, end, next);
    }
}

/// Where no neighbour is fraud, none of the weight is; where all are, all of it is.
pub proof fn agreeing_neighbours_decide<S: Fn(Weighing) -> u32>(
    kernel: S,
    s: Seq<Neighbor>,
    n: int,
)
    ensures
        (forall|k: int| 0 <= k < n ==> (#[trigger] s[k]).label == 0) ==> fraud_weight(kernel, s, n)
            == 0,
        (forall|k: int| 0 <= k < n ==> (#[trigger] s[k]).label != 0) ==> fraud_weight(kernel, s, n)
            == total_weight(kernel, s, n),
    decreases n,
{
    if n > 0 {
        agreeing_neighbours_decide(kernel, s, n - 1);
    }
}

/// An index that fits the records always answers.
pub proof fn a_fitting_index_answers<
    D: Fn([u32; 16], [u32; 16]) -> u32,
    S: Fn(Weighing) -> u32,
>(
    data: IvfData<'_>,
    vectors: Seq<Seq<u32>>,
    query: Query<'_, D>,
    kernel: S,
    probing: Probing,
    r: Option<(bool, u32)>,
)
    requires
        fits(data, vectors),
        probing.wf(),
        may_come_out(data, vectors, query, kernel, probing, r),
    ensures
        r is Some,
{
    let order = choose|order: Option<Seq<usize>>| #[trigger]
        is_order(data, query, probing, order) && r == (match order {
            None => None,
            Some(clusters) => outcome(
                data.offsets(),
                vectors,
                query,
                kernel,
                probing,
                clusters,
            ),
        });
    let l1 = choose|l1: Seq<(u32, usize)>| #[trigger]
        nearest_of(l1, l1_keys(data, query), probing.l1 as int) && is_order_below(
            data,
            query,
            probing,
            places(l1),
            order,
        );
    lemma_chosen(l1, l1_keys(data, query), probing.l1 as int);
    let upper = places(l1);
    assert forall|k: int| 0 <= k < upper.len() implies #[trigger] upper[k] < N_L1 by {
        assert(l1_keys(data, query).contains(l1[k]));
    }
    assert(has_l2(data, upper));
    let l2 = choose|l2: Seq<(u32, usize)>| #[trigger]
        nearest_of(l2, l2_keys(data, query, upper), probing.extended as int)
            && front_ordered(l2, probing.l2 as int) && order == Some(places(l2));
    lemma_chosen(l2, l2_keys(data, query, upper), probing.extended as int);
    let clusters = places(l2);
    assert forall|j: int| 0 <= j < clusters.len() implies is_range(
        data.offsets(),
        vectors,
        #[trigger] clusters[j] as int,
    ) by {
        let keys = l2_keys(data, query, upper);
        assert(keys.contains(l2[j]));
        let t = choose|t: int| 0 <= t < keys.len() && keys[t] == l2[j];
        assert(0 <= t / N_L2_PER_L1 as int && t / (N_L2_PER_L1 as int) < upper.len());
        assert(upper[t / N_L2_PER_L1 as int] < N_L1);
        assert(0 <= l2_index(upper, t) < N_TOTAL_L2);
        assert(clusters[j] == l2_index(upper, t));
    }
    let first = after_clusters(
        data.offsets(),
        vectors,
        query,
        clusters,
        0,
        probing.l2 as int,
        top_k::none_seen(),
    );
    lemma_ranges_are_visited(
        data.offsets(),
        vectors,
        query,
        clusters,
        0,
        probing.l2 as int,
        top_k::none_seen(),
    );
    lemma_ranges_are_visited(
        data.offsets(),
        vectors,
        query,
        clusters,
        probing.l2 as int,
        probing.extended as int,
        first->0,
    );
}

/// A query is approved exactly if its score is below the threshold, also where an exact
/// neighbour decides.
pub proof fn approved_is_below_the_threshold<
    D: Fn([u32; 16], [u32; 16]) -> u32,
    S: Fn(Weighing) -> u32,
>(
    data: IvfData<'_>,
    vectors: Seq<Seq<u32>>,
    query: Query<'_, D>,
    kernel: S,
    probing: Probing,
    approved: bool,
    score: u32,
)
    requires
        may_come_out(data, vectors, query, kernel, probing, Some((approved, score))),
    ensures
        approved == (score < APPROVAL_THRESHOLD),
{
}

/// The records of the clusters from place `k` to `end` of the order, as neighbours.
pub open spec fn neighbors_in<D: Fn([u32; 16], [u32; 16]) -> u32>(
    offsets: Seq<u32>,
    vectors: Seq<Seq<u32>>,
    query: Query<'_, D>,
    order: Seq<usize>,
    k: int,
    end: int,
) -> Seq<Neighbor>
    decreases end - k,
{
    if k >= end {
        Seq::empty()
    } else {
        neighbors_between(
            vectors,
            query,
            offsets[order[k] as int] as int,
            offsets[order[k] + 1] as int,
        ) + neighbors_in(offsets, vectors, query, order, k + 1, end)
    }
}

proof fn lemma_taken_in_parts(s: Seq<Neighbor>, a: Seq<Neighbor>, b: Seq<Neighbor>)
    ensures
        top_k::all_taken_in(top_k::all_taken_in(s, a), b) == top_k::all_taken_in(s, a + b),
    decreases b.len(),
{
    if b.len() == 0 {
        assert(a + b =~= a);
    } else {
        assert((a + b).drop_last() =~= a + b.drop_last());
        lemma_taken_in_parts(s, a, b.drop_last());
    }
}

/// The neighbours that a search ends with are what remains when all records of the first
/// clusters of the order are taken in, none left out; and clusters remain unvisited only if
/// there is an exact neighbour.
pub proof fn visited_clusters_are_searched_through<D: Fn([u32; 16], [u32; 16]) -> u32>(
    offsets: Seq<u32>,
    vectors: Seq<Seq<u32>>,
    query: Query<'_, D>,
    order: Seq<usize>,
    k: int,
    end: int,
    top: Seq<Neighbor>,
)
    requires
        k <= end,
        after_clusters(offsets, vectors, query, order, k, end, top) is Some,
    ensures
        exists|m: int|
            k <= m <= end && after_clusters(offsets, vectors, query, order, k, end, top) == Some(
                top_k::all_taken_in(
                    top,
                    #[trigger] neighbors_in(offsets, vectors, query, order, k, m),
                ),
            ) && (m < end ==> top_k::all_taken_in(
                top,
                neighbors_in(offsets, vectors, query, order, k, m),
            )[0].dist < EXACT) && (forall|j: int|
                k <= j < m ==> is_range(offsets, vectors, #[trigger] order[j] as int)),
    decreases end - k,
{
    if k == end {
        assert(neighbors_in(offsets, vectors, query, order, k, k) =~= Seq::empty());
    } else {
        let next = after_cluster(offsets, vectors, query, order[k] as int, top);
        let here = neighbors_between(
            vectors,
            query,
            offsets[order[k] as int] as int,
            offsets[order[k] + 1] as int,
        );
        if next[0].dist < EXACT {
            assert(neighbors_in(offsets, vectors, query, order, k + 1, k + 1) =~= Seq::empty());
            assert(neighbors_in(offsets, vectors, query, order, k, k + 1) =~= here);
        } else {
            visited_clusters_are_searched_through(
                offsets,
                vectors,
                query,
                order,
                k + 1,
                end,
                next,
            );
            let m = choose|m: int|
                k + 1 <= m <= end && after_clusters(
                    offsets,
                    vectors,
                    query,
                    order,
                    k + 1,
                    end,
                    next,
                ) == Some(
                    top_k::all_taken_in(
                        next,
                        #[trigger] neighbors_in(offsets, vectors, query, order, k + 1, m),
                    ),
                ) && (m < end ==> top_k::all_taken_in(
                    next,
                    neighbors_in(offsets, vectors, query, order, k + 1, m),
                )[0].dist < EXACT) && (forall|j: int|
                    k + 1 <= j < m ==> is_range(offsets, vectors, #[trigger] order[j] as int));
            lemma_taken_in_parts(
                top,
                here,
                neighbors_in(offsets, vectors, query, order, k + 1, m),
            );
            assert(neighbors_in(offsets, vectors, query, order, k, m) == here + neighbors_in(
                offsets,
                vectors,
                query,
                order,
                k + 1,
                m,
            ));
        }
    }
}

/// After clusters were visited, the neighbours are the nearest of those there were before and
/// of all records in the clusters visited, the nearest first.
pub proof fn the_nearest_of_the_visited_remain<D: Fn([u32; 16], [u32; 16]) -> u32>(
    offsets: Seq<u32>,
    vectors: Seq<Seq<u32>>,
    query: Query<'_, D>,
    order: Seq<usize>,
    k: int,
    end: int,
    top: Seq<Neighbor>,
    after: Seq<Neighbor>,
)
    requires
        k <= end,
        top.len() > 0,
        top_k::ascending(top),
        after_clusters(offsets, vectors, query, order, k, end, top) == Some(after),
    ensures
        after.len() == top.len(),
        top_k::ascending(after),
        exists|m: int|
            k <= m <= end && top_k::keeps_nearest(
                top,
                #[trigger] neighbors_in(offsets, vectors, query, order, k, m),
                after,
            ) && (m < end ==> after[0].dist < EXACT) && (forall|j: int|
                k <= j < m ==> is_range(offsets, vectors, #[trigger] order[j] as int)),
{
    visited_clusters_are_searched_through(offsets, vectors, query, order, k, end, top);
    let m = choose|m: int|
        k <= m <= end && after_clusters(offsets, vectors, query, order, k, end, top) == Some(
            top_k::all_taken_in(
                top,
                #[trigger] neighbors_in(offsets, vectors, query, order, k, m),
            ),
        ) && (m < end ==> top_k::all_taken_in(
            top,
            neighbors_in(offsets, vectors, query, order, k, m),
        )[0].dist < EXACT) && (forall|j: int|
            k <= j < m ==> is_range(offsets, vectors, #[trigger] order[j] as int));
    top_k::the_nearest_are_kept(top, neighbors_in(offsets, vectors, query, order, k, m));
}

/// Exactly the neighbours that stand for a record are scored, wherever they stand.
pub proof fn all_neighbours_are_scored(top: Seq<Neighbor>, n: Neighbor)
    ensures
        seen(top).contains(n) <==> top.contains(n) && n.dist != FAR,
    decreases top.len(),
{
    reveal(Seq::filter);
    if top.len() > 0 {
        let front = top.drop_last();
        all_neighbours_are_scored(front, n);
        assert(top =~= front.push(top.last()));
        broadcast use group_seq_properties;

        assert(top.contains(n) <==> front.contains(n) || n == top.last());
        if top.last().dist != FAR {
            assert(seen(top) =~= seen(front).push(top.last()));
        }
    }
}

/// Whether a cluster holds the same of two lists of records.
pub open spec fn same_cluster(
    offsets: Seq<u32>,
    a: Seq<Seq<u32>>,
    b: Seq<Seq<u32>>,
    cluster: int,
) -> bool {
    &&& is_range(offsets, a, cluster) == is_range(offsets, b, cluster)
    &&& is_range(offsets, a, cluster) ==> forall|i: int|
        offsets[cluster] <= i < offsets[cluster + 1] ==> #[trigger] a[i] == b[i]
}

proof fn lemma_same_clusters<D: Fn([u32; 16], [u32; 16]) -> u32>(
    offsets: Seq<u32>,
    a: Seq<Seq<u32>>,
    b: Seq<Seq<u32>>,
    query: Query<'_, D>,
    order: Seq<usize>,
    k: int,
    end: int,
    top: Seq<Neighbor>,
)
    requires
        0 <= k,
        end <= order.len(),
        forall|j: int|
            0 <= j < order.len() ==> same_cluster(offsets, a, b, #[trigger] order[j] as int),
    ensures
        after_clusters(offsets, a, query, order, k, end, top) == after_clusters(
            offsets,
            b,
            query,
            order,
            k,
            end,
            top,
        ),
    decreases end - k,
{
    if k < end {
        let cluster = order[k] as int;
        assert(same_cluster(offsets, a, b, cluster));
        if is_range(offsets, a, cluster) {
            let start = offsets[cluster] as int;
            let stop = offsets[cluster + 1] as int;
            assert(neighbors_between(a, query, start, stop) =~= neighbors_between(
                b,
                query,
                start,
                stop,
            ));
            lemma_same_clusters(
                offsets,
                a,
                b,
                query,
                order,
                k + 1,
                end,
                after_cluster(offsets, a, query, cluster, top),
            );
        }
    }
}

/// A search comes out the same whatever the records of the clusters are that it cannot visit:
/// lists of records that agree where it may look have the same outcomes.
pub proof fn other_clusters_do_not_matter<
    D: Fn([u32; 16], [u32; 16]) -> u32,
    S: Fn(Weighing) -> u32,
>(
    data: IvfData<'_>,
    a: Seq<Seq<u32>>,
    b: Seq<Seq<u32>>,
    query: Query<'_, D>,
    kernel: S,
    probing: Probing,
    r: Option<(bool, u32)>,
)
    requires
        probing.wf(),
        forall|order: Seq<usize>, j: int|
            #![trigger is_order(data, query, probing, Some(order)), order[j]]
            is_order(data, query, probing, Some(order)) && 0 <= j < order.len() ==> same_cluster(
                data.offsets(),
                a,
                b,
                order[j] as int,
            ),
    ensures
        may_come_out(data, a, query, kernel, probing, r) <==> may_come_out(
            data,
            b,
            query,
            kernel,
            probing,
            r,
        ),
{
    assert forall|order: Option<Seq<usize>>| #[trigger]
        is_order(data, query, probing, order) && order is Some implies outcome(
        data.offsets(),
        a,
        query,
        kernel,
        probing,
        order->Some_0,
    ) == outcome(data.offsets(), b, query, kernel, probing, order->Some_0) by {
        let clusters = order->Some_0;
        assert(is_order(data, query, probing, Some(clusters)));
        let l1 = choose|l1: Seq<(u32, usize)>| #[trigger]
            nearest_of(l1, l1_keys(data, query), probing.l1 as int) && is_order_below(
                data,
                query,
                probing,
                places(l1),
                order,
            );
        assert(is_order_below(data, query, probing, places(l1), order));
        assert(clusters.len() == probing.extended);
        lemma_same_clusters(
            data.offsets(),
            a,
            b,
            query,
            clusters,
            0,
            probing.l2 as int,
            top_k::none_seen(),
        );
        if let Some(first) = after_clusters(
            data.offsets(),
            a,
            query,
            clusters,
            0,
            probing.l2 as int,
            top_k::none_seen(),
        ) {
            lemma_same_clusters(
                data.offsets(),
                a,
                b,
                query,
                clusters,
                probing.l2 as int,
                probing.extended as int,
                first,
            );
        }
    }
}

/// Whether no two centroids of a level are equally far from the query.
pub open spec fn no_ties<D: Fn([u32; 16], [u32; 16]) -> u32>(
    data: IvfData<'_>,
    query: Query<'_, D>,
) -> bool {
    &&& forall|i: int, j: int|
        0 <= i < j < data.l1_centroids().len() ==> measured(
            query,
            #[trigger] data.l1_centroids()[i],
        ) != measured(query, #[trigger] data.l1_centroids()[j])
    &&& forall|i: int, j: int|
        0 <= i < j < data.l2_centroids().len() ==> measured(
            query,
            #[trigger] data.l2_centroids()[i],
        ) != measured(query, #[trigger] data.l2_centroids()[j])
}

/// Whether no key occurs twice.
spec fn unique_keys(s: Seq<(u32, usize)>) -> bool {
    forall|i: int, j: int|
        0 <= i < s.len() && 0 <= j < s.len() && (#[trigger] s[i]).0 == (#[trigger] s[j]).0 ==> i
            == j
}

/// Whether two lists hold the same pairs.
spec fn same_pairs(a: Seq<(u32, usize)>, b: Seq<(u32, usize)>) -> bool {
    forall|e: (u32, usize)| a.contains(e) <==> b.contains(e)
}

/// What was chosen, and what was left: no pair occurs twice, and each is in one of the two.
proof fn lemma_chosen_and_rest(
    chosen: Seq<(u32, usize)>,
    rest: Seq<(u32, usize)>,
    all: Seq<(u32, usize)>,
)
    requires
        (chosen + rest).to_multiset() == all.to_multiset(),
        unique_keys(all),
    ensures
        chosen.no_duplicates(),
        forall|e: (u32, usize)| all.contains(e) <==> chosen.contains(e) || rest.contains(e),
{
    let both = chosen + rest;
    lemma_same_pairs(both, all);
    lemma_same_pairs(all, both);
    assert(all.no_duplicates()) by {
        assert forall|i: int, j: int|
            0 <= i < all.len() && 0 <= j < all.len() && i != j implies all[i] != all[j] by {
            assert(all[i].0 == all[j].0 ==> i == j);
        }
    }
    all.lemma_multiset_has_no_duplicates();
    both.lemma_multiset_has_no_duplicates_conv();
    assert forall|i: int, j: int|
        0 <= i < chosen.len() && 0 <= j < chosen.len() && i != j implies chosen[i] != chosen[j] by {
        assert(both[i] == chosen[i] && both[j] == chosen[j]);
    }
    assert forall|e: (u32, usize)| all.contains(e) <==> chosen.contains(e) || rest.contains(e) by {
        if all.contains(e) {
            let i = choose|i: int| 0 <= i < all.len() && all[i] == e;
            assert(both.contains(all[i]));
            let j = choose|j: int| 0 <= j < both.len() && both[j] == e;
            if j < chosen.len() {
                assert(chosen[j] == e);
            } else {
                assert(rest[j - chosen.len()] == e);
            }
        }
        if chosen.contains(e) {
            let j = choose|j: int| 0 <= j < chosen.len() && chosen[j] == e;
            assert(both[j] == e);
            assert(all.contains(both[j]));
        }
        if rest.contains(e) {
            let j = choose|j: int| 0 <= j < rest.len() && rest[j] == e;
            assert(both[chosen.len() + j] == e);
            assert(all.contains(both[chosen.len() + j]));
        }
    }
}

/// Without ties the nearest pairs are always the same.
proof fn lemma_nearest_are_the_same(
    a: Seq<(u32, usize)>,
    all_a: Seq<(u32, usize)>,
    b: Seq<(u32, usize)>,
    all_b: Seq<(u32, usize)>,
    n: int,
)
    requires
        nearest_of(a, all_a, n),
        nearest_of(b, all_b, n),
        unique_keys(all_a),
        unique_keys(all_b),
        same_pairs(all_a, all_b),
    ensures
        a.no_duplicates(),
        b.no_duplicates(),
        same_pairs(a, b),
{
    let rest_a = choose|rest: Seq<(u32, usize)>|
        #![trigger a + rest]
        {
            &&& (a + rest).to_multiset() == all_a.to_multiset()
            &&& forall|i: int, j: int|
                0 <= i < a.len() && 0 <= j < rest.len() ==> (#[trigger] a[i]).0 <= (
                #[trigger] rest[j]).0
        };
    let rest_b = choose|rest: Seq<(u32, usize)>|
        #![trigger b + rest]
        {
            &&& (b + rest).to_multiset() == all_b.to_multiset()
            &&& forall|i: int, j: int|
                0 <= i < b.len() && 0 <= j < rest.len() ==> (#[trigger] b[i]).0 <= (
                #[trigger] rest[j]).0
        };
    lemma_chosen_and_rest(a, rest_a, all_a);
    lemma_chosen_and_rest(b, rest_b, all_b);
    a.unique_seq_to_set();
    b.unique_seq_to_set();
    seq_to_set_is_finite(a);
    seq_to_set_is_finite(b);
    assert forall|x: (u32, usize)| a.contains(x) implies b.contains(x) by {
        if !b.contains(x) {
            if b.to_set().subset_of(a.to_set()) {
                vstd::set_lib::lemma_subset_equality(b.to_set(), a.to_set());
                assert(a.to_set().contains(x));
            }
            let y = choose|y: (u32, usize)| b.to_set().contains(y) && !a.to_set().contains(y);
            assert(b.contains(y) && !a.contains(y));
            lemma_no_swap(a, rest_a, b, rest_b, all_a, x, y);
        }
    }
    assert(a.to_set().subset_of(b.to_set()));
    vstd::set_lib::lemma_subset_equality(a.to_set(), b.to_set());
    assert forall|e: (u32, usize)| b.contains(e) implies a.contains(e) by {
        assert(b.to_set().contains(e));
    }
}

/// Of two pairs of which one is chosen and the other one left, here and there the other way
/// round, the keys are equal; so they are one pair.
proof fn lemma_no_swap(
    a: Seq<(u32, usize)>,
    rest_a: Seq<(u32, usize)>,
    b: Seq<(u32, usize)>,
    rest_b: Seq<(u32, usize)>,
    all: Seq<(u32, usize)>,
    x: (u32, usize),
    y: (u32, usize),
)
    requires
        a.contains(x),
        rest_b.contains(x),
        b.contains(y),
        rest_a.contains(y),
        all.contains(x),
        all.contains(y),
        unique_keys(all),
        forall|i: int, j: int|
            0 <= i < a.len() && 0 <= j < rest_a.len() ==> (#[trigger] a[i]).0 <= (
            #[trigger] rest_a[j]).0,
        forall|i: int, j: int|
            0 <= i < b.len() && 0 <= j < rest_b.len() ==> (#[trigger] b[i]).0 <= (
            #[trigger] rest_b[j]).0,
    ensures
        x == y,
{
    let i = choose|i: int| 0 <= i < a.len() && a[i] == x;
    let j = choose|j: int| 0 <= j < rest_a.len() && rest_a[j] == y;
    let k = choose|k: int| 0 <= k < b.len() && b[k] == y;
    let l = choose|l: int| 0 <= l < rest_b.len() && rest_b[l] == x;
    assert(a[i].0 <= rest_a[j].0);
    assert(b[k].0 <= rest_b[l].0);
    let p = choose|p: int| 0 <= p < all.len() && all[p] == x;
    let q = choose|q: int| 0 <= q < all.len() && all[q] == y;
    assert(all[p].0 == all[q].0);
}

/// Two lists of the same pairs that both come by their keys are equal.
proof fn lemma_ordered_are_equal(a: Seq<(u32, usize)>, b: Seq<(u32, usize)>, k: int)
    requires
        a.len() == b.len(),
        0 <= k <= a.len(),
        a.no_duplicates(),
        b.no_duplicates(),
        same_pairs(a, b),
        front_ordered(a, a.len() as int),
        front_ordered(b, b.len() as int),
        forall|e: (u32, usize), f: (u32, usize)| #[trigger]
            a.contains(e) && #[trigger] a.contains(f) && e.0 == f.0 ==> e == f,
    ensures
        forall|i: int| 0 <= i < k ==> #[trigger] a[i] == b[i],
    decreases k,
{
    if k > 0 {
        let m = k - 1;
        lemma_ordered_are_equal(a, b, m);
        assert(a.contains(a[m]));
        assert(b.contains(a[m]));
        let j = choose|j: int| 0 <= j < b.len() && b[j] == a[m];
        assert(b.contains(b[m]));
        assert(a.contains(b[m]));
        let l = choose|l: int| 0 <= l < a.len() && a[l] == b[m];
        if j < m {
            assert(a[j] == b[j]);
        }
        if l < m {
            assert(a[l] == b[l]);
        }
        assert(b[m].0 <= b[j].0);
        assert(a[m].0 <= a[l].0);
    }
}

/// The clusters below centroids of the upper level are the same in whatever order those come.
proof fn lemma_l2_keys_are_the_same<D: Fn([u32; 16], [u32; 16]) -> u32>(
    data: IvfData<'_>,
    query: Query<'_, D>,
    a: Seq<usize>,
    b: Seq<usize>,
)
    requires
        forall|c: usize| a.contains(c) ==> b.contains(c),
    ensures
        forall|e: (u32, usize)|
            l2_keys(data, query, a).contains(e) ==> l2_keys(data, query, b).contains(e),
{
    let x = l2_keys(data, query, a);
    let y = l2_keys(data, query, b);
    let width = N_L2_PER_L1 as int;
    assert forall|e: (u32, usize)| x.contains(e) implies y.contains(e) by {
        let t = choose|t: int| 0 <= t < x.len() && x[t] == e;
        assert(0 <= t / width < a.len());
        assert(a.contains(a[t / width]));
        let k = choose|k: int| 0 <= k < b.len() && b[k] == a[t / width];
        let u = k * width + t % width;
        assert(0 <= u < y.len());
        assert(u / width == k && u % width == t % width);
        assert(l2_index(b, u) == l2_index(a, t));
        assert(y[u] == e);
    }
}

/// Without ties no cluster has the key of another one.
proof fn lemma_l2_keys_are_unique<D: Fn([u32; 16], [u32; 16]) -> u32>(
    data: IvfData<'_>,
    query: Query<'_, D>,
    l1: Seq<usize>,
)
    requires
        no_ties(data, query),
        l1.no_duplicates(),
        has_l2(data, l1),
    ensures
        unique_keys(l2_keys(data, query, l1)),
{
    let keys = l2_keys(data, query, l1);
    let width = N_L2_PER_L1 as int;
    let centroids = data.l2_centroids();
    assert forall|s: int, t: int|
        0 <= s < keys.len() && 0 <= t < keys.len() && (#[trigger] keys[s]).0 == (
        #[trigger] keys[t]).0 implies s == t by {
        let i = l2_index(l1, s);
        let j = l2_index(l1, t);
        assert(0 <= s / width < l1.len());
        assert(0 <= t / width < l1.len());
        assert((l1[s / width] + 1) * N_L2_PER_L1 <= centroids.len());
        assert((l1[t / width] + 1) * N_L2_PER_L1 <= centroids.len());
        assert(0 <= i < centroids.len() && 0 <= j < centroids.len());
        assert(measured(query, centroids[i]) == measured(query, centroids[j]));
        assert(i == j);
        assert(l1[s / width] == l1[t / width] && s % width == t % width);
        assert(s / width == t / width);
    }
}

/// Without ties the clusters can be visited in one order only.
proof fn lemma_one_order<D: Fn([u32; 16], [u32; 16]) -> u32>(
    data: IvfData<'_>,
    query: Query<'_, D>,
    probing: Probing,
    a: Option<Seq<usize>>,
    b: Option<Seq<usize>>,
)
    requires
        no_ties(data, query),
        probing.l2 == probing.extended,
        is_order(data, query, probing, a),
        is_order(data, query, probing, b),
    ensures
        a == b,
{
    if data.l1_centroids().len() >= N_L1 {
        let keys = l1_keys(data, query);
        let l1a = choose|l1: Seq<(u32, usize)>| #[trigger]
            nearest_of(l1, keys, probing.l1 as int) && is_order_below(
                data,
                query,
                probing,
                places(l1),
                a,
            );
        let l1b = choose|l1: Seq<(u32, usize)>| #[trigger]
            nearest_of(l1, keys, probing.l1 as int) && is_order_below(
                data,
                query,
                probing,
                places(l1),
                b,
            );
        assert(unique_keys(keys)) by {
            assert forall|i: int, j: int|
                0 <= i < keys.len() && 0 <= j < keys.len() && (#[trigger] keys[i]).0 == (
                #[trigger] keys[j]).0 implies i == j by {
                assert(measured(query, data.l1_centroids()[i]) == measured(
                    query,
                    data.l1_centroids()[j],
                ));
            }
        }
        lemma_nearest_are_the_same(l1a, keys, l1b, keys, probing.l1 as int);
        lemma_places_are_the_same(data, query, l1a, l1b, probing.l1 as int);
        lemma_places_are_the_same(data, query, l1b, l1a, probing.l1 as int);
        let pa = places(l1a);
        let pb = places(l1b);
        assert(has_l2(data, pa) == has_l2(data, pb)) by {
            if has_l2(data, pa) {
                assert forall|k: int| 0 <= k < pb.len() implies (#[trigger] pb[k] + 1)
                    * N_L2_PER_L1 <= data.l2_centroids().len() by {
                    assert(pb.contains(pb[k]));
                    assert(pa.contains(pb[k]));
                }
            }
            if has_l2(data, pb) {
                assert forall|k: int| 0 <= k < pa.len() implies (#[trigger] pa[k] + 1)
                    * N_L2_PER_L1 <= data.l2_centroids().len() by {
                    assert(pa.contains(pa[k]));
                    assert(pb.contains(pa[k]));
                }
            }
        }
        if has_l2(data, pa) {
            let l2a = choose|l2: Seq<(u32, usize)>| #[trigger]
                nearest_of(l2, l2_keys(data, query, pa), probing.extended as int)
                    && front_ordered(l2, probing.l2 as int) && a == Some(places(l2));
            let l2b = choose|l2: Seq<(u32, usize)>| #[trigger]
                nearest_of(l2, l2_keys(data, query, pb), probing.extended as int)
                    && front_ordered(l2, probing.l2 as int) && b == Some(places(l2));
            lemma_l2_keys_are_unique(data, query, pa);
            lemma_l2_keys_are_unique(data, query, pb);
            lemma_l2_keys_are_the_same(data, query, pa, pb);
            lemma_l2_keys_are_the_same(data, query, pb, pa);
            let all = l2_keys(data, query, pa);
            lemma_nearest_are_the_same(
                l2a,
                all,
                l2b,
                l2_keys(data, query, pb),
                probing.extended as int,
            );
            lemma_chosen(l2a, all, probing.extended as int);
            assert forall|e: (u32, usize), f: (u32, usize)| #[trigger]
                l2a.contains(e) && #[trigger] l2a.contains(f) && e.0 == f.0 implies e == f by {
                let i = choose|i: int| 0 <= i < l2a.len() && l2a[i] == e;
                let j = choose|j: int| 0 <= j < l2a.len() && l2a[j] == f;
                assert(all.contains(l2a[i]) && all.contains(l2a[j]));
                let p = choose|p: int| 0 <= p < all.len() && all[p] == e;
                let q = choose|q: int| 0 <= q < all.len() && all[q] == f;
                assert(all[p].0 == all[q].0);
            }
            lemma_ordered_are_equal(l2a, l2b, l2a.len() as int);
            assert(l2a =~= l2b);
        }
    }
}

/// The places of centroids of the upper level that were chosen: none occurs twice, and they
/// are the same where the same were chosen.
proof fn lemma_places_are_the_same<D: Fn([u32; 16], [u32; 16]) -> u32>(
    data: IvfData<'_>,
    query: Query<'_, D>,
    a: Seq<(u32, usize)>,
    b: Seq<(u32, usize)>,
    n: int,
)
    requires
        nearest_of(a, l1_keys(data, query), n),
        a.no_duplicates(),
        same_pairs(a, b),
    ensures
        places(a).no_duplicates(),
        forall|c: usize| places(a).contains(c) ==> places(b).contains(c),
{
    let keys = l1_keys(data, query);
    lemma_chosen(a, keys, n);
    assert forall|i: int, j: int|
        0 <= i < a.len() && 0 <= j < a.len() && i != j implies places(a)[i] != places(a)[j] by {
        assert(keys.contains(a[i]) && keys.contains(a[j]));
        let p = choose|p: int| 0 <= p < keys.len() && keys[p] == a[i];
        let q = choose|q: int| 0 <= q < keys.len() && keys[q] == a[j];
        if places(a)[i] == places(a)[j] {
            assert(p == q);
        }
    }
    assert forall|c: usize| places(a).contains(c) implies places(b).contains(c) by {
        let i = choose|i: int| 0 <= i < places(a).len() && places(a)[i] == c;
        assert(a.contains(a[i]));
        assert(b.contains(a[i]));
        let j = choose|j: int| 0 <= j < b.len() && b[j] == a[i];
        assert(places(b)[j] == c);
    }
}

/// Without ties a search that visits its clusters in one go has one outcome.
pub proof fn a_search_has_one_outcome<
    D: Fn([u32; 16], [u32; 16]) -> u32,
    S: Fn(Weighing) -> u32,
>(
    data: IvfData<'_>,
    vectors: Seq<Seq<u32>>,
    query: Query<'_, D>,
    kernel: S,
    probing: Probing,
    r1: Option<(bool, u32)>,
    r2: Option<(bool, u32)>,
)
    requires
        no_ties(data, query),
        probing.l2 == probing.extended,
        may_come_out(data, vectors, query, kernel, probing, r1),
        may_come_out(data, vectors, query, kernel, probing, r2),
    ensures
        r1 == r2,
{
    let a = choose|order: Option<Seq<usize>>| #[trigger]
        is_order(data, query, probing, order) && r1 == (match order {
            None => None,
            Some(clusters) => outcome(data.offsets(), vectors, query, kernel, probing, clusters),
        });
    let b = choose|order: Option<Seq<usize>>| #[trigger]
        is_order(data, query, probing, order) && r2 == (match order {
            None => None,
            Some(clusters) => outcome(data.offsets(), vectors, query, kernel, probing, clusters),
        });
    lemma_one_order(data, query, probing, a, b);
}

/// Without ties a search that visits its clusters in one go looks at their records only: on
/// lists of records that agree there it comes out the same.
pub proof fn only_the_visited_clusters_decide<
    D: Fn([u32; 16], [u32; 16]) -> u32,
    S: Fn(Weighing) -> u32,
>(
    data: IvfData<'_>,
    a: Seq<Seq<u32>>,
    b: Seq<Seq<u32>>,
    query: Query<'_, D>,
    kernel: S,
    probing: Probing,
    order: Seq<usize>,
    r1: Option<(bool, u32)>,
    r2: Option<(bool, u32)>,
)
    requires
        no_ties(data, query),
        probing.wf(),
        probing.l2 == probing.extended,
        is_order(data, query, probing, Some(order)),
        forall|j: int|
            0 <= j < order.len() ==> same_cluster(
                data.offsets(),
                a,
                b,
                #[trigger] order[j] as int,
            ),
        may_come_out(data, a, query, kernel, probing, r1),
        may_come_out(data, b, query, kernel, probing, r2),
    ensures
        r1 == r2,
{
    assert forall|other: Seq<usize>, j: int|
        #![trigger is_order(data, query, probing, Some(other)), other[j]]
        is_order(data, query, probing, Some(other)) && 0 <= j < other.len() implies same_cluster(
        data.offsets(),
        a,
        b,
        other[j] as int,
    ) by {
        lemma_one_order(data, query, probing, Some(other), Some(order));
    }
    other_clusters_do_not_matter(data, a, b, query, kernel, probing, r1);
    a_search_has_one_outcome(data, b, query, kernel, probing, r1, r2);
}

/// Whether neighbours are weighed as real numbers are: weights of neighbours are not negative
/// and finite together, a sum is not below its first part and grows with it, and the share of a
/// part is at most one, none for no part and one for all.
pub open spec fn weighs_fairly<S: Fn(Weighing) -> u32>(kernel: S) -> bool {
    &&& forall|d: u32|
        d <= FAR ==> #[trigger] computed(kernel, Weighing::Weight(d)) <= 0x7f80_0000
    &&& forall|a: u32, b: u32|
        a <= 0x7f80_0000 && b <= 0x7f80_0000 ==> a <= #[trigger] computed(
            kernel,
            Weighing::Sum(a, b),
        ) <= 0x7f80_0000
    &&& forall|a: u32, b: u32, c: u32|
        a <= c <= 0x7f80_0000 && b <= 0x7f80_0000 ==> #[trigger] computed(
            kernel,
            Weighing::Sum(a, b),
        ) <= #[trigger] computed(kernel, Weighing::Sum(c, b))
    &&& forall|a: u32, b: u32|
        a <= b && 0 < b < 0x7f80_0000 ==> #[trigger] computed(kernel, Weighing::Share(a, b))
            <= CERTAIN
    &&& forall|b: u32|
        0 < b < 0x7f80_0000 ==> #[trigger] computed(kernel, Weighing::Share(0, b)) == 0
    &&& forall|b: u32|
        0 < b < 0x7f80_0000 ==> #[trigger] computed(kernel, Weighing::Share(b, b)) == CERTAIN
    &&& forall|s: Seq<Neighbor>|
        s.len() <= K && (forall|k: int| 0 <= k < s.len() ==> (#[trigger] s[k]).dist <= FAR)
            ==> #[trigger] total_weight(kernel, s, s.len() as int) < 0x7f80_0000
}

/// Whether there are as many places as neighbours are kept, and all neighbours that stand for
/// a record are of a kind.
spec fn all_are(top: Seq<Neighbor>, kind: spec_fn(Neighbor) -> bool) -> bool {
    &&& top.len() == K
    &&& forall|k: int|
        0 <= k < top.len() ==> (#[trigger] top[k]).dist <= FAR && (top[k].dist < FAR ==> kind(
            top[k],
        ))
}

/// Neighbours of a kind that are taken in remain of that kind.
proof fn lemma_kind_is_kept(
    top: Seq<Neighbor>,
    ns: Seq<Neighbor>,
    kind: spec_fn(Neighbor) -> bool,
)
    requires
        all_are(top, kind),
        forall|k: int| 0 <= k < ns.len() ==> kind(#[trigger] ns[k]),
    ensures
        all_are(top_k::all_taken_in(top, ns), kind),
    decreases ns.len(),
{
    if ns.len() > 0 {
        let front = ns.drop_last();
        assert forall|k: int| 0 <= k < front.len() implies kind(#[trigger] front[k]) by {
            assert(front[k] == ns[k]);
        }
        lemma_kind_is_kept(top, front, kind);
        let before = top_k::all_taken_in(top, front);
        let n = ns.last();
        assert(n == ns[ns.len() - 1]);
        let after = top_k::taken_in(before, n);
        if n.dist < before.last().dist {
            top_k::lemma_place(before, n.dist, before.len() - 1);
            let p = top_k::place(before, n.dist, before.len() - 1);
            assert forall|k: int| 0 <= k < after.len() implies (#[trigger] after[k]).dist <= FAR
                && (after[k].dist < FAR ==> kind(after[k])) by {
                if k < p {
                    assert(after[k] == before[k]);
                } else if k > p {
                    assert(after[k] == before[k - 1]);
                }
            }
        }
    }
}

/// Whether all records are of a kind, as neighbours of a query.
spec fn all_records_are<D: Fn([u32; 16], [u32; 16]) -> u32>(
    vectors: Seq<Seq<u32>>,
    query: Query<'_, D>,
    kind: spec_fn(Neighbor) -> bool,
) -> bool {
    forall|i: int|
        0 <= i < vectors.len() ==> kind(
            top_k::neighbor(measured(query, #[trigger] vectors[i]), vectors[i][15]),
        )
}

proof fn lemma_visited_are<D: Fn([u32; 16], [u32; 16]) -> u32>(
    offsets: Seq<u32>,
    vectors: Seq<Seq<u32>>,
    query: Query<'_, D>,
    order: Seq<usize>,
    k: int,
    end: int,
    top: Seq<Neighbor>,
    kind: spec_fn(Neighbor) -> bool,
)
    requires
        all_are(top, kind),
        all_records_are(vectors, query, kind),
    ensures
        after_clusters(offsets, vectors, query, order, k, end, top) matches Some(t) ==> all_are(
            t,
            kind,
        ),
    decreases end - k,
{
    if k < end && is_range(offsets, vectors, order[k] as int) {
        let start = offsets[order[k] as int] as int;
        let stop = offsets[order[k] + 1] as int;
        let ns = neighbors_between(vectors, query, start, stop);
        assert forall|j: int| 0 <= j < ns.len() implies kind(#[trigger] ns[j]) by {
            assert(0 <= start + j < vectors.len());
            let v = vectors[start + j];
            assert(ns[j] == top_k::neighbor(measured(query, v), v[15]));
        }
        lemma_kind_is_kept(top, ns, kind);
        let next = after_cluster(offsets, vectors, query, order[k] as int, top);
        lemma_visited_are(offsets, vectors, query, order, k + 1, end, next, kind);
    }
}

/// What comes out of a search is what some neighbours say, all of the kind of the records.
proof fn lemma_says_who<D: Fn([u32; 16], [u32; 16]) -> u32, S: Fn(Weighing) -> u32>(
    data: IvfData<'_>,
    vectors: Seq<Seq<u32>>,
    query: Query<'_, D>,
    kernel: S,
    probing: Probing,
    r: (bool, u32),
    kind: spec_fn(Neighbor) -> bool,
) -> (top: Seq<Neighbor>)
    requires
        may_come_out(data, vectors, query, kernel, probing, Some(r)),
        all_records_are(vectors, query, kind),
    ensures
        all_are(top, kind),
        r == verdict(kernel, top),
{
    let order = choose|order: Option<Seq<usize>>| #[trigger]
        is_order(data, query, probing, order) && Some(r) == (match order {
            None => None,
            Some(clusters) => outcome(data.offsets(), vectors, query, kernel, probing, clusters),
        });
    let clusters = order->Some_0;
    let none = top_k::none_seen();
    let l2 = probing.l2 as int;
    let first = after_clusters(data.offsets(), vectors, query, clusters, 0, l2, none);
    lemma_visited_are(data.offsets(), vectors, query, clusters, 0, l2, none, kind);
    let seen_first = first->Some_0;
    if goes_on(seen_first, verdict(kernel, seen_first).1) {
        let end = probing.extended as int;
        let second = after_clusters(
            data.offsets(),
            vectors,
            query,
            clusters,
            l2,
            end,
            seen_first,
        );
        lemma_visited_are(
            data.offsets(),
            vectors,
            query,
            clusters,
            l2,
            end,
            seen_first,
            kind,
        );
        second->Some_0
    } else {
        seen_first
    }
}

proof fn lemma_fraud_is_a_part<S: Fn(Weighing) -> u32>(kernel: S, s: Seq<Neighbor>, n: int)
    requires
        weighs_fairly(kernel),
        n <= s.len(),
        forall|k: int| 0 <= k < s.len() ==> (#[trigger] s[k]).dist <= FAR,
    ensures
        fraud_weight(kernel, s, n) <= total_weight(kernel, s, n) <= 0x7f80_0000,
    decreases n,
{
    if n > 0 {
        lemma_fraud_is_a_part(kernel, s, n - 1);
        let weight = computed(kernel, Weighing::Weight(s[n - 1].dist));
        let fraud = fraud_weight(kernel, s, n - 1);
        let total = total_weight(kernel, s, n - 1);
        assert(s[n - 1].dist <= FAR);
        assert(weight <= 0x7f80_0000);
        assert(total <= computed(kernel, Weighing::Sum(total, weight)));
        assert(computed(kernel, Weighing::Sum(fraud, weight)) <= computed(
            kernel,
            Weighing::Sum(total, weight),
        ));
    }
}

/// The neighbours that stand for a record are of the kind of all, and no more than are kept.
proof fn lemma_seen_are(top: Seq<Neighbor>, kind: spec_fn(Neighbor) -> bool)
    requires
        all_are(top, kind),
    ensures
        seen(top).len() <= K,
        forall|k: int|
            0 <= k < seen(top).len() ==> (#[trigger] seen(top)[k]).dist < FAR && kind(
                seen(top)[k],
            ),
{
    top.lemma_filter_len(|n: Neighbor| n.dist != FAR);
    assert forall|k: int| 0 <= k < seen(top).len() implies (#[trigger] seen(top)[k]).dist < FAR
        && kind(seen(top)[k]) by {
        let n = seen(top)[k];
        assert(seen(top).contains(n));
        all_neighbours_are_scored(top, n);
        let j = choose|j: int| 0 <= j < top.len() && top[j] == n;
        assert(top[j].dist <= FAR);
    }
}

/// Where neighbours are weighed as real numbers are, every score is between zero and one.
pub proof fn a_score_is_between_zero_and_one<
    D: Fn([u32; 16], [u32; 16]) -> u32,
    S: Fn(Weighing) -> u32,
>(
    data: IvfData<'_>,
    vectors: Seq<Seq<u32>>,
    query: Query<'_, D>,
    kernel: S,
    probing: Probing,
    approved: bool,
    score: u32,
)
    requires
        weighs_fairly(kernel),
        may_come_out(data, vectors, query, kernel, probing, Some((approved, score))),
    ensures
        score <= CERTAIN,
{
    let any = |n: Neighbor| true;
    let top = lemma_says_who(data, vectors, query, kernel, probing, (approved, score), any);
    let s = seen(top);
    lemma_seen_are(top, any);
    lemma_fraud_is_a_part(kernel, s, s.len() as int);
    assert(total_weight(kernel, s, s.len() as int) < 0x7f80_0000);
}

/// Where neighbours are weighed as real numbers are, records of one label decide: among
/// records that are no fraud every query is approved with the score zero, and among records
/// that are fraud it is rejected with the score one, unless none of them weighs anything.
pub proof fn records_of_one_label_decide<
    D: Fn([u32; 16], [u32; 16]) -> u32,
    S: Fn(Weighing) -> u32,
>(
    data: IvfData<'_>,
    vectors: Seq<Seq<u32>>,
    query: Query<'_, D>,
    kernel: S,
    probing: Probing,
    label: u8,
    approved: bool,
    score: u32,
)
    requires
        weighs_fairly(kernel),
        label <= 1,
        forall|i: int|
            0 <= i < vectors.len() ==> records::label_of(#[trigger] vectors[i][15]) == label,
        may_come_out(data, vectors, query, kernel, probing, Some((approved, score))),
    ensures
        label == 0 ==> approved && score == 0,
        label == 1 ==> approved && score == 0 || !approved && score == CERTAIN,
{
    let same = |n: Neighbor| n.label == label;
    assert forall|i: int| 0 <= i < vectors.len() implies same(
        top_k::neighbor(measured(query, #[trigger] vectors[i]), vectors[i][15]),
    ) by {
        assert(records::label_of(vectors[i][15]) == label);
    }
    let top = lemma_says_who(data, vectors, query, kernel, probing, (approved, score), same);
    let s = seen(top);
    lemma_seen_are(top, same);
    assert forall|k: int| 0 <= k < s.len() implies (#[trigger] s[k]).label == label by {
        assert(same(s[k]));
    }
    agreeing_neighbours_decide(kernel, s, s.len() as int);
    let total = total_weight(kernel, s, s.len() as int);
    assert(total < 0x7f80_0000);
    assert(top[0].dist < EXACT ==> same(top[0]));
}

/// A neighbour weighs what its distance says, whatever its place and however many came before
/// it, and counts as fraud exactly if its label does.
pub proof fn each_neighbour_counts<S: Fn(Weighing) -> u32>(kernel: S, s: Seq<Neighbor>, n: int)
    requires
        0 < n <= s.len(),
    ensures
        total_weight(kernel, s, 0) == 0,
        fraud_weight(kernel, s, 0) == 0,
        total_weight(kernel, s, n) == computed(
            kernel,
            Weighing::Sum(
                total_weight(kernel, s, n - 1),
                computed(kernel, Weighing::Weight(s[n - 1].dist)),
            ),
        ),
        s[n - 1].label != 0 ==> fraud_weight(kernel, s, n) == computed(
            kernel,
            Weighing::Sum(
                fraud_weight(kernel, s, n - 1),
                computed(kernel, Weighing::Weight(s[n - 1].dist)),
            ),
        ),
        s[n - 1].label == 0 ==> fraud_weight(kernel, s, n) == fraud_weight(kernel, s, n - 1),
{
}

/// The weights of all and of fraud, after each of the places of a list.
spec fn running<S: Fn(Weighing) -> u32>(kernel: S, top: Seq<Neighbor>) -> Seq<(u32, u32)> {
    Seq::new(
        (top.len() + 1) as nat,
        |k: int|
            {
                let s = seen(top.take(k));
                (
                    total_weight(kernel, s, s.len() as int),
                    fraud_weight(kernel, s, s.len() as int),
                )
            },
    )
}

proof fn lemma_running<S: Fn(Weighing) -> u32>(kernel: S, top: Seq<Neighbor>, k: int)
    requires
        0 <= k < top.len(),
    ensures
        ({
            let (total, fraud) = running(kernel, top)[k];
            let weight = computed(kernel, Weighing::Weight(top[k].dist));
            running(kernel, top)[k + 1] == if top[k].dist == FAR {
                (total, fraud)
            } else {
                (
                    computed(kernel, Weighing::Sum(total, weight)),
                    if top[k].label == 0 {
                        fraud
                    } else {
                        computed(kernel, Weighing::Sum(fraud, weight))
                    },
                )
            }
        }),
{
    let before = seen(top.take(k));
    let after = seen(top.take(k + 1));
    reveal(Seq::filter);
    assert(top.take(k + 1).drop_last() =~= top.take(k));
    assert(top.take(k + 1).last() == top[k]);
    if top[k].dist != FAR {
        assert(after == before.push(top[k]));
        lemma_weights_of_front(kernel, before, after, before.len() as int);
    } else {
        assert(after == before);
    }
}

/// What neighbours say, place by place. If the nearest is nearer than 0.05, its label decides.
/// Else each place that holds a record adds the weight of its distance to the weight of all,
/// and, if the record is fraud, to the weight of fraud; the score is the share of fraud, zero
/// if nothing weighs anything, and below 0.44 it is an approval.
pub proof fn every_neighbour_has_its_say<S: Fn(Weighing) -> u32>(kernel: S, top: Seq<Neighbor>)
    requires
        top.len() > 0,
    ensures
        ({
            let (approved, score) = verdict(kernel, top);
            &&& top[0].dist < 0x3d4c_cccd ==> approved == (top[0].label == 0) && score == (
            if top[0].label == 0 {
                0u32
            } else {
                0x3f80_0000u32
            })
            &&& top[0].dist >= 0x3d4c_cccd ==> approved == (score < 0x3ee1_47ae)
            &&& top[0].dist >= 0x3d4c_cccd ==> exists|sums: Seq<(u32, u32)>|
                #![trigger sums.len()]
                {
                    &&& sums.len() == top.len() + 1
                    &&& sums[0] == (0u32, 0u32)
                    &&& forall|k: int|
                        #![trigger top[k]]
                        0 <= k < top.len() && top[k].dist == 0x7f7f_ffff ==> sums[k + 1] == sums[k]
                    &&& forall|k: int|
                        #![trigger top[k]]
                        0 <= k < top.len() && top[k].dist != 0x7f7f_ffff ==> sums[k + 1].0
                            == computed(
                            kernel,
                            Weighing::Sum(
                                sums[k].0,
                                computed(kernel, Weighing::Weight(top[k].dist)),
                            ),
                        )
                    &&& forall|k: int|
                        #![trigger top[k]]
                        0 <= k < top.len() && top[k].dist != 0x7f7f_ffff ==> sums[k + 1].1
                            == if top[k].label == 0 {
                            sums[k].1
                        } else {
                            computed(
                                kernel,
                                Weighing::Sum(
                                    sums[k].1,
                                    computed(kernel, Weighing::Weight(top[k].dist)),
                                ),
                            )
                        }
                    &&& score == if 0 < sums.last().0 <= 0x7f80_0000 {
                        computed(kernel, Weighing::Share(sums.last().1, sums.last().0))
                    } else {
                        0u32
                    }
                }
        }),
{
    let sums = running(kernel, top);
    reveal(Seq::filter);
    assert(seen(top.take(0)) =~= Seq::empty());
    assert(top.take(top.len() as int) =~= top);
    assert(sums.len() == top.len() + 1);
    assert forall|k: int|
        #![trigger top[k]]
        0 <= k < top.len() implies (top[k].dist == FAR ==> sums[k + 1] == sums[k]) && (top[k].dist
        != FAR ==> sums[k + 1].0 == computed(
        kernel,
        Weighing::Sum(sums[k].0, computed(kernel, Weighing::Weight(top[k].dist))),
    ) && sums[k + 1].1 == (if top[k].label == 0 {
        sums[k].1
    } else {
        computed(
            kernel,
            Weighing::Sum(sums[k].1, computed(kernel, Weighing::Weight(top[k].dist))),
        )
    })) by {
        lemma_running(kernel, top, k);
    }
}

/// The clusters that a search visits are the nearest. There are so many centroids of the upper
/// level that none of the others is nearer than any of them; every cluster that is visited
/// lies below one of them, and no cluster below them that is left out is nearer than any that
/// is visited. The first clusters come nearest first.
pub proof fn the_nearest_clusters_are_visited<D: Fn([u32; 16], [u32; 16]) -> u32>(
    data: IvfData<'_>,
    query: Query<'_, D>,
    probing: Probing,
    order: Seq<usize>,
)
    requires
        is_order(data, query, probing, Some(order)),
        0 < probing.l1 < 256,
    ensures
        data.l1_centroids().len() >= 256,
        order.len() == probing.extended,
        order.no_duplicates(),
        exists|upper: Seq<usize>| #[trigger]
            upper.len() == probing.l1 && upper.no_duplicates() && (forall|i: int|
                0 <= i < upper.len() ==> #[trigger] upper[i] < 256 && 256 * upper[i] + 256
                    <= data.l2_centroids().len()) && (forall|i: int, c: int|
                #![trigger upper[i], data.l1_centroids()[c]]
                0 <= i < upper.len() && 0 <= c < 256 && !upper.contains(c as usize) ==> measured(
                    query,
                    data.l1_centroids()[upper[i] as int],
                ) <= measured(query, data.l1_centroids()[c])) && (forall|j: int|
                0 <= j < order.len() ==> upper.contains(
                    (#[trigger] order[j] as int / 256) as usize,
                )) && (forall|j: int, c: int|
                #![trigger order[j], data.l2_centroids()[c]]
                0 <= j < order.len() && 0 <= c && upper.contains((c / 256) as usize)
                    && !order.contains(c as usize) && c <= usize::MAX ==> measured(
                    query,
                    data.l2_centroids()[order[j] as int],
                ) <= measured(query, data.l2_centroids()[c])),
        forall|i: int, j: int|
            0 <= i < probing.l2 && i <= j < order.len() ==> measured(
                query,
                data.l2_centroids()[#[trigger] order[i] as int],
            ) <= measured(query, data.l2_centroids()[#[trigger] order[j] as int]),
{
    let keys = l1_keys(data, query);
    let l1 = choose|l1: Seq<(u32, usize)>| #[trigger]
        nearest_of(l1, keys, probing.l1 as int) && is_order_below(
            data,
            query,
            probing,
            places(l1),
            Some(order),
        );
    let upper = places(l1);
    lemma_places_by_number(keys, l1, probing.l1 as int);
    let below = l2_keys(data, query, upper);
    let l2 = choose|l2: Seq<(u32, usize)>| #[trigger]
        nearest_of(l2, below, probing.extended as int) && front_ordered(l2, probing.l2 as int)
            && Some(order) == Some(places(l2));
    let width = N_L2_PER_L1 as int;
    assert forall|i: int| 0 <= i < upper.len() implies #[trigger] upper[i] < 256 && 256 * upper[i]
        + 256 <= data.l2_centroids().len() by {
        assert(keys.contains(l1[i]));
        assert((upper[i] + 1) * N_L2_PER_L1 <= data.l2_centroids().len());
    }
    assert forall|i: int, c: int|
        #![trigger upper[i], data.l1_centroids()[c]]
        0 <= i < upper.len() && 0 <= c < 256 && !upper.contains(c as usize) implies measured(
        query,
        data.l1_centroids()[upper[i] as int],
    ) <= measured(query, data.l1_centroids()[c]) by {
        assert(keys[c] == (measured(query, data.l1_centroids()[c]), c as usize));
        assert(keys.contains(keys[c]));
        assert(keys.contains(l1[i]));
        let p = choose|p: int| 0 <= p < keys.len() && keys[p] == l1[i];
        assert(l1[i] == (measured(query, data.l1_centroids()[p]), p as usize));
    }
    assert forall|s: int, t: int|
        0 <= s < below.len() && 0 <= t < below.len() && (#[trigger] below[s]).1 == (
        #[trigger] below[t]).1 implies s == t by {
        assert(0 <= s / width < upper.len() && 0 <= t / width < upper.len());
        assert(upper[s / width] < 256 && upper[t / width] < 256);
        assert(l2_index(upper, s) == l2_index(upper, t));
        assert(upper[s / width] == upper[t / width] && s % width == t % width);
    }
    lemma_places_by_number(below, l2, probing.extended as int);
    assert forall|j: int| 0 <= j < order.len() implies upper.contains(
        (#[trigger] order[j] as int / 256) as usize,
    ) && l2[j] == (measured(query, data.l2_centroids()[order[j] as int]), order[j]) by {
        assert(below.contains(l2[j]));
        let t = choose|t: int| 0 <= t < below.len() && below[t] == l2[j];
        assert(0 <= t / width < upper.len());
        assert(upper[t / width] < 256);
        assert(order[j] as int / 256 == upper[t / width]);
        assert(upper.contains(upper[t / width]));
    }
    assert forall|j: int, c: int|
        #![trigger order[j], data.l2_centroids()[c]]
        0 <= j < order.len() && 0 <= c && upper.contains((c / 256) as usize) && !order.contains(
            c as usize,
        ) && c <= usize::MAX implies measured(query, data.l2_centroids()[order[j] as int])
        <= measured(query, data.l2_centroids()[c]) by {
        let k = choose|k: int| 0 <= k < upper.len() && upper[k] == (c / 256) as usize;
        let t = k * width + c % 256;
        assert(0 <= t < below.len());
        assert(t / width == k && t % width == c % 256);
        assert(l2_index(upper, t) == c);
        assert(below[t] == (measured(query, data.l2_centroids()[c]), c as usize));
        assert(below.contains(below[t]));
        assert(l2[j] == (measured(query, data.l2_centroids()[order[j] as int]), order[j]));
    }
    assert forall|i: int, j: int| 0 <= i < probing.l2 && i <= j < order.len() implies measured(
        query,
        data.l2_centroids()[#[trigger] order[i] as int],
    ) <= measured(query, data.l2_centroids()[#[trigger] order[j] as int]) by {
        assert(l2[i].0 <= l2[j].0);
        assert(l2[i] == (measured(query, data.l2_centroids()[order[i] as int]), order[i]));
        assert(l2[j] == (measured(query, data.l2_centroids()[order[j] as int]), order[j]));
    }
    assert(upper.len() == probing.l1);
}

/// What was chosen of numbered pairs: no number occurs twice, and what was left is not nearer.
proof fn lemma_places_by_number(all: Seq<(u32, usize)>, chosen: Seq<(u32, usize)>, n: int)
    requires
        nearest_of(chosen, all, n),
        forall|i: int, j: int|
            0 <= i < all.len() && 0 <= j < all.len() && (#[trigger] all[i]).1 == (
            #[trigger] all[j]).1 ==> i == j,
    ensures
        places(chosen).no_duplicates(),
        forall|i: int| 0 <= i < chosen.len() ==> all.contains(#[trigger] chosen[i]),
        forall|i: int, e: (u32, usize)|
            #![trigger chosen[i], all.contains(e)]
            0 <= i < chosen.len() && all.contains(e) && !places(chosen).contains(e.1)
                ==> chosen[i].0 <= e.0,
{
    let rest = choose|rest: Seq<(u32, usize)>|
        #![trigger chosen + rest]
        {
            &&& (chosen + rest).to_multiset() == all.to_multiset()
            &&& forall|i: int, j: int|
                0 <= i < chosen.len() && 0 <= j < rest.len() ==> (#[trigger] chosen[i]).0 <= (
                #[trigger] rest[j]).0
        };
    let both = chosen + rest;
    lemma_same_pairs(both, all);
    lemma_same_pairs(all, both);
    assert(all.no_duplicates());
    all.lemma_multiset_has_no_duplicates();
    both.lemma_multiset_has_no_duplicates_conv();
    assert forall|i: int| 0 <= i < chosen.len() implies all.contains(#[trigger] chosen[i]) by {
        assert(both[i] == chosen[i]);
        assert(all.contains(both[i]));
    }
    assert forall|i: int, j: int|
        0 <= i < chosen.len() && 0 <= j < chosen.len() && i != j implies places(chosen)[i]
        != places(chosen)[j] by {
        assert(both[i] == chosen[i] && both[j] == chosen[j]);
        assert(all.contains(chosen[i]) && all.contains(chosen[j]));
        let p = choose|p: int| 0 <= p < all.len() && all[p] == chosen[i];
        let q = choose|q: int| 0 <= q < all.len() && all[q] == chosen[j];
        if chosen[i].1 == chosen[j].1 {
            assert(all[p].1 == all[q].1);
        }
    }
    assert forall|i: int, e: (u32, usize)|
        #![trigger chosen[i], all.contains(e)]
        0 <= i < chosen.len() && all.contains(e) && !places(chosen).contains(
            e.1,
        ) implies chosen[i].0 <= e.0 by {
        let p = choose|p: int| 0 <= p < all.len() && all[p] == e;
        assert(both.contains(all[p]));
        let q = choose|q: int| 0 <= q < both.len() && both[q] == e;
        if q < chosen.len() {
            assert(places(chosen)[q] == e.1);
        } else {
            assert(rest[q - chosen.len()] == e);
        }
    }
}

/// What a record says of itself as a neighbour: its distance, and the label and the number in
/// its last word.
spec fn as_neighbor<D: Fn([u32; 16], [u32; 16]) -> u32>(
    query: Query<'_, D>,
    v: Seq<u32>,
) -> Neighbor {
    Neighbor { dist: measured(query, v), label: (v[15] % 2) as u8, id: (v[15] / 2) as usize }
}

proof fn lemma_neighbors_in<D: Fn([u32; 16], [u32; 16]) -> u32>(
    offsets: Seq<u32>,
    vectors: Seq<Seq<u32>>,
    query: Query<'_, D>,
    order: Seq<usize>,
    k: int,
    m: int,
)
    requires
        k <= m,
        forall|j: int| k <= j < m ==> is_range(offsets, vectors, #[trigger] order[j] as int),
    ensures
        ({
            let ns = neighbors_in(offsets, vectors, query, order, k, m);
            &&& forall|j: int, i: int|
                k <= j < m && offsets[#[trigger] order[j] as int] <= i < offsets[order[j] + 1]
                    ==> ns.contains(as_neighbor(query, #[trigger] vectors[i]))
            &&& forall|n: Neighbor| #[trigger]
                ns.contains(n) ==> exists|j: int, i: int|
                    k <= j < m && offsets[#[trigger] order[j] as int] <= i < offsets[order[j] + 1]
                        && n == as_neighbor(query, #[trigger] vectors[i])
        }),
    decreases m - k,
{
    let ns = neighbors_in(offsets, vectors, query, order, k, m);
    if k < m {
        let start = offsets[order[k] as int] as int;
        let stop = offsets[order[k] + 1] as int;
        let here = neighbors_between(vectors, query, start, stop);
        let more = neighbors_in(offsets, vectors, query, order, k + 1, m);
        lemma_neighbors_in(offsets, vectors, query, order, k + 1, m);
        assert(ns == here + more);
        assert forall|j: int, i: int|
            k <= j < m && offsets[#[trigger] order[j] as int] <= i < offsets[order[j]
                + 1] implies ns.contains(as_neighbor(query, #[trigger] vectors[i])) by {
            let n = as_neighbor(query, vectors[i]);
            if j == k {
                assert(here[i - start] == n);
                assert(ns[i - start] == n);
            } else {
                assert(more.contains(n));
                let p = choose|p: int| 0 <= p < more.len() && more[p] == n;
                assert(ns[here.len() + p] == n);
            }
        }
        assert forall|n: Neighbor| #[trigger] ns.contains(n) implies exists|j: int, i: int|
            k <= j < m && offsets[#[trigger] order[j] as int] <= i < offsets[order[j] + 1] && n
                == as_neighbor(query, #[trigger] vectors[i]) by {
            let p = choose|p: int| 0 <= p < ns.len() && ns[p] == n;
            if p < here.len() {
                assert(n == as_neighbor(query, vectors[start + p]));
                assert(offsets[order[k] as int] <= start + p < offsets[order[k] + 1]);
            } else {
                assert(more[p - here.len()] == n);
                assert(more.contains(n));
            }
        }
    }
}

/// A search looks at every record of the clusters that it visits, and at no other one. It keeps
/// seven neighbours, nearest first: whatever record is nearer than the last of them is among
/// them, and each of them is such a record or stands for none. It leaves clusters out only
/// behind one that brought a neighbour nearer than 0.05.
pub proof fn the_seven_nearest_records_are_found<D: Fn([u32; 16], [u32; 16]) -> u32>(
    offsets: Seq<u32>,
    vectors: Seq<Seq<u32>>,
    query: Query<'_, D>,
    order: Seq<usize>,
    end: int,
    top: Seq<Neighbor>,
)
    requires
        0 <= end,
        after_clusters(offsets, vectors, query, order, 0, end, top_k::none_seen()) == Some(top),
    ensures
        top.len() == 7,
        forall|i: int, j: int|
            0 <= i <= j < 7 ==> (#[trigger] top[i]).dist <= (#[trigger] top[j]).dist,
        exists|m: int|
            #![trigger order.take(m)]
            {
                &&& 0 <= m <= end
                &&& m < end ==> top[0].dist < 0x3d4c_cccd
                &&& forall|j: int, i: int|
                    0 <= j < m && offsets[#[trigger] order[j] as int] <= i < offsets[order[j] + 1]
                        && measured(query, #[trigger] vectors[i]) < top[6].dist ==> top.contains(
                        Neighbor {
                            dist: measured(query, vectors[i]),
                            label: (vectors[i][15] % 2) as u8,
                            id: (vectors[i][15] / 2) as usize,
                        },
                    )
                &&& forall|k: int|
                    0 <= k < 7 && (#[trigger] top[k]).dist != 0x7f7f_ffff ==> exists|
                        j: int,
                        i: int,
                    |
                        0 <= j < m && offsets[#[trigger] order[j] as int] <= i < offsets[order[j]
                            + 1] && top[k].dist == measured(query, #[trigger] vectors[i])
                            && top[k].label == vectors[i][15] % 2 && top[k].id == vectors[i][15]
                            / 2
            },
{
    let none = top_k::none_seen();
    the_nearest_of_the_visited_remain(offsets, vectors, query, order, 0, end, none, top);
    let m = choose|m: int|
        0 <= m <= end && top_k::keeps_nearest(
            none,
            #[trigger] neighbors_in(offsets, vectors, query, order, 0, m),
            top,
        ) && (m < end ==> top[0].dist < EXACT) && (forall|j: int|
            0 <= j < m ==> is_range(offsets, vectors, #[trigger] order[j] as int));
    let ns = neighbors_in(offsets, vectors, query, order, 0, m);
    lemma_neighbors_in(offsets, vectors, query, order, 0, m);
    lemma_kept_or_left(none, ns, top);
    assert(order.take(m) == order.take(m));
    assert forall|j: int, i: int|
        0 <= j < m && offsets[#[trigger] order[j] as int] <= i < offsets[order[j] + 1] && measured(
            query,
            #[trigger] vectors[i],
        ) < top[6].dist implies top.contains(as_neighbor(query, vectors[i])) by {
        assert(ns.contains(as_neighbor(query, vectors[i])));
    }
    assert forall|k: int| 0 <= k < 7 && (#[trigger] top[k]).dist != FAR implies exists|
        j: int,
        i: int,
    |
        0 <= j < m && offsets[#[trigger] order[j] as int] <= i < offsets[order[j] + 1]
            && top[k].dist == measured(query, #[trigger] vectors[i]) && top[k].label
            == vectors[i][15] % 2 && top[k].id == vectors[i][15] / 2 by {
        assert(ns.contains(top[k]));
        let (j, i) = choose|j: int, i: int|
            0 <= j < m && offsets[#[trigger] order[j] as int] <= i < offsets[order[j] + 1]
                && top[k] == as_neighbor(query, #[trigger] vectors[i]);
        assert(top[k].dist == measured(query, vectors[i]));
        assert(offsets[order[j] as int] <= i);
    }
}

/// What came and is nearer than the last that is kept is kept; and what is kept came, or was
/// there before.
pub proof fn lemma_kept_or_left(s: Seq<Neighbor>, ns: Seq<Neighbor>, kept: Seq<Neighbor>)
    requires
        top_k::keeps_nearest(s, ns, kept),
        kept.len() == 7,
        s == top_k::none_seen(),
    ensures
        forall|n: Neighbor| #[trigger]
            ns.contains(n) && n.dist < kept[6].dist ==> kept.contains(n),
        forall|k: int|
            0 <= k < 7 && (#[trigger] kept[k]).dist != FAR ==> ns.contains(kept[k]),
{
    broadcast use group_to_multiset_ensures;

    let left = choose|left: Seq<Neighbor>|
        #![trigger kept + left]
        {
            &&& (kept + left).to_multiset() == (s + ns).to_multiset()
            &&& forall|i: int, j: int|
                0 <= i < kept.len() && 0 <= j < left.len() ==> #[trigger] kept[i].dist
                    <= #[trigger] left[j].dist
        };
    let a = kept + left;
    let b = s + ns;
    assert forall|n: Neighbor| #[trigger] ns.contains(n) && n.dist
        < kept[6].dist implies kept.contains(n) by {
        let p = choose|p: int| 0 <= p < ns.len() && ns[p] == n;
        assert(b[s.len() + p] == n);
        assert(b.contains(n));
        assert(b.to_multiset().count(n) > 0);
        assert(a.contains(n));
        let q = choose|q: int| 0 <= q < a.len() && a[q] == n;
        if q >= 7 {
            assert(left[q - 7] == n);
            assert(kept[6].dist <= left[q - 7].dist);
        } else {
            assert(kept[q] == n);
        }
    }
    assert forall|k: int| 0 <= k < 7 && (#[trigger] kept[k]).dist != FAR implies ns.contains(
        kept[k],
    ) by {
        assert(a[k] == kept[k]);
        assert(a.contains(kept[k]));
        assert(a.to_multiset().count(kept[k]) > 0);
        assert(b.contains(kept[k]));
        let q = choose|q: int| 0 <= q < b.len() && b[q] == kept[k];
        if q < s.len() {
            assert(s[q] == top_k::nobody());
        } else {
            assert(ns[q - s.len()] == kept[k]);
        }
    }
}

/// What comes out of a search is what the neighbours say that it finds in the first clusters;
/// only if none of them is nearer than 0.05, and their score is between 0.38 and 0.50 or the
/// nearest is farther than 1.5, it is what they say together with those of the other clusters.
/// Nothing comes out exactly if a cluster that is visited is no range of the records.
pub proof fn a_search_says_what_its_neighbours_say<
    D: Fn([u32; 16], [u32; 16]) -> u32,
    S: Fn(Weighing) -> u32,
>(
    offsets: Seq<u32>,
    vectors: Seq<Seq<u32>>,
    query: Query<'_, D>,
    kernel: S,
    probing: Probing,
    order: Seq<usize>,
)
    ensures
        ({
            let l2 = probing.l2 as int;
            let r = outcome(offsets, vectors, query, kernel, probing, order);
            let none = top_k::none_seen();
            match after_clusters(offsets, vectors, query, order, 0, l2, none) {
                None => r is None,
                Some(first) => {
                    let score = verdict(kernel, first).1;
                    let doubtful = first[0].dist >= 0x3d4c_cccd && (first[0].dist > 0x3fc0_0000
                        || 0x3ec2_8f5c < score && score < 0x3f00_0000);
                    let last = after_clusters(
                        offsets,
                        vectors,
                        query,
                        order,
                        l2,
                        probing.extended as int,
                        first,
                    );
                    &&& !doubtful || l2 == probing.extended ==> r == Some(verdict(kernel, first))
                    &&& doubtful ==> (last is None <==> r is None)
                    &&& doubtful && last is Some ==> r == Some(verdict(kernel, last->Some_0))
                },
            }
        }),
{
}

/// Visiting clusters in two goes is visiting them in one, unless the first go ends with a
/// neighbour nearer than 0.05: then it stays at that.
pub proof fn visits_add_up<D: Fn([u32; 16], [u32; 16]) -> u32>(
    offsets: Seq<u32>,
    vectors: Seq<Seq<u32>>,
    query: Query<'_, D>,
    order: Seq<usize>,
    k: int,
    m: int,
    end: int,
    top: Seq<Neighbor>,
)
    requires
        k <= m <= end,
    ensures
        match after_clusters(offsets, vectors, query, order, k, m, top) {
            None => after_clusters(offsets, vectors, query, order, k, end, top) is None,
            Some(middle) => after_clusters(offsets, vectors, query, order, k, end, top) == if k < m
                && middle[0].dist < 0x3d4c_cccd {
                Some(middle)
            } else {
                after_clusters(offsets, vectors, query, order, m, end, middle)
            },
        },
    decreases m - k,
{
    if k < m {
        let next = after_cluster(offsets, vectors, query, order[k] as int, top);
        if is_range(offsets, vectors, order[k] as int) && next[0].dist >= EXACT {
            visits_add_up(offsets, vectors, query, order, k + 1, m, end, next);
        }
    }
}

/// A search goes by an order of the clusters, the nearest first as far as it visits them, and
/// what comes out is the outcome in that order.
pub proof fn a_search_follows_an_order<
    D: Fn([u32; 16], [u32; 16]) -> u32,
    S: Fn(Weighing) -> u32,
>(
    data: IvfData<'_>,
    vectors: Seq<Seq<u32>>,
    query: Query<'_, D>,
    kernel: S,
    probing: Probing,
    r: Option<(bool, u32)>,
)
    requires
        may_come_out(data, vectors, query, kernel, probing, r),
    ensures
        r is Some ==> exists|order: Seq<usize>| #[trigger]
            is_order(data, query, probing, Some(order)) && r == outcome(
                data.offsets(),
                vectors,
                query,
                kernel,
                probing,
                order,
            ),
{
    let order = choose|order: Option<Seq<usize>>| #[trigger]
        is_order(data, query, probing, order) && r == (match order {
            None => None,
            Some(clusters) => outcome(
                data.offsets(),
                vectors,
                query,
                kernel,
                probing,
                clusters,
            ),
        });
    if r is Some {
        assert(is_order(data, query, probing, Some(order->0)));
    }
}

/// Both ways of searching give what may come out; where the index fits the records, both give
/// something.
pub proof fn both_searches_give_what_comes_out<
    D: Fn([u32; 16], [u32; 16]) -> u32,
    S: Fn(Weighing) -> u32,
>(
    index: IvfIndex<'_>,
    query: &Query<'_, D>,
    dataset: &Dataset<'_>,
    probing: Probing,
    kernel: &S,
    tried: Option<(bool, u32)>,
    found: (bool, u32),
)
    requires
        probing.wf(),
        fits(index.data, dataset@),
        call_ensures(
            IvfIndex::<'_>::try_search::<D, S>,
            (&index, query, dataset, probing, kernel),
            tried,
        ),
        call_ensures(
            IvfIndex::<'_>::search::<D, S>,
            (&index, query, dataset, probing, kernel),
            found,
        ),
    ensures
        tried is Some,
        may_come_out(index.data, dataset@, *query, *kernel, probing, tried),
        may_come_out(index.data, dataset@, *query, *kernel, probing, Some(found)),
{
    a_fitting_index_answers(index.data, dataset@, *query, *kernel, probing, tried);
}

/// What seven neighbours say is told as it is: the decision, and the score.
pub proof fn a_verdict_is_told_as_it_is<S: Fn(Weighing) -> u32>(
    top: [Neighbor; 7],
    kernel: &S,
    n: usize,
    r: (bool, u32),
    score: u32,
)
    requires
        is_kernel(*kernel),
        top_k::labelled(top@),
        n <= 7,
        call_ensures(calculate_fraud_score_weighted, (top, kernel), r),
        call_ensures(score_of, (kernel, &top, n), score),
    ensures
        r == verdict(*kernel, top@),
        score == scored(*kernel, top@, n as int),
{
}

/// An index fits the records exactly if it has 256 centroids above and 65536 below, and all
/// clusters lie between their offsets, within the records.
pub proof fn an_index_fits_by_its_offsets(
    index: IvfIndex<'_>,
    dataset: &Dataset<'_>,
    c: int,
    r: bool,
)
    requires
        call_ensures(IvfIndex::<'_>::fits_dataset, (&index, dataset), r),
        0 <= c < 65536,
    ensures
        r ==> index.data.l1_centroids().len() >= 256 && index.data.l2_centroids().len() >= 65536,
        r ==> c + 1 < index.data.offsets().len() && index.data.offsets()[c]
            <= index.data.offsets()[c + 1] <= dataset@.len(),
        !r ==> index.data.l1_centroids().len() < 256 || index.data.l2_centroids().len() < 65536
            || exists|b: int, d: int|
            0 <= b < 65536 && d == b + 1 && !(d < index.data.offsets().len()
                && #[trigger] index.data.offsets()[b] <= #[trigger] index.data.offsets()[d]
                <= dataset@.len()),
{
    let offsets = index.data.offsets();
    if r {
        assert(is_range(offsets, dataset@, c));
    } else if index.data.l1_centroids().len() >= 256 && index.data.l2_centroids().len() >= 65536 {
        let b = choose|b: int| 0 <= b < N_TOTAL_L2 && !#[trigger] is_range(offsets, dataset@, b);
        let d = b + 1;
        assert(!(d < index.data.offsets().len() && index.data.offsets()[b]
            <= index.data.offsets()[d] <= dataset@.len()));
    }
}

/// The widths of a search fit exactly if fewer than 256 centroids are visited above, and below
/// them fewer clusters than there are, not fewer in all than at first. Those that are offered
/// fit.
pub proof fn widths_fit_the_index(p: Probing, r: bool, standard: Probing, adaptive: Probing)
    requires
        call_ensures(Probing::is_wf, (&p,), r),
        call_ensures(Probing::standard, (), standard),
        call_ensures(Probing::adaptive, (), adaptive),
    ensures
        r <==> p.l1 < 256 && p.l2 <= p.extended && p.extended < p.l1 * 256,
        standard.l1 == 8 && standard.l2 == 32 && standard.extended == 32,
        adaptive.l1 == 16 && adaptive.l2 == 256 && adaptive.extended == 512,
{
}

/// The distance of a query to a vector is what the given function gives for its own vector and
/// that one, in this order; and what is computed to weigh neighbours is what the kernel gives.
pub proof fn distances_and_weights_are_what_is_given<
    D: Fn([u32; 16], [u32; 16]) -> u32,
    S: Fn(Weighing) -> u32,
>(query: Query<'_, D>, kernel: S, v: [u32; 16], d: u32, w: Weighing, x: u32)
    requires
        is_measure(query),
        is_kernel(kernel),
        call_ensures(*query.distance, (query.vector, v), d),
        call_ensures(kernel, (w,), x),
    ensures
        measured(query, v@) == d,
        computed(kernel, w) == x,
{
    assert(measures(query, v@, d));
    let chosen = measured(query, v@);
    assert(measures(query, v@, chosen));
    let u = choose|u: [u32; 16]|
        u@ == v@ && #[trigger] call_ensures(*query.distance, (query.vector, u), chosen);
    assert forall|i: int| 0 <= i < 16 implies u[i] == v[i] by {
        assert(u@[i] == v@[i]);
    }
    assert(u =~= v);
}

} // verus!
