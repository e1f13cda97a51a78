//! Building the index of the reference transactions.
//!
//! The records are clustered on two levels: the upper one has 256 clusters, and the records of
//! each of them are clustered into 256 more. The records are then stored cluster by cluster.
use rayon::iter::{IntoParallelIterator, ParallelIterator};
use vstd::prelude::*;
use crate::kmeans;
use crate::kmeans::{init_kmeans_plus_plus, train_k_means, Drawing};
use crate::knn;
use crate::knn::{N_L1, N_L2_PER_L1, N_TOTAL_L2};
use crate::layout;
use crate::layout::lay_out;
use crate::records;
use crate::records::{encode_centroids, encode_records, encode_words, pack, IvfData, Record};
use crate::vectorizer;
use crate::vectorizer::{pack_flags, Feature, FeatureView, FeaturesView, ABSENT};

verus! {

/// The rounds of each clustering.
pub const N_ITERATIONS: usize = 20;

/// A feature of a reference transaction that is scaled, given as the bit pattern of a real
/// number.
#[derive(Clone, Copy, PartialEq, Eq, Structural, Debug)]
pub enum Reference {
    Amount(u32),
    HourSine(u32),
    HourCosine(u32),
    DaySine(u32),
    DayCosine(u32),
    MinutesSinceLast(u32),
    Flags(u8),
}

/// Whether the number with these bits is above one half.
pub open spec fn above_half(bits: u32) -> bool {
    0x3f00_0000 < bits <= 0x7f80_0000
}

/// Whether the number with these bits is zero or positive.
pub open spec fn not_negative(bits: u32) -> bool {
    bits <= 0x7f80_0000 || bits == 0x8000_0000
}

/// What stands at a place of the vector of a reference transaction.
pub enum ReferencePlace {
    /// A feature, scaled.
    Scaled(Reference),
    /// Bits as they are.
    Bits(u32),
}

/// What the vector of a reference transaction says of its label: the bit pattern of one for
/// fraud, else of zero.
pub open spec fn label_bits(fraud: bool) -> u32 {
    if fraud {
        0x3f80_0000
    } else {
        0
    }
}

/// What stands at place `k` of the vector of a reference transaction with the given features
/// and label.
pub open spec fn reference_place(src: Seq<u32>, fraud: bool, k: int) -> ReferencePlace {
    if k == 0 {
        ReferencePlace::Scaled(Reference::Amount(src[0]))
    } else if k == 1 || k == 2 {
        ReferencePlace::Bits(src[k])
    } else if k == 3 {
        ReferencePlace::Scaled(Reference::HourSine(src[3]))
    } else if k == 4 {
        ReferencePlace::Scaled(Reference::HourCosine(src[3]))
    } else if k == 5 {
        ReferencePlace::Scaled(Reference::DaySine(src[4]))
    } else if k == 6 {
        ReferencePlace::Scaled(Reference::DayCosine(src[4]))
    } else if k == 7 {
        if not_negative(src[5]) {
            ReferencePlace::Scaled(Reference::MinutesSinceLast(src[5]))
        } else {
            ReferencePlace::Bits(ABSENT)
        }
    } else if 8 <= k <= 10 {
        ReferencePlace::Bits(src[k - 2])
    } else if k == 11 {
        ReferencePlace::Scaled(
            Reference::Flags(
                vectorizer::flags_of(
                    above_half(src[9]),
                    above_half(src[10]),
                    !above_half(src[11]),
                ),
            ),
        )
    } else if k == 12 || k == 13 {
        ReferencePlace::Bits(src[k])
    } else if k == 15 {
        ReferencePlace::Bits(label_bits(fraud))
    } else {
        ReferencePlace::Bits(0)
    }
}

/// Whether every feature can be scaled.
pub open spec fn is_scale<C: Fn(Reference) -> u32>(scale: C) -> bool {
    forall|f: Reference| #[trigger] call_requires(scale, (f,))
}

/// Whether the bits may stand at a place.
pub open spec fn may_hold<C: Fn(Reference) -> u32>(
    scale: C,
    place: ReferencePlace,
    bits: u32,
) -> bool {
    match place {
        ReferencePlace::Scaled(feature) => call_ensures(scale, (feature,), bits),
        ReferencePlace::Bits(always) => bits == always,
    }
}

/// Whether the number with these bits is above one half.
fn is_above_half(bits: u32) -> (r: bool)
    ensures
        r == above_half(bits),
{
    0x3f00_0000 < bits && bits <= 0x7f80_0000
}

/// The vector of a reference transaction, with its label in its last word.
pub fn convert_record<C: Fn(Reference) -> u32>(
    src: &[u32; 14],
    fraud: bool,
    scale: &C,
) -> (r: [u32; 16])
    requires
        is_scale(*scale),
    ensures
        forall|k: int|
            0 <= k < 16 ==> may_hold(*scale, reference_place(src@, fraud, k), #[trigger] r@[k]),
{
    let mut v: [u32; 16] = [0u32; 16];
    v[0] = scale(Reference::Amount(src[0]));
    v[1] = src[1];
    v[2] = src[2];
    v[3] = scale(Reference::HourSine(src[3]));
    v[4] = scale(Reference::HourCosine(src[3]));
    v[5] = scale(Reference::DaySine(src[4]));
    v[6] = scale(Reference::DayCosine(src[4]));
    if src[5] <= 0x7f80_0000 || src[5] == 0x8000_0000 {
        v[7] = scale(Reference::MinutesSinceLast(src[5]));
    } else {
        v[7] = ABSENT;
    }
    v[8] = src[6];
    v[9] = src[7];
    v[10] = src[8];
    let flags = pack_flags(
        is_above_half(src[9]),
        is_above_half(src[10]),
        !is_above_half(src[11]),
    );
    v[11] = scale(Reference::Flags(flags));
    v[12] = src[12];
    v[13] = src[13];
    if fraud {
        v[15] = 0x3f80_0000;
    }
    v
}

/// The vectors as records, each with its number and its label in its last word, where only the
/// label stood: fraud is what is above one half.
pub open spec fn numbered(vectors: Seq<[u32; 16]>) -> Seq<Seq<u32>> {
    Seq::new(
        vectors.len(),
        |i: int| vectors[i]@.update(15, records::packed(i, above_half(vectors[i]@[15]))),
    )
}

/// Numbers the records and packs their labels.
pub fn number_records(vectors: &Vec<[u32; 16]>) -> (r: Vec<Record>)
    ensures
        records::record_words(r@) == numbered(vectors@),
{
    let mut out: Vec<Record> = Vec::new();
    let mut i: usize = 0;
    while i < vectors.len()
        invariant
            i <= vectors@.len(),
            out@.len() == i,
            forall|k: int| 0 <= k < i ==> (#[trigger] out@[k]).vector@ == numbered(vectors@)[k],
        decreases vectors@.len() - i,
    {
        let mut vector: [u32; 16] = vectors[i];
        vector[15] = pack(i, is_above_half(vector[15]));
        out.push(Record { vector });
        i += 1;
    }
    assert(records::record_words(out@) =~= numbered(vectors@));
    out
}

/// A reference transaction keeps its label when it is numbered, and its features.
pub proof fn numbering_keeps_the_label<C: Fn(Reference) -> u32>(
    scale: C,
    src: Seq<u32>,
    fraud: bool,
    vectors: Seq<[u32; 16]>,
    i: int,
)
    requires
        0 <= i < vectors.len(),
        forall|k: int|
            0 <= k < 16 ==> may_hold(
                scale,
                reference_place(src, fraud, k),
                #[trigger] vectors[i]@[k],
            ),
    ensures
        records::label_of(numbered(vectors)[i][15]) == (if fraud {
            1u8
        } else {
            0u8
        }),
        i < 0x8000_0000 ==> records::id_of(numbered(vectors)[i][15]) == i,
        numbered(vectors)[i].take(15) == vectors[i]@.take(15),
{
    assert(may_hold(scale, reference_place(src, fraud, 15), vectors[i]@[15]));
    records::unpacking_gives_back(i, fraud);
}

/// Whether a feature of a reference transaction is scaled as a feature of a transaction is.
pub open spec fn scales_alike<C: Fn(Reference) -> u32, E: for <'b>Fn(Feature<'b>) -> u32>(
    reference_scale: C,
    scale: E,
    reference: Reference,
    feature: FeatureView,
) -> bool {
    forall|bits: u32| #[trigger]
        call_ensures(reference_scale, (reference,), bits) ==> vectorizer::may_scale(
            scale,
            feature,
            bits,
        )
}

/// Whether the features of a reference transaction are those of a transaction: the amount, the
/// hour, the day, the minutes and the flags are scaled alike, the others are scaled already.
/// They stand in this order: amount, installments, ratio to the average amount, hour, day,
/// minutes since the last transaction, kilometres from it, kilometres from home, transactions
/// of the day, whether online, whether the card was present, whether the merchant is unknown,
/// risk of the kind of merchant, and average amount of the merchant.
pub open spec fn describes<C: Fn(Reference) -> u32, E: for <'b>Fn(Feature<'b>) -> u32>(
    reference_scale: C,
    scale: E,
    risks: Seq<u32>,
    src: Seq<u32>,
    f: FeaturesView,
) -> bool {
    &&& scales_alike(
        reference_scale,
        scale,
        Reference::Amount(src[0]),
        FeatureView::Amount(f.amount),
    )
    &&& vectorizer::may_scale(scale, FeatureView::Installments(f.installments), src[1])
    &&& vectorizer::may_scale(
        scale,
        FeatureView::AmountRatio(f.amount, f.customer_avg_amount),
        src[2],
    )
    &&& scales_alike(
        reference_scale,
        scale,
        Reference::HourSine(src[3]),
        FeatureView::HourSine(f.hour),
    )
    &&& scales_alike(
        reference_scale,
        scale,
        Reference::HourCosine(src[3]),
        FeatureView::HourCosine(f.hour),
    )
    &&& scales_alike(
        reference_scale,
        scale,
        Reference::DaySine(src[4]),
        FeatureView::DaySine(f.weekday),
    )
    &&& scales_alike(
        reference_scale,
        scale,
        Reference::DayCosine(src[4]),
        FeatureView::DayCosine(f.weekday),
    )
    &&& match f.since_last {
        Some((minutes, km)) => {
            &&& not_negative(src[5])
            &&& scales_alike(
                reference_scale,
                scale,
                Reference::MinutesSinceLast(src[5]),
                FeatureView::MinutesSinceLast(minutes),
            )
            &&& vectorizer::may_scale(scale, FeatureView::KmFromLast(km), src[6])
        },
        None => !not_negative(src[5]) && src[6] == ABSENT,
    }
    &&& vectorizer::may_scale(scale, FeatureView::KmFromHome(f.km_from_home), src[7])
    &&& vectorizer::may_scale(scale, FeatureView::TxCount(f.tx_count_24h), src[8])
    &&& f.flags == vectorizer::flags_of(
        above_half(src[9]),
        above_half(src[10]),
        !above_half(src[11]),
    )
    &&& scales_alike(
        reference_scale,
        scale,
        Reference::Flags(f.flags),
        FeatureView::Flags(f.flags),
    )
    &&& src[12] == risks[f.mcc as int]
    &&& vectorizer::may_scale(
        scale,
        FeatureView::MerchantAvgAmount(f.merchant_avg_amount),
        src[13],
    )
}

/// Records and queries have the same features at the same places: a reference transaction with
/// the features of a transaction has, but for its last word, a vector of that transaction; and
/// it is the same vector if a feature is always scaled to the same number.
pub proof fn records_and_queries_have_the_same_features<
    C: Fn(Reference) -> u32,
    E: for <'b>Fn(Feature<'b>) -> u32,
>(
    reference_scale: C,
    scale: E,
    risks: Seq<u32>,
    src: Seq<u32>,
    fraud: bool,
    f: FeaturesView,
    record: Seq<u32>,
    query: Seq<u32>,
)
    requires
        describes(reference_scale, scale, risks, src, f),
        forall|k: int|
            0 <= k < 16 ==> may_hold(
                reference_scale,
                reference_place(src, fraud, k),
                #[trigger] record[k],
            ),
        vectorizer::is_vector(scale, risks, f, query),
    ensures
        forall|k: int|
            0 <= k < 15 ==> vectorizer::may_hold(
                scale,
                risks,
                vectorizer::place(f, k),
                #[trigger] record[k],
            ),
        (forall|feature: FeatureView, b1: u32, b2: u32| #[trigger]
            vectorizer::may_scale(scale, feature, b1) && #[trigger] vectorizer::may_scale(
                scale,
                feature,
                b2,
            ) ==> b1 == b2) ==> forall|k: int|
            0 <= k < 15 ==> #[trigger] record[k] == query[k],
{
    assert forall|k: int| 0 <= k < 15 implies vectorizer::may_hold(
        scale,
        risks,
        vectorizer::place(f, k),
        #[trigger] record[k],
    ) by {
        assert(may_hold(reference_scale, reference_place(src, fraud, k), record[k]));
    }
    if forall|feature: FeatureView, b1: u32, b2: u32| #[trigger]
        vectorizer::may_scale(scale, feature, b1) && #[trigger] vectorizer::may_scale(
            scale,
            feature,
            b2,
        ) ==> b1 == b2 {
        assert forall|k: int| 0 <= k < 15 implies #[trigger] record[k] == query[k] by {
            assert(vectorizer::may_hold(scale, risks, vectorizer::place(f, k), record[k]));
            assert(vectorizer::may_hold(scale, risks, vectorizer::place(f, k), query[k]));
        }
    }
}

/// The records at the given places.
pub open spec fn gathered(records: Seq<Record>, places: Seq<usize>) -> Seq<Record> {
    places.map_values(|p: usize| records[p as int])
}

/// Gathers the records at the given places.
fn gather(records: &[Record], places: &Vec<usize>) -> (r: Vec<Record>)
    requires
        forall|k: int| 0 <= k < places@.len() ==> #[trigger] places@[k] < records@.len(),
    ensures
        r@ == gathered(records@, places@),
{
    let mut out: Vec<Record> = Vec::new();
    let mut k: usize = 0;
    while k < places.len()
        invariant
            k <= places@.len(),
            forall|j: int| 0 <= j < places@.len() ==> #[trigger] places@[j] < records@.len(),
            out@ =~= gathered(records@, places@).take(k as int),
        decreases places@.len() - k,
    {
        out.push(records[places[k]]);
        k += 1;
    }
    assert(out@ =~= gathered(records@, places@));
    out
}

/// The members of each of `n` clusters.
fn group(assignments: &Vec<usize>, n: usize) -> (r: Vec<Vec<usize>>)
    requires
        forall|i: int| 0 <= i < assignments@.len() ==> #[trigger] assignments@[i] < n,
    ensures
        r@.len() == n,
        forall|c: int| 0 <= c < n ==> (#[trigger] r@[c])@ == layout::members(assignments@, c),
{
    let mut groups: Vec<Vec<usize>> = Vec::new();
    let mut c: usize = 0;
    while c < n
        invariant
            c <= n,
            groups@.len() == c,
            forall|b: int| 0 <= b < c ==> (#[trigger] groups@[b])@ == Seq::<usize>::empty(),
        decreases n - c,
    {
        groups.push(Vec::new());
        c += 1;
    }
    let mut i: usize = 0;
    while i < assignments.len()
        invariant
            i <= assignments@.len(),
            groups@.len() == n,
            forall|k: int| 0 <= k < assignments@.len() ==> #[trigger] assignments@[k] < n,
            forall|b: int|
                0 <= b < n ==> (#[trigger] groups@[b])@ == layout::places_of(
                    assignments@,
                    b,
                    i as int,
                ),
        decreases assignments@.len() - i,
    {
        let a = assignments[i];
        groups[a].push(i);
        i += 1;
    }
    groups
}

/// rayon's `into_par_iter`, `map` and `collect` on the numbers below `n`: what the function
/// gives for each of them, in their order; the order in which the calls happen is open.
#[verifier::external_body]
pub(crate) fn par_map<R: Send, F: Fn(usize) -> R + Sync>(n: usize, f: F) -> (r: Vec<R>)
    requires
        forall|i: usize| i < n ==> #[trigger] call_requires(f, (i,)),
    ensures
        r@.len() == n,
        forall|i: int| 0 <= i < n ==> call_ensures(f, (i as usize,), #[trigger] r@[i]),
{
    (0..n).into_par_iter().map(|i| f(i)).collect()
}

/// The arithmetic of a clustering: the distance of two vectors, their sum, a vector divided by
/// a number, and how a record is drawn.
pub struct Arithmetic<D, P, Q, A, T, O> {
    pub distance: D,
    pub plus: P,
    pub over: Q,
    pub drawing: Drawing<A, T, O>,
}

impl<
    D: Fn([u32; 16], [u32; 16]) -> u32 + Sync,
    P: Fn([u32; 16], [u32; 16]) -> [u32; 16] + Sync,
    Q: Fn([u32; 16], usize) -> [u32; 16] + Sync,
    A: Fn(u32, u32) -> u32 + Sync,
    T: Fn(u32, u32) -> u32 + Sync,
    O: Fn(u32, u32) -> u32 + Sync,
> Arithmetic<D, P, Q, A, T, O> {
    /// All operations can be done, and their results are always the same.
    pub open spec fn wf(&self) -> bool {
        &&& kmeans::is_distance(self.distance)
        &&& kmeans::is_sum(self.plus)
        &&& kmeans::is_quotient(self.over)
        &&& self.drawing.wf()
    }

    /// Whether a clustering may start with these centroids: zeros without records, else the
    /// vectors of a record and of other ones, as the generator gives a place and words for
    /// them.
    pub open spec fn is_start(
        &self,
        records: Seq<Record>,
        n: int,
        centroids: Seq<[u32; 16]>,
    ) -> bool {
        &&& centroids.len() == n
        &&& records.len() == 0 ==> forall|c: int|
            0 <= c < n ==> #[trigger] centroids[c] == kmeans::origin()
        &&& records.len() > 0 ==> exists|first: usize, words: Seq<u32>| #[trigger]
            kmeans::may_draw(records.len() as usize, first, words) && first < records.len()
                && words.len() == n - 1 && centroids == kmeans::spread_of(
                self.distance,
                self.drawing,
                records,
                first as int,
                words,
                n - 1,
            )
    }

    /// The centroids after so many rounds.
    pub open spec fn after_rounds(
        &self,
        records: Seq<Record>,
        start: Seq<[u32; 16]>,
        rounds: int,
    ) -> Seq<[u32; 16]> {
        kmeans::trained(
            self.distance,
            self.plus,
            self.over,
            records,
            records.len(),
            start,
            rounds,
        )
    }

    /// Whether the records may be clustered so: the centroids are trained from a start, and
    /// each record is assigned the centroid that was nearest in the last round.
    pub open spec fn is_clustering(
        &self,
        records: Seq<Record>,
        n: int,
        centroids: Seq<[u32; 16]>,
        assignments: Seq<usize>,
    ) -> bool {
        exists|start: Seq<[u32; 16]>| #[trigger]
            self.is_start(records, n, start) && centroids == self.after_rounds(
                records,
                start,
                N_ITERATIONS as int,
            ) && assignments == kmeans::assignment(
                self.distance,
                records,
                records.len(),
                self.after_rounds(records, start, N_ITERATIONS - 1),
            )
    }

    /// Whether the records of cluster `c` of the upper level may be clustered so on the lower
    /// one.
    pub open spec fn is_block(
        &self,
        records: Seq<Record>,
        upper: Seq<usize>,
        c: int,
        centroids: Seq<[u32; 16]>,
        assignments: Seq<usize>,
    ) -> bool {
        exists|lower: Seq<usize>| #[trigger]
            self.is_clustering(
                gathered(records, layout::members(upper, c)),
                N_L2_PER_L1 as int,
                centroids.subrange(c * N_L2_PER_L1, (c + 1) * N_L2_PER_L1),
                lower,
            ) && forall|k: int|
                0 <= k < layout::members(upper, c).len() ==> assignments[#[trigger] layout::members(
                    upper,
                    c,
                )[k] as int] == c * N_L2_PER_L1 + lower[k]
    }

    /// Whether the records may be clustered so on both levels.
    pub open spec fn is_hierarchy(
        &self,
        records: Seq<Record>,
        l1: Seq<[u32; 16]>,
        l2: Seq<[u32; 16]>,
        assignments: Seq<usize>,
    ) -> bool {
        &&& l2.len() == N_TOTAL_L2
        &&& assignments.len() == records.len()
        &&& exists|upper: Seq<usize>|
            {
                &&& #[trigger] self.is_clustering(records, N_L1 as int, l1, upper)
                &&& forall|c: int|
                    0 <= c < N_L1 ==> #[trigger] self.is_block(records, upper, c, l2, assignments)
            }
    }

    /// Clusters the records.
    fn cluster(&self, records: &[Record], n: usize) -> (r: (Vec<[u32; 16]>, Vec<usize>))
        requires
            self.wf(),
            n > 0,
        ensures
            self.is_clustering(records@, n as int, r.0@, r.1@),
            r.0@.len() == n,
            r.1@.len() == records@.len(),
            forall|i: int| 0 <= i < r.1@.len() ==> #[trigger] r.1@[i] < n,
    {
        let mut centroids = init_kmeans_plus_plus(records, n, &self.distance, &self.drawing);
        let ghost start = centroids@;
        let mut assignments: Vec<usize> = Vec::new();
        let count = records.len();
        while assignments.len() < count
            invariant
                assignments@.len() <= count,
            decreases count - assignments@.len(),
        {
            assignments.push(0);
        }
        train_k_means(
            records,
            &mut centroids,
            &mut assignments,
            N_ITERATIONS,
            &self.distance,
            &self.plus,
            &self.over,
        );
        proof {
            assert(records@.len() as usize == records.len());
            assert(self.is_start(records@, n as int, start));
            let before = self.after_rounds(records@, start, N_ITERATIONS - 1);
            kmeans::training_keeps_the_number(
                self.distance,
                self.plus,
                self.over,
                records@,
                records@.len(),
                start,
                N_ITERATIONS - 1,
            );
            assert forall|i: int| 0 <= i < assignments@.len() implies #[trigger] assignments@[i]
                < n by {
                kmeans::the_first_nearest_is_chosen(self.distance, records@[i].vector, before);
            }
        }
        (centroids, assignments)
    }

    /// Clusters the records on both levels.
    fn cluster_twice(&self, records: &[Record]) -> (r: (
        Vec<[u32; 16]>,
        Vec<[u32; 16]>,
        Vec<usize>,
    ))
        requires
            self.wf(),
        ensures
            self.is_hierarchy(records@, r.0@, r.1@, r.2@),
            r.0@.len() == N_L1,
            forall|i: int| 0 <= i < r.2@.len() ==> #[trigger] r.2@[i] < N_TOTAL_L2,
    {
        let (l1, upper) = self.cluster(records, N_L1);
        let groups = group(&upper, N_L1);
        let count = records.len();
        proof {
            assert forall|c: int, k: int|
                0 <= c < N_L1 && 0 <= k < (#[trigger] groups@[c])@.len() implies (
            #[trigger] groups@[c]@[k]) < records@.len() by {
                assert(upper@.len() == upper.len());
                layout::members_are_assigned(upper@, c, upper@.len() as int);
            }
        }
        let f = |c: usize| -> (r: (Vec<[u32; 16]>, Vec<usize>))
            requires
                c < N_L1,
            ensures
                self.is_clustering(
                    gathered(records@, layout::members(upper@, c as int)),
                    N_L2_PER_L1 as int,
                    r.0@,
                    r.1@,
                ),
                r.0@.len() == N_L2_PER_L1,
                r.1@.len() == layout::members(upper@, c as int).len(),
                forall|i: int| 0 <= i < r.1@.len() ==> #[trigger] r.1@[i] < N_L2_PER_L1,
            {
                let group_records = gather(records, &groups[c]);
                self.cluster(group_records.as_slice(), N_L2_PER_L1)
            };
        let blocks = par_map(N_L1, f);
        let mut l2: Vec<[u32; 16]> = Vec::new();
        let mut assignments: Vec<usize> = Vec::new();
        while assignments.len() < count
            invariant
                assignments@.len() <= count,
                forall|i: int| 0 <= i < assignments@.len() ==> #[trigger] assignments@[i] == 0,
            decreases count - assignments@.len(),
        {
            assignments.push(0);
        }
        let mut c: usize = 0;
        while c < N_L1
            invariant
                c <= N_L1,
                blocks@.len() == N_L1,
                groups@.len() == N_L1,
                upper@.len() == records@.len(),
                upper@.len() <= usize::MAX,
                assignments@.len() == records@.len(),
                forall|b: int|
                    0 <= b < N_L1 ==> (#[trigger] groups@[b])@ == layout::members(upper@, b),
                forall|b: int|
                    0 <= b < N_L1 ==> {
                        let block = #[trigger] blocks@[b];
                        &&& self.is_clustering(
                            gathered(records@, layout::members(upper@, b)),
                            N_L2_PER_L1 as int,
                            block.0@,
                            block.1@,
                        )
                        &&& block.0@.len() == N_L2_PER_L1
                        &&& block.1@.len() == layout::members(upper@, b).len()
                        &&& forall|i: int|
                            0 <= i < block.1@.len() ==> #[trigger] block.1@[i] < N_L2_PER_L1
                    },
                l2@.len() == c * N_L2_PER_L1,
                forall|b: int|
                    0 <= b < c ==> l2@.subrange(b * N_L2_PER_L1, (b + 1) * N_L2_PER_L1) == (
                    #[trigger] blocks@[b]).0@,
                forall|i: int|
                    0 <= i < assignments@.len() ==> #[trigger] assignments@[i] < N_TOTAL_L2,
                forall|b: int, k: int|
                    0 <= b < c && 0 <= k < layout::members(upper@, b).len()
                        ==> assignments@[#[trigger] layout::members(upper@, b)[k] as int] == b
                        * N_L2_PER_L1 + blocks@[b].1@[k],
            decreases N_L1 - c,
        {
            let block = &blocks[c];
            let ghost l2_before = l2@;
            let mut i: usize = 0;
            while i < N_L2_PER_L1
                invariant
                    i <= N_L2_PER_L1,
                    block.0@.len() == N_L2_PER_L1,
                    l2@ =~= l2_before + block.0@.take(i as int),
                decreases N_L2_PER_L1 - i,
            {
                l2.push(block.0[i]);
                i += 1;
            }
            proof {
                assert(block.0@.take(N_L2_PER_L1 as int) =~= block.0@);
                assert forall|b: int| 0 <= b < c + 1 implies l2@.subrange(
                    b * N_L2_PER_L1,
                    (b + 1) * N_L2_PER_L1,
                ) == (#[trigger] blocks@[b]).0@ by {
                    let part = l2@.subrange(b * N_L2_PER_L1, (b + 1) * N_L2_PER_L1);
                    if b < c {
                        assert(part =~= l2_before.subrange(
                            b * N_L2_PER_L1,
                            (b + 1) * N_L2_PER_L1,
                        ));
                    } else {
                        assert(part =~= blocks@[b].0@);
                    }
                }
                layout::members_are_assigned(upper@, c as int, upper@.len() as int);
            }
            let places = &groups[c];
            assert(places@ == layout::members(upper@, c as int));
            let ghost before = assignments@;
            let mut k: usize = 0;
            while k < places.len()
                invariant
                    k <= places@.len(),
                    c < N_L1,
                    places@ == layout::members(upper@, c as int),
                    places@ == layout::places_of(upper@, c as int, upper@.len() as int),
                    places@.len() == block.1@.len(),
                    upper@.len() == records@.len(),
                    assignments@.len() == records@.len(),
                    before.len() == assignments@.len(),
                    forall|i: int| 0 <= i < block.1@.len() ==> #[trigger] block.1@[i] < N_L2_PER_L1,
                    forall|j: int|
                        0 <= j < places@.len() ==> (#[trigger] places@[j]) < upper@.len()
                            && upper@[places@[j] as int] == c,
                    forall|j: int, l: int|
                        0 <= j < l < places@.len() ==> #[trigger] places@[j]
                            < #[trigger] places@[l],
                    forall|i: int|
                        0 <= i < assignments@.len() ==> #[trigger] assignments@[i] < N_TOTAL_L2,
                    forall|i: int|
                        0 <= i < assignments@.len() && upper@[i] != c
                            ==> #[trigger] assignments@[i] == before[i],
                    forall|j: int|
                        0 <= j < k ==> assignments@[#[trigger] places@[j] as int] == c * N_L2_PER_L1
                            + block.1@[j],
                decreases places@.len() - k,
            {
                let p = places[k];
                assignments[p] = c * N_L2_PER_L1 + block.1[k];
                k += 1;
            }
            proof {
                assert forall|b: int, j: int|
                    0 <= b < c + 1 && 0 <= j < layout::members(
                        upper@,
                        b,
                    ).len() implies assignments@[#[trigger] layout::members(upper@, b)[j] as int]
                    == b * N_L2_PER_L1 + blocks@[b].1@[j] by {
                    if b < c {
                        layout::members_are_assigned(upper@, b, upper@.len() as int);
                        let p = layout::members(upper@, b)[j] as int;
                        assert(upper@[p] == b);
                        assert(assignments@[p] == before[p]);
                    } else {
                        assert(places@[j] == layout::members(upper@, b)[j]);
                    }
                }
            }
            c += 1;
        }
        proof {
            assert forall|b: int| 0 <= b < N_L1 implies #[trigger] self.is_block(
                records@,
                upper@,
                b,
                l2@,
                assignments@,
            ) by {
                let block = blocks@[b];
                assert(self.is_clustering(
                    gathered(records@, layout::members(upper@, b)),
                    N_L2_PER_L1 as int,
                    l2@.subrange(b * N_L2_PER_L1, (b + 1) * N_L2_PER_L1),
                    block.1@,
                ));
            }
            assert(self.is_clustering(records@, N_L1 as int, l1@, upper@));
        }
        (l1, l2, assignments)
    }

    /// Whether the records may be stored so: cluster by cluster, with the centroids of both
    /// levels and the offsets of the clusters.
    pub open spec fn is_index(&self, records: Seq<Record>, artifacts: Artifacts) -> bool {
        exists|l1: Seq<[u32; 16]>, l2: Seq<[u32; 16]>, assignments: Seq<usize>| #[trigger]
            self.is_hierarchy(records, l1, l2, assignments) && stores(
                artifacts,
                records,
                l1,
                l2,
                assignments,
            )
    }

    /// Builds the index of the records.
    pub fn build_index(&self, records: &[Record]) -> (r: Artifacts)
        requires
            self.wf(),
            records@.len() <= u32::MAX,
        ensures
            self.is_index(records@, r),
    {
        let (l1, l2, assignments) = self.cluster_twice(records);
        let (offsets, order) = lay_out(&assignments, N_TOTAL_L2);
        proof {
            assert(assignments@.len() == assignments.len());
            lemma_laid_out_are_places(assignments@, N_TOTAL_L2 as int);
        }
        let sorted = gather(records, &order);
        let artifacts = Artifacts {
            dataset: encode_records(sorted.as_slice()),
            l1_centroids: encode_centroids(&l1),
            l2_centroids: encode_centroids(&l2),
            offsets: encode_words(offsets.as_slice()),
        };
        proof {
            assert(layout::are_offsets(offsets@, assignments@, N_TOTAL_L2 as int));
            assert(stores(artifacts, records@, l1@, l2@, assignments@));
        }
        artifacts
    }

    /// An index that was built from records fits what is stored of them: whatever is searched
    /// for there is an answer.
    pub proof fn a_built_index_fits(
        &self,
        records: Seq<Record>,
        artifacts: Artifacts,
        data: IvfData<'_>,
    )
        requires
            self.is_index(records, artifacts),
            data.l1_bytes@ == artifacts.l1_centroids@,
            data.l2_bytes@ == artifacts.l2_centroids@,
            data.offset_bytes@ == artifacts.offsets@,
        ensures
            knn::fits(data, records::vectors(artifacts.dataset@)),
    {
        let (l1, l2, assignments) = choose|
            l1: Seq<[u32; 16]>,
            l2: Seq<[u32; 16]>,
            assignments: Seq<usize>,
        | #[trigger]
            self.is_hierarchy(records, l1, l2, assignments) && stores(
                artifacts,
                records,
                l1,
                l2,
                assignments,
            );
        let upper = choose|upper: Seq<usize>|
            {
                &&& #[trigger] self.is_clustering(records, N_L1 as int, l1, upper)
                &&& forall|c: int|
                    0 <= c < N_L1 ==> #[trigger] self.is_block(records, upper, c, l2, assignments)
            };
        let start = choose|start: Seq<[u32; 16]>| #[trigger]
            self.is_start(records, N_L1 as int, start) && l1 == self.after_rounds(
                records,
                start,
                N_ITERATIONS as int,
            ) && upper == kmeans::assignment(
                self.distance,
                records,
                records.len(),
                self.after_rounds(records, start, N_ITERATIONS - 1),
            );
        kmeans::training_keeps_the_number(
            self.distance,
            self.plus,
            self.over,
            records,
            records.len(),
            start,
            N_ITERATIONS as int,
        );
        assert(l1.len() == N_L1);
        records::written_centroids_are_read_back(l1);
        records::written_centroids_are_read_back(l2);
        let vectors = records::vectors(artifacts.dataset@);
        assert forall|c: int| 0 <= c < N_TOTAL_L2 implies #[trigger] knn::is_range(
            data.offsets(),
            vectors,
            c,
        ) by {
            a_stored_cluster_is_read_back(artifacts, records, l1, l2, assignments, c);
        }
    }
}

/// What the index is stored as.
pub struct Artifacts {
    pub dataset: Vec<u8>,
    pub l1_centroids: Vec<u8>,
    pub l2_centroids: Vec<u8>,
    pub offsets: Vec<u8>,
}

/// Whether the artifacts hold the records in the order of their clusters, the centroids and
/// the offsets.
pub open spec fn stores(
    artifacts: Artifacts,
    records: Seq<Record>,
    l1: Seq<[u32; 16]>,
    l2: Seq<[u32; 16]>,
    assignments: Seq<usize>,
) -> bool {
    &&& artifacts.dataset@ == records::written_vectors(
        records::record_words(
            gathered(records, layout::laid_out(assignments, N_TOTAL_L2 as int)),
        ),
    )
    &&& artifacts.l1_centroids@ == records::written_centroids(l1)
    &&& artifacts.l2_centroids@ == records::written_centroids(l2)
    &&& exists|offsets: Seq<u32>| #[trigger]
        layout::are_offsets(offsets, assignments, N_TOTAL_L2 as int) && artifacts.offsets@
            == records::written(offsets)
}

proof fn lemma_laid_out_are_places(assignments: Seq<usize>, n: int)
    requires
        assignments.len() <= usize::MAX,
    ensures
        forall|k: int|
            0 <= k < layout::laid_out(assignments, n).len() ==> #[trigger] layout::laid_out(
                assignments,
                n,
            )[k] < assignments.len(),
    decreases n,
{
    if n > 0 {
        lemma_laid_out_are_places(assignments, n - 1);
        layout::members_are_assigned(assignments, n - 1, assignments.len() as int);
        let front = layout::laid_out(assignments, n - 1);
        let last = layout::members(assignments, n - 1);
        assert forall|k: int| 0 <= k < (front + last).len() implies #[trigger] (front + last)[k]
            < assignments.len() by {
            if k < front.len() {
                assert((front + last)[k] == front[k]);
            } else {
                assert((front + last)[k] == last[k - front.len()]);
            }
        }
    }
}

/// What is read between the offset of a cluster and the next one are the records that are
/// assigned to it, all of them and no others, and in the order in which they came.
pub proof fn a_stored_cluster_is_read_back(
    artifacts: Artifacts,
    records: Seq<Record>,
    l1: Seq<[u32; 16]>,
    l2: Seq<[u32; 16]>,
    assignments: Seq<usize>,
    c: int,
)
    requires
        stores(artifacts, records, l1, l2, assignments),
        0 <= c < N_TOTAL_L2,
    ensures
        ({
            let offsets = records::words(artifacts.offsets@);
            let vectors = records::vectors(artifacts.dataset@);
            &&& offsets.len() == N_TOTAL_L2 + 1
            &&& offsets[c] <= offsets[c + 1] <= vectors.len()
            &&& vectors.subrange(offsets[c] as int, offsets[c + 1] as int)
                == records::record_words(gathered(records, layout::members(assignments, c)))
        }),
{
    let offsets = choose|offsets: Seq<u32>| #[trigger]
        layout::are_offsets(offsets, assignments, N_TOTAL_L2 as int) && artifacts.offsets@
            == records::written(offsets);
    records::written_words_are_read_back(offsets);
    let order = layout::laid_out(assignments, N_TOTAL_L2 as int);
    let stored = records::record_words(gathered(records, order));
    records::written_vectors_are_read_back(stored);
    layout::a_cluster_lies_between_its_offsets(offsets, assignments, N_TOTAL_L2 as int, c);
    let start = offsets[c] as int;
    let end = offsets[c + 1] as int;
    let members = layout::members(assignments, c);
    assert forall|k: int| 0 <= k < members.len() implies order[start + k] == members[k] by {
        assert(order.subrange(start, end)[k] == members[k]);
    }
    assert(order.subrange(start, end).len() == end - start);
    assert(stored.subrange(start, end) =~= records::record_words(gathered(records, members)));
}

/// The vector of a reference transaction keeps at places 1, 2, 8, 9, 10, 12 and 13 what was
/// scaled already, and has at 0, 3, 4, 5, 6, 7 and 11 what is scaled now; place 15 tells fraud
/// by the bits of one, and no fraud by zero.
pub proof fn each_reference_feature_has_its_place<C: Fn(Reference) -> u32>(
    src: &[u32; 14],
    fraud: bool,
    scale: &C,
    r: [u32; 16],
)
    requires
        is_scale(*scale),
        call_ensures(convert_record, (src, fraud, scale), r),
    ensures
        call_ensures(*scale, (Reference::Amount(src@[0]),), r@[0]),
        r@[1] == src@[1],
        r@[2] == src@[2],
        call_ensures(*scale, (Reference::HourSine(src@[3]),), r@[3]),
        call_ensures(*scale, (Reference::HourCosine(src@[3]),), r@[4]),
        call_ensures(*scale, (Reference::DaySine(src@[4]),), r@[5]),
        call_ensures(*scale, (Reference::DayCosine(src@[4]),), r@[6]),
        src@[5] <= 0x7f80_0000 || src@[5] == 0x8000_0000 ==> call_ensures(
            *scale,
            (Reference::MinutesSinceLast(src@[5]),),
            r@[7],
        ),
        src@[5] > 0x7f80_0000 && src@[5] != 0x8000_0000 ==> r@[7] == 0xbf80_0000,
        r@[8] == src@[6],
        r@[9] == src@[7],
        r@[10] == src@[8],
        exists|flags: u8| #[trigger]
            call_ensures(*scale, (Reference::Flags(flags),), r@[11]) && flags == vectorizer::flags_of(
                0x3f00_0000 < src@[9] <= 0x7f80_0000,
                0x3f00_0000 < src@[10] <= 0x7f80_0000,
                !(0x3f00_0000 < src@[11] <= 0x7f80_0000),
            ),
        r@[12] == src@[12],
        r@[13] == src@[13],
        r@[14] == 0,
        r@[15] == if fraud {
            0x3f80_0000u32
        } else {
            0u32
        },
{
    assert forall|k: int| 0 <= k < 16 implies may_hold(
        *scale,
        reference_place(src@, fraud, k),
        #[trigger] r@[k],
    ) by {}
    assert(may_hold(*scale, reference_place(src@, fraud, 0), r@[0]));
    assert(may_hold(*scale, reference_place(src@, fraud, 11), r@[11]));
}

/// Records are numbered in their order; a number takes the place of the last word, with the
/// label in its lowest bit, and the other words stay.
pub proof fn records_are_numbered_in_their_order(
    vectors: &Vec<[u32; 16]>,
    r: Vec<Record>,
    i: int,
)
    requires
        call_ensures(number_records, (vectors,), r),
        0 <= i < vectors@.len(),
        i < 0x8000_0000,
    ensures
        r@.len() == vectors@.len(),
        forall|k: int| 0 <= k < 15 ==> #[trigger] r@[i].vector@[k] == vectors@[i]@[k],
        r@[i].vector@[15] == 2 * i + (if 0x3f00_0000 < vectors@[i]@[15] <= 0x7f80_0000 {
            1int
        } else {
            0
        }),
{
    assert(records::record_words(r@).len() == r@.len());
    assert(records::record_words(r@)[i] == r@[i].vector@);
    assert(numbered(vectors@)[i] == vectors@[i]@.update(
        15,
        records::packed(i, above_half(vectors@[i]@[15])),
    ));
}

/// A clustering starts with as many centroids as there are clusters, and goes through twenty
/// rounds; the assignments are those of the last one.
pub proof fn a_clustering_has_twenty_rounds<
    D: Fn([u32; 16], [u32; 16]) -> u32 + Sync,
    P: Fn([u32; 16], [u32; 16]) -> [u32; 16] + Sync,
    Q: Fn([u32; 16], usize) -> [u32; 16] + Sync,
    A: Fn(u32, u32) -> u32 + Sync,
    T: Fn(u32, u32) -> u32 + Sync,
    O: Fn(u32, u32) -> u32 + Sync,
>(
    how: Arithmetic<D, P, Q, A, T, O>,
    records: Seq<Record>,
    n: int,
    centroids: Seq<[u32; 16]>,
    assignments: Seq<usize>,
)
    requires
        how.is_clustering(records, n, centroids, assignments),
    ensures
        exists|start: Seq<[u32; 16]>| #[trigger]
            how.is_start(records, n, start) && start.len() == n && centroids == kmeans::trained(
                how.distance,
                how.plus,
                how.over,
                records,
                records.len(),
                start,
                20,
            ) && assignments == kmeans::assignment(
                how.distance,
                records,
                records.len(),
                kmeans::trained(
                    how.distance,
                    how.plus,
                    how.over,
                    records,
                    records.len(),
                    start,
                    19,
                ),
            ),
{
    let start = choose|start: Seq<[u32; 16]>| #[trigger]
        how.is_start(records, n, start) && centroids == how.after_rounds(
            records,
            start,
            N_ITERATIONS as int,
        ) && assignments == kmeans::assignment(
            how.distance,
            records,
            records.len(),
            how.after_rounds(records, start, N_ITERATIONS - 1),
        );
    assert(how.is_start(records, n, start));
}

/// A clustering starts with vectors of records, where there are any: the first is drawn by its
/// place, the others by words of the generator. Without records it starts with zeros.
pub proof fn a_clustering_starts_with_records<
    D: Fn([u32; 16], [u32; 16]) -> u32 + Sync,
    P: Fn([u32; 16], [u32; 16]) -> [u32; 16] + Sync,
    Q: Fn([u32; 16], usize) -> [u32; 16] + Sync,
    A: Fn(u32, u32) -> u32 + Sync,
    T: Fn(u32, u32) -> u32 + Sync,
    O: Fn(u32, u32) -> u32 + Sync,
>(
    how: Arithmetic<D, P, Q, A, T, O>,
    records: Seq<Record>,
    n: int,
    start: Seq<[u32; 16]>,
    c: int,
)
    requires
        how.is_start(records, n, start),
        0 <= c < n,
    ensures
        start.len() == n,
        records.len() == 0 ==> forall|k: int| 0 <= k < 16 ==> #[trigger] start[c]@[k] == 0,
        records.len() > 0 ==> exists|first: usize, words: Seq<u32>| #[trigger]
            kmeans::may_draw(records.len() as usize, first, words) && first < records.len()
                && words.len() == n - 1 && start == kmeans::spread_of(
                how.distance,
                how.drawing,
                records,
                first as int,
                words,
                n - 1,
            ),
{
    if records.len() == 0 {
        assert(start[c] == kmeans::origin());
        kmeans::lemma_origin();
    }
}

/// The clusters of the lower level lie below those of the upper one: the records are clustered
/// into 256, and those of each of these once more into 256, in their order; so the number of
/// the cluster of a record tells both.
pub proof fn lower_clusters_lie_below_upper_ones<
    D: Fn([u32; 16], [u32; 16]) -> u32 + Sync,
    P: Fn([u32; 16], [u32; 16]) -> [u32; 16] + Sync,
    Q: Fn([u32; 16], usize) -> [u32; 16] + Sync,
    A: Fn(u32, u32) -> u32 + Sync,
    T: Fn(u32, u32) -> u32 + Sync,
    O: Fn(u32, u32) -> u32 + Sync,
>(
    how: Arithmetic<D, P, Q, A, T, O>,
    records: Seq<Record>,
    l1: Seq<[u32; 16]>,
    l2: Seq<[u32; 16]>,
    assignments: Seq<usize>,
    c: int,
)
    requires
        how.is_hierarchy(records, l1, l2, assignments),
        records.len() <= usize::MAX,
        0 <= c < 256,
    ensures
        l2.len() == 65536,
        assignments.len() == records.len(),
        exists|upper: Seq<usize>, members: Seq<usize>, below: Seq<Record>, lower: Seq<usize>|
            {
                &&& #[trigger] how.is_clustering(records, 256, l1, upper)
                &&& #[trigger] how.is_clustering(
                    below,
                    256,
                    l2.subrange(256 * c, 256 * c + 256),
                    lower,
                )
                &&& below.len() == #[trigger] members.len()
                &&& forall|k: int|
                    0 <= k < members.len() ==> #[trigger] below[k] == records[members[k] as int]
                &&& forall|j: int, k: int|
                    0 <= j < k < members.len() ==> #[trigger] members[j] < #[trigger] members[k]
                &&& forall|k: int|
                    0 <= k < members.len() ==> (#[trigger] members[k]) < upper.len()
                        && upper[members[k] as int] == c && assignments[members[k] as int] == 256
                        * c + lower[k]
                &&& forall|i: int|
                    0 <= i < records.len() && #[trigger] upper[i] == c ==> members.contains(
                        i as usize,
                    )
            },
{
    let upper = choose|upper: Seq<usize>|
        {
            &&& #[trigger] how.is_clustering(records, N_L1 as int, l1, upper)
            &&& forall|c: int|
                0 <= c < N_L1 ==> #[trigger] how.is_block(records, upper, c, l2, assignments)
        };
    assert(how.is_block(records, upper, c, l2, assignments));
    let members = layout::members(upper, c);
    let lower = choose|lower: Seq<usize>| #[trigger]
        how.is_clustering(
            gathered(records, members),
            N_L2_PER_L1 as int,
            l2.subrange(c * N_L2_PER_L1, (c + 1) * N_L2_PER_L1),
            lower,
        ) && forall|k: int|
            0 <= k < members.len() ==> assignments[#[trigger] layout::members(upper, c)[k] as int]
                == c * N_L2_PER_L1 + lower[k];
    lemma_clusters_in_range(how, records, 256, l1, upper);
    layout::members_are_assigned(upper, c, upper.len() as int);
    let below = gathered(records, members);
    assert(how.is_clustering(
        below,
        256,
        l2.subrange(256 * c, 256 * c + 256),
        lower,
    ));
    assert forall|k: int| 0 <= k < members.len() implies (#[trigger] members[k]) < upper.len()
        && upper[members[k] as int] == c && assignments[members[k] as int] == 256 * c
        + lower[k] by {
        assert(assignments[layout::members(upper, c)[k] as int] == c * N_L2_PER_L1 + lower[k]);
    }
}

/// Each record is assigned one of the clusters.
proof fn lemma_clusters_in_range<
    D: Fn([u32; 16], [u32; 16]) -> u32 + Sync,
    P: Fn([u32; 16], [u32; 16]) -> [u32; 16] + Sync,
    Q: Fn([u32; 16], usize) -> [u32; 16] + Sync,
    A: Fn(u32, u32) -> u32 + Sync,
    T: Fn(u32, u32) -> u32 + Sync,
    O: Fn(u32, u32) -> u32 + Sync,
>(
    how: Arithmetic<D, P, Q, A, T, O>,
    records: Seq<Record>,
    n: int,
    centroids: Seq<[u32; 16]>,
    assignments: Seq<usize>,
)
    requires
        how.is_clustering(records, n, centroids, assignments),
        0 < n <= usize::MAX,
    ensures
        assignments.len() == records.len(),
        forall|i: int| 0 <= i < records.len() ==> #[trigger] assignments[i] < n,
{
    a_clustering_has_twenty_rounds(how, records, n, centroids, assignments);
    let start = choose|start: Seq<[u32; 16]>| #[trigger]
        how.is_start(records, n, start) && start.len() == n && centroids == kmeans::trained(
            how.distance,
            how.plus,
            how.over,
            records,
            records.len(),
            start,
            20,
        ) && assignments == kmeans::assignment(
            how.distance,
            records,
            records.len(),
            kmeans::trained(how.distance, how.plus, how.over, records, records.len(), start, 19),
        );
    kmeans::training_keeps_the_number(
        how.distance,
        how.plus,
        how.over,
        records,
        records.len(),
        start,
        19,
    );
    let before = kmeans::trained(
        how.distance,
        how.plus,
        how.over,
        records,
        records.len(),
        start,
        19,
    );
    assert forall|i: int| 0 <= i < records.len() implies #[trigger] assignments[i] < n by {
        kmeans::each_record_is_assigned_its_nearest(
            how.distance,
            records,
            records.len(),
            before,
            i,
        );
    }
}

/// Each record is assigned one of the clusters of the lower level.
proof fn lemma_in_range<
    D: Fn([u32; 16], [u32; 16]) -> u32 + Sync,
    P: Fn([u32; 16], [u32; 16]) -> [u32; 16] + Sync,
    Q: Fn([u32; 16], usize) -> [u32; 16] + Sync,
    A: Fn(u32, u32) -> u32 + Sync,
    T: Fn(u32, u32) -> u32 + Sync,
    O: Fn(u32, u32) -> u32 + Sync,
>(
    how: Arithmetic<D, P, Q, A, T, O>,
    records: Seq<Record>,
    l1: Seq<[u32; 16]>,
    l2: Seq<[u32; 16]>,
    assignments: Seq<usize>,
    i: int,
)
    requires
        how.is_hierarchy(records, l1, l2, assignments),
        records.len() <= usize::MAX,
        0 <= i < records.len(),
    ensures
        assignments[i] < 65536,
{
    let upper = choose|upper: Seq<usize>|
        {
            &&& #[trigger] how.is_clustering(records, N_L1 as int, l1, upper)
            &&& forall|c: int|
                0 <= c < N_L1 ==> #[trigger] how.is_block(records, upper, c, l2, assignments)
        };
    lemma_clusters_in_range(how, records, 256, l1, upper);
    let c = upper[i] as int;
    assert(how.is_block(records, upper, c, l2, assignments));
    let members = layout::members(upper, c);
    let lower = choose|lower: Seq<usize>| #[trigger]
        how.is_clustering(
            gathered(records, members),
            N_L2_PER_L1 as int,
            l2.subrange(c * N_L2_PER_L1, (c + 1) * N_L2_PER_L1),
            lower,
        ) && forall|k: int|
            0 <= k < members.len() ==> assignments[#[trigger] layout::members(upper, c)[k] as int]
                == c * N_L2_PER_L1 + lower[k];
    lemma_clusters_in_range(
        how,
        gathered(records, members),
        256,
        l2.subrange(c * N_L2_PER_L1, (c + 1) * N_L2_PER_L1),
        lower,
    );
    layout::members_are_assigned(upper, c, upper.len() as int);
    assert(members.contains(i as usize));
    let k = choose|k: int| 0 <= k < members.len() && members[k] == i as usize;
    assert(lower[k] < 256);
    assert(assignments[layout::members(upper, c)[k] as int] == c * N_L2_PER_L1 + lower[k]);
}

/// Every record is stored in the cluster that it is assigned to, between the offset of that
/// cluster and the next one, word for word.
pub proof fn each_record_is_stored_in_its_cluster<
    D: Fn([u32; 16], [u32; 16]) -> u32 + Sync,
    P: Fn([u32; 16], [u32; 16]) -> [u32; 16] + Sync,
    Q: Fn([u32; 16], usize) -> [u32; 16] + Sync,
    A: Fn(u32, u32) -> u32 + Sync,
    T: Fn(u32, u32) -> u32 + Sync,
    O: Fn(u32, u32) -> u32 + Sync,
>(
    how: Arithmetic<D, P, Q, A, T, O>,
    records: Seq<Record>,
    artifacts: Artifacts,
    i: int,
)
    requires
        how.is_index(records, artifacts),
        records.len() <= usize::MAX,
        0 <= i < records.len(),
    ensures
        ({
            let vectors = records::vectors(artifacts.dataset@);
            let offsets = records::words(artifacts.offsets@);
            &&& offsets.len() == 65537
            &&& exists|
                l1: Seq<[u32; 16]>,
                l2: Seq<[u32; 16]>,
                assignments: Seq<usize>,
                p: int,
            |
                {
                    &&& #[trigger] how.is_hierarchy(records, l1, l2, assignments)
                    &&& assignments[i] < 65536
                    &&& offsets[assignments[i] as int] <= p < offsets[assignments[i] + 1]
                    &&& #[trigger] vectors[p] == records[i].vector@
                    &&& artifacts.l1_centroids@ == records::written_centroids(l1)
                    &&& artifacts.l2_centroids@ == records::written_centroids(l2)
                }
        }),
{
    let (l1, l2, assignments) = choose|
        l1: Seq<[u32; 16]>,
        l2: Seq<[u32; 16]>,
        assignments: Seq<usize>,
    | #[trigger]
        how.is_hierarchy(records, l1, l2, assignments) && stores(
            artifacts,
            records,
            l1,
            l2,
            assignments,
        );
    let vectors = records::vectors(artifacts.dataset@);
    let offsets = records::words(artifacts.offsets@);
    a_stored_cluster_is_read_back(artifacts, records, l1, l2, assignments, 0);
    let c = assignments[i] as int;
    lemma_in_range(how, records, l1, l2, assignments, i);
    a_stored_cluster_is_read_back(artifacts, records, l1, l2, assignments, c);
    let members = layout::members(assignments, c);
    layout::members_are_assigned(assignments, c, assignments.len() as int);
    assert(members.contains(i as usize));
    let k = choose|k: int| 0 <= k < members.len() && members[k] == i as usize;
    let part = vectors.subrange(offsets[c] as int, offsets[c + 1] as int);
    assert(part == records::record_words(gathered(records, members)));
    assert(part.len() == members.len());
    assert(part[k] == records[i].vector@);
    let p = offsets[c] + k;
    assert(vectors[p] == records[i].vector@);
    assert(how.is_hierarchy(records, l1, l2, assignments));
}

/// What is built is an index of the records.
pub proof fn what_is_built_is_an_index<
    D: Fn([u32; 16], [u32; 16]) -> u32 + Sync,
    P: Fn([u32; 16], [u32; 16]) -> [u32; 16] + Sync,
    Q: Fn([u32; 16], usize) -> [u32; 16] + Sync,
    A: Fn(u32, u32) -> u32 + Sync,
    T: Fn(u32, u32) -> u32 + Sync,
    O: Fn(u32, u32) -> u32 + Sync,
>(how: Arithmetic<D, P, Q, A, T, O>, records: &[Record], r: Artifacts)
    requires
        how.wf(),
        records@.len() <= u32::MAX,
        call_ensures(Arithmetic::<D, P, Q, A, T, O>::build_index, (&how, records), r),
    ensures
        how.is_index(records@, r),
{
}

} // verus!
