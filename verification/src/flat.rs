//! An index with a single level: the records stay in their order, and a list of their places
//! tells which belong to each centroid.
//!
//! A record is stored as the 14 words of its vector, a byte that is 1 for fraud and 7 bytes of
//! padding. In a `Record` that byte and the padding are the last two words.
use vstd::prelude::*;
use crate::kmeans;
use crate::kmeans::nearest_centroid;
use crate::layout;
use crate::layout::lay_out_by_counting;
use crate::records::Record;

verus! {

/// The centroids.
pub const N_CENTROIDS: usize = 256;

/// The words of a vector that count.
pub const FEATURES: usize = 14;

/// The words of a record with a vector and a label.
pub open spec fn flat_words(vector: Seq<u32>, fraud: bool) -> Seq<u32> {
    vector + seq![
        if fraud {
            1u32
        } else {
            0u32
        },
        0u32,
    ]
}

/// The record with a vector and a label.
pub fn flat_record(vector: &[u32; 14], fraud: bool) -> (r: Record)
    ensures
        r.vector@ == flat_words(vector@, fraud),
{
    let mut words: [u32; 16] = [0u32; 16];
    let mut j: usize = 0;
    while j < FEATURES
        invariant
            j <= 14,
            forall|k: int| 0 <= k < j ==> words@[k] == vector@[k],
            forall|k: int| j <= k < 16 ==> words@[k] == 0,
        decreases 14 - j,
    {
        words[j] = vector[j];
        j += 1;
    }
    if fraud {
        words[14] = 1;
    }
    assert(words@ =~= flat_words(vector@, fraud));
    Record { vector: words }
}

/// The centroids: the vectors of records at equal steps, from the first one on.
pub open spec fn stride_centroids(records: Seq<Record>) -> Seq<[u32; 16]> {
    Seq::new(
        N_CENTROIDS as nat,
        |i: int| records[i * (records.len() as int / N_CENTROIDS as int)].vector,
    )
}

/// The index: the centroids, where the list of each starts and the last one ends, and the
/// places of the records, one list behind the other.
pub struct FlatIndex {
    pub centroids: Vec<[u32; 16]>,
    pub offsets: Vec<u32>,
    pub indices: Vec<u32>,
}

/// Builds the index: each record belongs to its nearest centroid.
pub fn build_flat_index<D: Fn([u32; 16], [u32; 16]) -> u32>(
    records: &[Record],
    distance: &D,
) -> (r: FlatIndex)
    requires
        0 < records@.len() <= u32::MAX,
        kmeans::is_distance(*distance),
    ensures
        r.centroids@ == stride_centroids(records@),
        ({
            let assignments = kmeans::assignment(
                *distance,
                records@,
                records@.len(),
                r.centroids@,
            );
            &&& layout::are_offsets(r.offsets@, assignments, N_CENTROIDS as int)
            &&& r.indices@ == layout::laid_out(assignments, N_CENTROIDS as int).map_values(
                |i: usize| i as u32,
            )
        }),
{
    let count = records.len();
    let stride: usize = count / N_CENTROIDS;
    let mut centroids: Vec<[u32; 16]> = Vec::new();
    let mut c: usize = 0;
    while c < N_CENTROIDS
        invariant
            c <= N_CENTROIDS,
            count == records@.len(),
            0 < count,
            stride == count / N_CENTROIDS,
            centroids@ =~= stride_centroids(records@).take(c as int),
        decreases N_CENTROIDS - c,
    {
        assert(c * stride < count) by (nonlinear_arith)
            requires
                0 <= c < 256,
                0 < count,
                stride == count / 256,
        ;
        centroids.push(records[c * stride].vector);
        c += 1;
    }
    assert(centroids@ =~= stride_centroids(records@));
    let mut assignments: Vec<u16> = Vec::new();
    let mut i: usize = 0;
    while i < count
        invariant
            i <= count,
            count == records@.len(),
            kmeans::is_distance(*distance),
            centroids@.len() == N_CENTROIDS,
            assignments@.len() == i,
            forall|k: int| 0 <= k < i ==> #[trigger] assignments@[k] < N_CENTROIDS,
            forall|k: int|
                0 <= k < i ==> #[trigger] assignments@[k] == kmeans::assignment(
                    *distance,
                    records@,
                    records@.len(),
                    centroids@,
                )[k],
        decreases count - i,
    {
        let best = nearest_centroid(records[i].vector, &centroids, distance);
        assignments.push(best as u16);
        i += 1;
    }
    assert(layout::widened(assignments@) =~= kmeans::assignment(
        *distance,
        records@,
        records@.len(),
        centroids@,
    ));
    let (offsets, indices) = lay_out_by_counting(&assignments, N_CENTROIDS);
    FlatIndex { centroids, offsets, indices }
}

/// The words of a record are its vector, then one for fraud, else zero, then zero.
pub proof fn a_record_holds_its_vector_and_label(vector: &[u32; 14], fraud: bool, r: Record)
    requires
        call_ensures(flat_record, (vector, fraud), r),
    ensures
        forall|k: int| 0 <= k < 14 ==> #[trigger] r.vector@[k] == vector@[k],
        r.vector@[14] == 1 <==> fraud,
        r.vector@[14] == 0 <==> !fraud,
        r.vector@[15] == 0,
{
}

/// The centroids are records at equal steps, 256 of them, from the first one on. Every record is
/// listed, once, in the list of its nearest centroid, the first one of several; and the lists
/// lie one behind the other, the first at the start.
pub proof fn each_record_is_listed_at_its_nearest<D: Fn([u32; 16], [u32; 16]) -> u32>(
    records: &[Record],
    distance: &D,
    r: FlatIndex,
    c: int,
    p: int,
    i: int,
)
    requires
        0 < records@.len() <= u32::MAX,
        call_ensures(build_flat_index, (records, distance), r),
        0 <= c < 256,
        0 <= i < records@.len(),
    ensures
        r.centroids@.len() == 256,
        r.centroids@[c] == records@[c * (records@.len() as int / 256)].vector,
        r.offsets@.len() == 257,
        r.offsets@[0] == 0,
        r.offsets@[c] <= r.offsets@[c + 1],
        r.offsets@[256] == records@.len(),
        r.indices@.len() == records@.len(),
        r.offsets@[c] <= p < r.offsets@[c + 1] ==> ({
            let v = records@[r.indices@[p] as int].vector;
            let d = kmeans::between(*distance, v, r.centroids@[c]);
            &&& r.indices@[p] < records@.len()
            &&& d < 0x7f7f_ffff ==> forall|b: int|
                0 <= b < 256 ==> d <= #[trigger] kmeans::between(*distance, v, r.centroids@[b])
            &&& d < 0x7f7f_ffff ==> forall|b: int|
                0 <= b < c ==> d < #[trigger] kmeans::between(*distance, v, r.centroids@[b])
            &&& d >= 0x7f7f_ffff ==> c == 0
        }),
        exists|q: int| 0 <= q < r.indices@.len() && #[trigger] r.indices@[q] == i,
{
    let n = records@.len();
    let a = kmeans::assignment(*distance, records@, n, r.centroids@);
    let all = layout::laid_out(a, 256);
    assert(records@.len() == records.len());
    assert(n <= usize::MAX);
    assert(a.len() == n);
    assert forall|k: int| 0 <= k < a.len() implies #[trigger] a[k] < 256 by {
        kmeans::each_record_is_assigned_its_nearest(*distance, records@, n, r.centroids@, k);
    }
    layout::every_record_is_laid_out_once(a, 256);
    layout::a_cluster_lies_between_its_offsets(r.offsets@, a, 256, c);
    assert(r.offsets@[0] == layout::laid_out(a, 0).len());
    assert(r.offsets@[256] == layout::laid_out(a, 256).len());
    let start = r.offsets@[c] as int;
    let end = r.offsets@[c + 1] as int;
    if start <= p < end {
        let k = p - start;
        let members = layout::members(a, c);
        assert(all.subrange(start, end)[k] == all[p]);
        layout::members_are_assigned(a, c, n as int);
        assert(members[k] == all[p]);
        assert(members[k] < n);
        assert(r.indices@[p] == members[k]);
        kmeans::each_record_is_assigned_its_nearest(
            *distance,
            records@,
            n,
            r.centroids@,
            members[k] as int,
        );
    }
    let b = a[i] as int;
    assert(a[i] < 256);
    layout::a_cluster_lies_between_its_offsets(r.offsets@, a, 256, b);
    layout::members_are_assigned(a, b, n as int);
    let members = layout::members(a, b);
    assert(members.contains(i as usize));
    let k = choose|k: int| 0 <= k < members.len() && members[k] == i as usize;
    let q = r.offsets@[b] + k;
    assert(all.subrange(r.offsets@[b] as int, r.offsets@[b + 1] as int)[k] == all[q]);
    assert(r.indices@[q] == i);
}

} // verus!
