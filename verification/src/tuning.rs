//! Judging how well records are scored: some of them are set apart, and scored by the others.
use rand::rngs::StdRng;
use vstd::prelude::*;
use vstd::seq_lib::*;
use crate::indexer::par_map;
use crate::kmeans;
use crate::knn;
use crate::knn::{Query, Weighing, APPROVAL_THRESHOLD};
use crate::layout;
use crate::random;
use crate::records;
use crate::records::{unpack_label, Record};
use crate::top_k;
use crate::top_k::{new_top_k, update_top_k_packed, Neighbor};

verus! {

/// How many records are set apart.
pub const VALIDATION_COUNT: usize = 5000;

/// How many places of a vector can be changed.
pub const CHANGEABLE: usize = 14;

/// Draws at how many places a vector is changed: from one to three. The generator is asked
/// once.
pub fn draw_count(rng: &mut StdRng) -> (r: i32)
    ensures
        1 <= r <= 3,
        exists|asked: &mut StdRng|
            *asked == *old(rng) && *final(asked) == *final(rng) && #[trigger] call_ensures(
                random::between,
                (asked, 1, 3),
                r,
            ),
{
    random::between(rng, 1, 3)
}

/// Draws a place at which a vector is changed. The generator is asked once.
pub fn draw_place(rng: &mut StdRng) -> (r: usize)
    ensures
        r < CHANGEABLE,
        exists|asked: &mut StdRng|
            *asked == *old(rng) && *final(asked) == *final(rng) && #[trigger] call_ensures(
                random::below,
                (asked, CHANGEABLE),
                r,
            ),
{
    random::below(rng, CHANGEABLE)
}

/// The places below `n` that are not among the given ones, in order.
pub open spec fn others(chosen: Seq<usize>, n: int) -> Seq<usize>
    decreases n,
{
    if n <= 0 {
        Seq::empty()
    } else if chosen.contains((n - 1) as usize) {
        others(chosen, n - 1)
    } else {
        others(chosen, n - 1).push((n - 1) as usize)
    }
}

/// Whether a place is among the given ones.
fn is_among(chosen: &Vec<usize>, place: usize) -> (r: bool)
    ensures
        r == chosen@.contains(place),
{
    let mut k: usize = 0;
    while k < chosen.len()
        invariant
            k <= chosen@.len(),
            forall|j: int| 0 <= j < k ==> chosen@[j] != place,
        decreases chosen@.len() - k,
    {
        if chosen[k] == place {
            return true;
        }
        k += 1;
    }
    false
}

/// Splits the places below `n`: the first `count` in a given order, and all others in their
/// own order.
pub fn split(order: &Vec<usize>, n: usize, count: usize) -> (r: (Vec<usize>, Vec<usize>))
    requires
        count <= order@.len(),
    ensures
        r.0@ == order@.take(count as int),
        r.1@ == others(r.0@, n as int),
{
    let mut chosen: Vec<usize> = Vec::new();
    let mut k: usize = 0;
    while k < count
        invariant
            k <= count <= order@.len(),
            chosen@ =~= order@.take(k as int),
        decreases count - k,
    {
        chosen.push(order[k]);
        k += 1;
    }
    let mut rest: Vec<usize> = Vec::new();
    let mut i: usize = 0;
    while i < n
        invariant
            i <= n,
            rest@ == others(chosen@, i as int),
        decreases n - i,
    {
        if !is_among(&chosen, i) {
            rest.push(i);
        }
        i += 1;
    }
    (chosen, rest)
}

/// Sets `count` of the places below `n` apart, the first ones after all were shuffled; all
/// others remain.
pub fn set_apart(rng: &mut StdRng, n: usize, count: usize) -> (r: (Vec<usize>, Vec<usize>))
    requires
        count <= n,
    ensures
        exists|order: Seq<usize>| #[trigger]
            order.to_multiset() == layout::places(n as nat).to_multiset() && r.0@ == order.take(
                count as int,
            ),
        exists|order: &mut Vec<usize>, asked: &mut StdRng|
            #![trigger call_ensures(random::shuffle, (order, asked), ())]
            {
                &&& order@ == layout::places(n as nat)
                &&& *asked == *old(rng)
                &&& *final(asked) == *final(rng)
                &&& call_ensures(random::shuffle, (order, asked), ())
                &&& r.0@ == final(order)@.take(count as int)
            },
        r.0@.len() == count,
        r.1@ == others(r.0@, n as int),
{
    let mut order: Vec<usize> = Vec::new();
    let mut i: usize = 0;
    while i < n
        invariant
            i <= n,
            order@ =~= layout::places(i as nat),
        decreases n - i,
    {
        order.push(i);
        i += 1;
    }
    random::shuffle(&mut order, rng);
    proof {
        to_multiset_len(order@);
        to_multiset_len(layout::places(n as nat));
        assert(order@.to_multiset() == layout::places(n as nat).to_multiset());
    }
    split(&order, n, count)
}

/// The records as neighbours of a query.
pub open spec fn neighbors_of<D: Fn([u32; 16], [u32; 16]) -> u32>(
    query: Query<'_, D>,
    records: Seq<Record>,
) -> Seq<Neighbor> {
    records.map_values(
        |r: Record| top_k::neighbor(knn::measured(query, r.vector@), r.vector@[15]),
    )
}

/// The records that are nearest to a query, of all.
pub fn nearest_records<D: Fn([u32; 16], [u32; 16]) -> u32>(
    query: &Query<'_, D>,
    records: &[Record],
) -> (r: [Neighbor; 7])
    requires
        knn::is_measure(*query),
    ensures
        r@ == top_k::all_taken_in(top_k::none_seen(), neighbors_of(*query, records@)),
        top_k::labelled(r@),
{
    let mut top = new_top_k();
    let ghost all = neighbors_of(*query, records@);
    let mut k: usize = 0;
    assert(all.take(0) =~= Seq::empty());
    while k < records.len()
        invariant
            k <= records@.len(),
            knn::is_measure(*query),
            all == neighbors_of(*query, records@),
            top@ == top_k::all_taken_in(top_k::none_seen(), all.take(k as int)),
        decreases records@.len() - k,
    {
        let vector: [u32; 16] = records[k].vector;
        let dist = knn::measure(query, vector);
        update_top_k_packed(&mut top, dist, vector[15]);
        assert(all.take(k + 1).drop_last() =~= all.take(k as int));
        assert(all.take(k + 1).last() == all[k as int]);
        k += 1;
    }
    assert(all.take(all.len() as int) =~= all);
    proof {
        top_k::labels_are_kept(top_k::none_seen(), all);
    }
    top
}

/// What a record that was set apart is scored by the others, and its label.
pub open spec fn judged<
    D: Fn([u32; 16], [u32; 16]) -> u32,
    S: Fn(Weighing) -> u32,
>(distance: D, kernel: S, record: Record, references: Seq<Record>) -> (u32, u8) {
    let query = Query { vector: record.vector, distance: &distance };
    (
        knn::scored(
            kernel,
            top_k::all_taken_in(top_k::none_seen(), neighbors_of(query, references)),
            7,
        ),
        records::label_of(record.vector@[15]),
    )
}

/// Scores the records that were set apart by the others.
pub fn evaluate<
    D: Fn([u32; 16], [u32; 16]) -> u32 + Sync,
    S: Fn(Weighing) -> u32 + Sync,
>(validation: &[Record], references: &[Record], distance: &D, kernel: &S) -> (r: Vec<(u32, u8)>)
    requires
        kmeans::is_distance(*distance),
        knn::is_kernel(*kernel),
    ensures
        r@ == validation@.map_values(
            |record: Record| judged(*distance, *kernel, record, references@),
        ),
{
    let f = |i: usize| -> (r: (u32, u8))
        requires
            i < validation@.len(),
        ensures
            r == judged(*distance, *kernel, validation@[i as int], references@),
        {
            let record = validation[i];
            let query = Query { vector: record.vector, distance };
            let top = nearest_records(&query, references);
            let score = knn::score_of(kernel, &top, 7);
            (score, unpack_label(record.vector[15]))
        };
    let n = validation.len();
    let results = par_map(n, f);
    assert(results@ =~= validation@.map_values(
        |record: Record| judged(*distance, *kernel, record, references@),
    ));
    results
}

/// How often fraud and no fraud were told right and wrong.
#[derive(Clone, Copy, PartialEq, Eq, Structural, Debug)]
pub struct Confusion {
    pub true_positives: usize,
    pub true_negatives: usize,
    pub false_positives: usize,
    pub false_negatives: usize,
}

/// How many of the first `n` results have a score on one side of the threshold and a label.
pub open spec fn told(results: Seq<(u32, u8)>, positive: bool, label: u8, n: int) -> nat
    decreases n,
{
    if n <= 0 {
        0
    } else {
        let before = told(results, positive, label, n - 1);
        if (results[n - 1].0 >= APPROVAL_THRESHOLD) == positive && results[n - 1].1 == label {
            before + 1
        } else {
            before
        }
    }
}

/// Counts how often fraud and no fraud were told right and wrong.
pub fn count_outcomes(results: &Vec<(u32, u8)>) -> (r: Confusion)
    requires
        forall|i: int| 0 <= i < results@.len() ==> (#[trigger] results@[i]).1 <= 1,
    ensures
        r.true_positives == told(results@, true, 1, results@.len() as int),
        r.true_negatives == told(results@, false, 0, results@.len() as int),
        r.false_positives == told(results@, true, 0, results@.len() as int),
        r.false_negatives == told(results@, false, 1, results@.len() as int),
        r.true_positives + r.true_negatives + r.false_positives + r.false_negatives
            == results@.len(),
{
    let mut c = Confusion {
        true_positives: 0,
        true_negatives: 0,
        false_positives: 0,
        false_negatives: 0,
    };
    let mut k: usize = 0;
    while k < results.len()
        invariant
            k <= results@.len(),
            forall|i: int| 0 <= i < results@.len() ==> (#[trigger] results@[i]).1 <= 1,
            c.true_positives == told(results@, true, 1, k as int),
            c.true_negatives == told(results@, false, 0, k as int),
            c.false_positives == told(results@, true, 0, k as int),
            c.false_negatives == told(results@, false, 1, k as int),
            c.true_positives + c.true_negatives + c.false_positives + c.false_negatives == k,
        decreases results@.len() - k,
    {
        let (score, label) = results[k];
        if score >= APPROVAL_THRESHOLD {
            if label == 1 {
                c.true_positives = c.true_positives + 1;
            } else {
                c.false_positives = c.false_positives + 1;
            }
        } else if label == 0 {
            c.true_negatives = c.true_negatives + 1;
        } else {
            c.false_negatives = c.false_negatives + 1;
        }
        k += 1;
    }
    c
}

/// Every record is on exactly one side: set apart, or among the others.
pub proof fn every_record_is_on_one_side(chosen: Seq<usize>, n: int, place: usize)
    requires
        0 <= n <= usize::MAX,
    ensures
        others(chosen, n).contains(place) <==> place < n && !chosen.contains(place),
    decreases n,
{
    if n > 0 {
        every_record_is_on_one_side(chosen, n - 1, place);
        let before = others(chosen, n - 1);
        let last = (n - 1) as usize;
        if !chosen.contains(last) {
            let now = others(chosen, n);
            assert(now =~= before.push(last));
            assert(now[now.len() - 1] == last);
            if before.contains(place) {
                let k = choose|k: int| 0 <= k < before.len() && before[k] == place;
                assert(now[k] == place);
            }
            if now.contains(place) && place != last {
                let k = choose|k: int| 0 <= k < now.len() && now[k] == place;
                assert(before[k] == place);
            }
        }
    }
}

proof fn lemma_told_of_front(
    front: Seq<(u32, u8)>,
    all: Seq<(u32, u8)>,
    positive: bool,
    label: u8,
    n: int,
)
    requires
        n <= front.len() <= all.len(),
        forall|k: int| 0 <= k < front.len() ==> #[trigger] all[k] == front[k],
    ensures
        told(all, positive, label, n) == told(front, positive, label, n),
    decreases n,
{
    if n > 0 {
        lemma_told_of_front(front, all, positive, label, n - 1);
        assert(all[n - 1] == front[n - 1]);
    }
}

/// Each further result is counted once: a score of at least 0.44 as told to be fraud, rightly or
/// wrongly by its label, any other as told to be none. Without results nothing is counted.
pub proof fn each_result_is_counted_once(
    results: &Vec<(u32, u8)>,
    more: &Vec<(u32, u8)>,
    score: u32,
    label: u8,
    before: Confusion,
    after: Confusion,
)
    requires
        label <= 1,
        forall|i: int| 0 <= i < results@.len() ==> (#[trigger] results@[i]).1 <= 1,
        more@ == results@.push((score, label)),
        call_ensures(count_outcomes, (results,), before),
        call_ensures(count_outcomes, (more,), after),
    ensures
        results@.len() == 0 ==> before.true_positives == 0 && before.true_negatives == 0
            && before.false_positives == 0 && before.false_negatives == 0,
        score >= 0x3ee1_47ae && label == 1 ==> after == (Confusion {
            true_positives: (before.true_positives + 1) as usize,
            ..before
        }),
        score >= 0x3ee1_47ae && label == 0 ==> after == (Confusion {
            false_positives: (before.false_positives + 1) as usize,
            ..before
        }),
        score < 0x3ee1_47ae && label == 1 ==> after == (Confusion {
            false_negatives: (before.false_negatives + 1) as usize,
            ..before
        }),
        score < 0x3ee1_47ae && label == 0 ==> after == (Confusion {
            true_negatives: (before.true_negatives + 1) as usize,
            ..before
        }),
{
    let n = results@.len() as int;
    lemma_told_of_front(results@, more@, true, 1, n);
    lemma_told_of_front(results@, more@, false, 0, n);
    lemma_told_of_front(results@, more@, true, 0, n);
    lemma_told_of_front(results@, more@, false, 1, n);
    assert(more@[n] == (score, label));
}

/// The others come in ascending order.
proof fn lemma_others_ascend(chosen: Seq<usize>, n: int)
    requires
        0 <= n <= usize::MAX,
    ensures
        forall|j: int, k: int|
            0 <= j < k < others(chosen, n).len() ==> #[trigger] others(chosen, n)[j]
                < #[trigger] others(chosen, n)[k],
        forall|j: int| 0 <= j < others(chosen, n).len() ==> #[trigger] others(chosen, n)[j] < n,
    decreases n,
{
    if n > 0 {
        lemma_others_ascend(chosen, n - 1);
        let before = others(chosen, n - 1);
        let now = others(chosen, n);
        assert forall|j: int| 0 <= j < now.len() implies #[trigger] now[j] < n by {
            if j < before.len() {
                assert(now[j] == before[j]);
            }
        }
        assert forall|j: int, k: int| 0 <= j < k < now.len() implies #[trigger] now[j]
            < #[trigger] now[k] by {
            assert(now[j] == before[j]);
            if k < before.len() {
                assert(now[k] == before[k]);
            }
        }
    }
}

/// A split gives the first so many of the order, in that order, and then all other places, each
/// once and in ascending order.
pub proof fn a_split_leaves_nothing_out(
    order: &Vec<usize>,
    n: usize,
    count: usize,
    r: (Vec<usize>, Vec<usize>),
    place: usize,
)
    requires
        count <= order@.len(),
        call_ensures(split, (order, n, count), r),
    ensures
        r.0@.len() == count,
        forall|k: int| 0 <= k < count ==> #[trigger] r.0@[k] == order@[k],
        forall|j: int, k: int| 0 <= j < k < r.1@.len() ==> #[trigger] r.1@[j] < #[trigger] r.1@[k],
        r.1@.contains(place) <==> place < n && forall|k: int|
            0 <= k < count ==> #[trigger] order@[k] != place,
{
    every_record_is_on_one_side(r.0@, n as int, place);
    lemma_others_ascend(r.0@, n as int);
    assert forall|k: int| 0 <= k < count implies #[trigger] r.0@[k] == order@[k] by {}
    if r.0@.contains(place) {
        let k = choose|k: int| 0 <= k < r.0@.len() && r.0@[k] == place;
        assert(order@[k] == place);
    }
    if exists|k: int| 0 <= k < count && #[trigger] order@[k] == place {
        let k = choose|k: int| 0 <= k < count && #[trigger] order@[k] == place;
        assert(r.0@[k] == place);
    }
}

/// Each record that was set apart is scored by the seven nearest of all others, each of which
/// has its say, and keeps the label in the lowest bit of its last word: every other record that
/// is nearer than the last of the seven is among them, and each of them is one of the others or
/// stands for none.
pub proof fn a_record_is_scored_by_its_nearest<
    D: Fn([u32; 16], [u32; 16]) -> u32 + Sync,
    S: Fn(Weighing) -> u32 + Sync,
>(
    validation: &[Record],
    references: &[Record],
    distance: &D,
    kernel: &S,
    r: Vec<(u32, u8)>,
    i: int,
)
    requires
        call_ensures(evaluate, (validation, references, distance, kernel), r),
        0 <= i < validation@.len(),
    ensures
        r@.len() == validation@.len(),
        r@[i].1 == validation@[i].vector@[15] % 2,
        exists|top: Seq<Neighbor>|
            {
                &&& r@[i].0 == #[trigger] knn::scored(*kernel, top, 7)
                &&& top.len() == 7
                &&& forall|j: int, k: int|
                    0 <= j <= k < 7 ==> (#[trigger] top[j]).dist <= (#[trigger] top[k]).dist
                &&& forall|j: int|
                    0 <= j < references@.len() && knn::measured(
                        (Query { vector: validation@[i].vector, distance }),
                        (#[trigger] references@[j]).vector@,
                    ) < top[6].dist ==> top.contains(
                        Neighbor {
                            dist: knn::measured(
                                (Query { vector: validation@[i].vector, distance }),
                                references@[j].vector@,
                            ),
                            label: (references@[j].vector@[15] % 2) as u8,
                            id: (references@[j].vector@[15] / 2) as usize,
                        },
                    )
                &&& forall|k: int|
                    0 <= k < 7 && (#[trigger] top[k]).dist != 0x7f7f_ffff ==> exists|j: int|
                        0 <= j < references@.len() && top[k].dist == knn::measured(
                        (Query { vector: validation@[i].vector, distance }),
                        (#[trigger] references@[j]).vector@,
                    ) && top[k].label == references@[j].vector@[15] % 2
            },
{
    let record = validation@[i];
    let query = Query { vector: record.vector, distance };
    let ns = neighbors_of(query, references@);
    let none = top_k::none_seen();
    let top = top_k::all_taken_in(none, ns);
    top_k::the_nearest_are_kept(none, ns);
    knn::lemma_kept_or_left(none, ns, top);
    assert(r@[i] == judged(*distance, *kernel, record, references@));
    assert(r@[i].0 == knn::scored(*kernel, top, 7));
    assert forall|j: int|
        0 <= j < references@.len() && knn::measured(query, (#[trigger] references@[j]).vector@)
            < top[6].dist implies top.contains(
        Neighbor {
            dist: knn::measured(query, references@[j].vector@),
            label: (references@[j].vector@[15] % 2) as u8,
            id: (references@[j].vector@[15] / 2) as usize,
        },
    ) by {
        let n = top_k::neighbor(
            knn::measured(query, references@[j].vector@),
            references@[j].vector@[15],
        );
        assert(ns[j] == n);
        assert(ns.contains(n));
    }
    assert forall|j: int, k: int| 0 <= j <= k < 7 implies (#[trigger] top[j]).dist <= (
    #[trigger] top[k]).dist by {}
    assert forall|k: int| 0 <= k < 7 && (#[trigger] top[k]).dist != 0x7f7f_ffff implies exists|
        j: int,
    |
        0 <= j < references@.len() && top[k].dist == knn::measured(
            query,
            (#[trigger] references@[j]).vector@,
        ) && top[k].label == references@[j].vector@[15] % 2 by {
        let j = choose|j: int| 0 <= j < ns.len() && ns[j] == top[k];
        assert(top[k].dist == knn::measured(query, references@[j].vector@));
    }
}

/// A vector is changed at one, two or three of its fourteen places.
pub proof fn draws_are_in_range(n: i32, place: usize)
    ensures
        forall|rng: &mut StdRng| #[trigger]
            call_ensures(draw_count, (rng,), n) ==> n == 1 || n == 2 || n == 3,
        forall|rng: &mut StdRng| #[trigger] call_ensures(draw_place, (rng,), place) ==> place < 14,
{
}

/// Setting apart takes as many different places as are asked for, each below the number of all,
/// and leaves the others, each once and in ascending order.
pub proof fn setting_apart_splits_the_places(n: usize, count: usize, r: (Vec<usize>, Vec<usize>))
    requires
        count <= n,
        exists|rng: &mut StdRng| #[trigger] call_ensures(set_apart, (rng, n, count), r),
    ensures
        r.0@.len() == count,
        forall|j: int, k: int|
            0 <= j < k < count ==> #[trigger] r.0@[j] != #[trigger] r.0@[k],
        forall|k: int| 0 <= k < count ==> #[trigger] r.0@[k] < n,
        forall|j: int, k: int| 0 <= j < k < r.1@.len() ==> #[trigger] r.1@[j] < #[trigger] r.1@[k],
        forall|place: usize| #[trigger]
            r.1@.contains(place) <==> place < n && !r.0@.contains(place),
{
    let order = choose|order: Seq<usize>| #[trigger]
        order.to_multiset() == layout::places(n as nat).to_multiset() && r.0@ == order.take(
            count as int,
        );
    let all = layout::places(n as nat);
    assert(all.no_duplicates());
    all.lemma_multiset_has_no_duplicates();
    assert forall|x: usize| #[trigger] order.to_multiset().contains(x) implies order.to_multiset().count(
        x,
    ) == 1 by {}
    order.lemma_multiset_has_no_duplicates_conv();
    to_multiset_len(order);
    to_multiset_len(all);
    assert forall|k: int| 0 <= k < count implies #[trigger] r.0@[k] < n by {
        assert(r.0@[k] == order[k]);
        to_multiset_contains(order, order[k]);
        to_multiset_contains(all, order[k]);
        assert(order.contains(order[k]));
        assert(order.to_multiset().count(order[k]) > 0);
        assert(all.contains(order[k]));
    }
    assert forall|j: int, k: int| 0 <= j < k < count implies #[trigger] r.0@[j]
        != #[trigger] r.0@[k] by {
        assert(r.0@[j] == order[j] && r.0@[k] == order[k]);
    }
    lemma_others_ascend(r.0@, n as int);
    assert forall|place: usize| #[trigger] r.1@.contains(place) <==> place < n && !r.0@.contains(
        place,
    ) by {
        every_record_is_on_one_side(r.0@, n as int, place);
    }
}

} // verus!
