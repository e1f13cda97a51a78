//! The order in which the records of an index are stored: cluster by cluster, and within a
//! cluster as they came.
use vstd::prelude::*;
use vstd::seq_lib::*;

verus! {

/// The places below `m` that are assigned `c`, in order.
pub open spec fn places_of(assignments: Seq<usize>, c: int, m: int) -> Seq<usize>
    decreases m,
{
    if m <= 0 {
        Seq::empty()
    } else if assignments[m - 1] == c {
        places_of(assignments, c, m - 1).push((m - 1) as usize)
    } else {
        places_of(assignments, c, m - 1)
    }
}

/// All places that are assigned `c`, in order.
pub open spec fn members(assignments: Seq<usize>, c: int) -> Seq<usize> {
    places_of(assignments, c, assignments.len() as int)
}

/// The members of the first `n` clusters, one cluster after the other.
pub open spec fn laid_out(assignments: Seq<usize>, n: int) -> Seq<usize>
    decreases n,
{
    if n <= 0 {
        Seq::empty()
    } else {
        laid_out(assignments, n - 1) + members(assignments, n - 1)
    }
}

/// The places of a cluster are those that are assigned to it, in ascending order.
pub proof fn members_are_assigned(assignments: Seq<usize>, c: int, m: int)
    requires
        0 <= m <= assignments.len() <= usize::MAX,
    ensures
        forall|k: int|
            0 <= k < places_of(assignments, c, m).len() ==> (#[trigger] places_of(
                assignments,
                c,
                m,
            )[k]) < m && assignments[places_of(assignments, c, m)[k] as int] == c,
        forall|j: int, k: int|
            0 <= j < k < places_of(assignments, c, m).len() ==> #[trigger] places_of(
                assignments,
                c,
                m,
            )[j] < #[trigger] places_of(assignments, c, m)[k],
        forall|i: int|
            0 <= i < m && assignments[i] == c ==> places_of(assignments, c, m).contains(
                #[trigger] (i as usize),
            ),
    decreases m,
{
    if m > 0 {
        members_are_assigned(assignments, c, m - 1);
        let before = places_of(assignments, c, m - 1);
        let now = places_of(assignments, c, m);
        assert forall|i: int| 0 <= i < m && assignments[i] == c implies now.contains(
            #[trigger] (i as usize),
        ) by {
            if i == m - 1 {
                assert(now[now.len() - 1] == i as usize);
            } else {
                assert(before.contains(i as usize));
                let k = choose|k: int| 0 <= k < before.len() && before[k] == i as usize;
                assert(now[k] == i as usize);
            }
        }
    }
}

/// Whether the offsets say where each of the `n` clusters starts, and where the last one ends.
pub open spec fn are_offsets(offsets: Seq<u32>, assignments: Seq<usize>, n: int) -> bool {
    &&& offsets.len() == n + 1
    &&& forall|c: int| 0 <= c <= n ==> #[trigger] offsets[c] == laid_out(assignments, c).len()
}

/// The pairs whose first half is `c`, in order.
pub open spec fn with_key(s: Seq<(usize, usize)>, c: usize) -> Seq<(usize, usize)>
    decreases s.len(),
{
    if s.len() == 0 {
        s
    } else if s.last().0 == c {
        with_key(s.drop_last(), c).push(s.last())
    } else {
        with_key(s.drop_last(), c)
    }
}

/// Whether the first halves do not decrease.
pub open spec fn by_key(s: Seq<(usize, usize)>) -> bool {
    forall|i: int, j: int|
        0 <= i <= j < s.len() ==> (#[trigger] s[i]).0 <= (#[trigger] s[j]).0
}

/// The stable `<[T]>::sort_by_key`, the key being the first half of a pair: reorders the pairs
/// so that their keys do not decrease; those with one key stay in their order.
#[verifier::external_body]
pub(crate) fn sort_by_first(v: &mut Vec<(usize, usize)>)
    ensures
        final(v)@.len() == old(v)@.len(),
        by_key(final(v)@),
        forall|c: usize| #[trigger] with_key(final(v)@, c) == with_key(old(v)@, c),
{
    v.sort_by_key(|e| e.0);
}

/// The pairs with the keys below `n`, one key after the other.
spec fn key_by_key(s: Seq<(usize, usize)>, n: int) -> Seq<(usize, usize)>
    decreases n,
{
    if n <= 0 {
        Seq::empty()
    } else {
        key_by_key(s, n - 1) + with_key(s, (n - 1) as usize)
    }
}

/// The pairs with a key are those that have it.
pub proof fn with_key_are_members(s: Seq<(usize, usize)>, c: usize)
    ensures
        forall|i: int|
            0 <= i < with_key(s, c).len() ==> s.contains(#[trigger] with_key(s, c)[i])
                && with_key(s, c)[i].0 == c,
        forall|i: int|
            0 <= i < s.len() && s[i].0 == c ==> with_key(s, c).contains(#[trigger] s[i]),
    decreases s.len(),
{
    if s.len() > 0 {
        let t = s.drop_last();
        with_key_are_members(t, c);
        assert(s =~= t.push(s.last()));
        let w = with_key(s, c);
        assert forall|i: int| 0 <= i < w.len() implies s.contains(#[trigger] w[i]) && w[i].0
            == c by {
            if s.last().0 == c && i == w.len() - 1 {
                assert(s[s.len() - 1] == w[i]);
            } else {
                assert(w[i] == with_key(t, c)[i]);
                assert(t.contains(w[i]));
                let k = choose|k: int| 0 <= k < t.len() && t[k] == w[i];
                assert(s[k] == w[i]);
            }
        }
        assert forall|i: int| 0 <= i < s.len() && s[i].0 == c implies w.contains(
            #[trigger] s[i],
        ) by {
            if i < t.len() {
                assert(t[i] == s[i]);
                assert(with_key(t, c).contains(t[i]));
                let k = choose|k: int|
                    0 <= k < with_key(t, c).len() && with_key(t, c)[k] == t[i];
                assert(w[k] == s[i]);
            } else {
                assert(w[w.len() - 1] == s[i]);
            }
        }
    }
}

proof fn lemma_no_key(s: Seq<(usize, usize)>, c: usize)
    requires
        forall|i: int| 0 <= i < s.len() ==> (#[trigger] s[i]).0 != c,
    ensures
        with_key(s, c) =~= Seq::empty(),
    decreases s.len(),
{
    if s.len() > 0 {
        assert(s.last() == s[s.len() - 1]);
        assert forall|i: int| 0 <= i < s.drop_last().len() implies (
        #[trigger] s.drop_last()[i]).0 != c by {
            assert(s.drop_last()[i] == s[i]);
        }
        lemma_no_key(s.drop_last(), c);
    }
}

proof fn lemma_with_key_of_push(s: Seq<(usize, usize)>, e: (usize, usize), c: usize)
    ensures
        with_key(s.push(e), c) == if e.0 == c {
            with_key(s, c).push(e)
        } else {
            with_key(s, c)
        },
{
    assert(s.push(e).drop_last() =~= s);
}

proof fn lemma_keys_above_do_not_count(s: Seq<(usize, usize)>, e: (usize, usize), n: int)
    requires
        n <= e.0,
    ensures
        key_by_key(s.push(e), n) == key_by_key(s, n),
    decreases n,
{
    if n > 0 {
        lemma_keys_above_do_not_count(s, e, n - 1);
        lemma_with_key_of_push(s, e, (n - 1) as usize);
    }
}

proof fn lemma_largest_key_comes_last(s: Seq<(usize, usize)>, e: (usize, usize), n: int)
    requires
        e.0 < n <= usize::MAX + 1,
        forall|i: int| 0 <= i < s.len() ==> (#[trigger] s[i]).0 <= e.0,
    ensures
        key_by_key(s.push(e), n) == key_by_key(s, n).push(e),
    decreases n,
{
    lemma_with_key_of_push(s, e, (n - 1) as usize);
    if n - 1 > e.0 {
        lemma_largest_key_comes_last(s, e, n - 1);
        lemma_no_key(s, (n - 1) as usize);
        assert(key_by_key(s.push(e), n) =~= key_by_key(s, n).push(e));
    } else {
        lemma_keys_above_do_not_count(s, e, n - 1);
        assert(key_by_key(s.push(e), n) =~= key_by_key(s, n).push(e));
    }
}

proof fn lemma_sorted_is_key_by_key(s: Seq<(usize, usize)>, n: int)
    requires
        by_key(s),
        n <= usize::MAX + 1,
        forall|i: int| 0 <= i < s.len() ==> (#[trigger] s[i]).0 < n,
    ensures
        s == key_by_key(s, n),
    decreases s.len(),
{
    if s.len() == 0 {
        lemma_nothing_key_by_key(s, n);
    } else {
        let t = s.drop_last();
        let e = s.last();
        assert(s =~= t.push(e));
        assert(e == s[s.len() - 1]);
        assert forall|i: int| 0 <= i < t.len() implies (#[trigger] t[i]).0 <= e.0 by {
            assert(t[i] == s[i]);
        }
        lemma_sorted_is_key_by_key(t, n);
        lemma_largest_key_comes_last(t, e, n);
    }
}

proof fn lemma_nothing_key_by_key(s: Seq<(usize, usize)>, n: int)
    requires
        s.len() == 0,
    ensures
        key_by_key(s, n) == s,
    decreases n,
{
    if n > 0 {
        lemma_nothing_key_by_key(s, n - 1);
        assert(key_by_key(s, n) =~= s);
    } else {
        assert(key_by_key(s, n) =~= s);
    }
}

proof fn lemma_front_is_key_by_key(s: Seq<(usize, usize)>, n: int, o: int)
    requires
        by_key(s),
        0 <= o <= s.len(),
        n <= usize::MAX + 1,
        forall|i: int| 0 <= i < o ==> (#[trigger] s[i]).0 < n,
        forall|i: int| o <= i < s.len() ==> (#[trigger] s[i]).0 >= n,
    ensures
        key_by_key(s, n) == s.take(o),
    decreases s.len() - o,
{
    if o == s.len() {
        assert(s.take(o) =~= s);
        lemma_sorted_is_key_by_key(s, n);
    } else {
        let t = s.drop_last();
        assert(s =~= t.push(s.last()));
        assert(s.last() == s[s.len() - 1]);
        assert forall|i: int, j: int| 0 <= i <= j < t.len() implies (#[trigger] t[i]).0 <= (
        #[trigger] t[j]).0 by {
            assert(t[i] == s[i] && t[j] == s[j]);
        }
        assert forall|i: int| o <= i < t.len() implies (#[trigger] t[i]).0 >= n by {
            assert(t[i] == s[i]);
        }
        lemma_front_is_key_by_key(t, n, o);
        lemma_keys_above_do_not_count(t, s.last(), n);
        assert(t.take(o) =~= s.take(o));
    }
}

/// The assignments with their places.
spec fn pairs(assignments: Seq<usize>) -> Seq<(usize, usize)> {
    Seq::new(assignments.len(), |i: int| (assignments[i], i as usize))
}

/// The second halves.
spec fn seconds(s: Seq<(usize, usize)>) -> Seq<usize> {
    s.map_values(|e: (usize, usize)| e.1)
}

proof fn lemma_pairs_of_a_cluster(assignments: Seq<usize>, c: usize, m: int)
    requires
        0 <= m <= assignments.len(),
    ensures
        seconds(with_key(pairs(assignments).take(m), c)) == places_of(assignments, c as int, m),
    decreases m,
{
    let p = pairs(assignments);
    if m == 0 {
        assert(seconds(with_key(p.take(0), c)) =~= Seq::empty());
    } else {
        lemma_pairs_of_a_cluster(assignments, c, m - 1);
        assert(p.take(m) =~= p.take(m - 1).push(p[m - 1]));
        lemma_with_key_of_push(p.take(m - 1), p[m - 1], c);
        assert(seconds(with_key(p.take(m), c)) =~= places_of(assignments, c as int, m));
    }
}

proof fn lemma_pairs_laid_out(assignments: Seq<usize>, s: Seq<(usize, usize)>, n: int)
    requires
        n <= usize::MAX + 1,
        forall|c: usize| #[trigger] with_key(s, c) == with_key(pairs(assignments), c),
    ensures
        seconds(key_by_key(s, n)) == laid_out(assignments, n),
    decreases n,
{
    if n > 0 {
        lemma_pairs_laid_out(assignments, s, n - 1);
        let c = (n - 1) as usize;
        lemma_pairs_of_a_cluster(assignments, c, assignments.len() as int);
        assert(pairs(assignments).take(assignments.len() as int) =~= pairs(assignments));
        assert(with_key(s, c) == with_key(pairs(assignments), c));
        assert(seconds(key_by_key(s, n)) =~= laid_out(assignments, n));
    } else {
        assert(seconds(key_by_key(s, n)) =~= laid_out(assignments, n));
    }
}

/// Lays the records out in `n` clusters: where each cluster starts and where the last one
/// ends, and the places of the records in the order in which they are stored.
pub fn lay_out(assignments: &Vec<usize>, n: usize) -> (r: (Vec<u32>, Vec<usize>))
    requires
        assignments@.len() <= u32::MAX,
        n < usize::MAX,
        forall|i: int| 0 <= i < assignments@.len() ==> #[trigger] assignments@[i] < n,
    ensures
        are_offsets(r.0@, assignments@, n as int),
        r.1@ == laid_out(assignments@, n as int),
{
    let mut sorted: Vec<(usize, usize)> = Vec::new();
    let mut i: usize = 0;
    while i < assignments.len()
        invariant
            i <= assignments@.len(),
            sorted@ =~= pairs(assignments@).take(i as int),
        decreases assignments@.len() - i,
    {
        sorted.push((assignments[i], i));
        i += 1;
    }
    assert(sorted@ =~= pairs(assignments@));
    sort_by_first(&mut sorted);
    proof {
        assert forall|k: int| 0 <= k < sorted@.len() implies (#[trigger] sorted@[k]).0 < n by {
            let c = sorted@[k].0;
            with_key_are_members(sorted@, c);
            with_key_are_members(pairs(assignments@), c);
            assert(with_key(sorted@, c).contains(sorted@[k]));
            let j = choose|j: int|
                0 <= j < with_key(sorted@, c).len() && with_key(sorted@, c)[j] == sorted@[k];
            assert(with_key(pairs(assignments@), c)[j] == sorted@[k]);
            assert(pairs(assignments@).contains(sorted@[k]));
        }
    }
    let mut offsets: Vec<u32> = Vec::new();
    offsets.push(0);
    let mut order: Vec<usize> = Vec::new();
    let mut current: usize = 0;
    let mut k: usize = 0;
    while k < sorted.len()
        invariant
            k <= sorted@.len() <= u32::MAX,
            current <= n < usize::MAX,
            by_key(sorted@),
            forall|j: int| 0 <= j < sorted@.len() ==> (#[trigger] sorted@[j]).0 < n,
            forall|j: int| 0 <= j < k ==> (#[trigger] sorted@[j]).0 <= current,
            forall|j: int| k <= j < sorted@.len() ==> (#[trigger] sorted@[j]).0 >= current,
            order@ =~= seconds(sorted@.take(k as int)),
            offsets@.len() == current + 1,
            forall|b: int| 0 <= b <= current ==> #[trigger] offsets@[b] <= sorted@.len(),
            forall|b: int, j: int|
                0 <= b <= current && 0 <= j < offsets@[b] ==> #[trigger] sorted@[j].0 < b && (
                #[trigger] offsets@[b]) >= 0,
            forall|b: int, j: int|
                0 <= b <= current && offsets@[b] <= j < sorted@.len() ==> #[trigger] sorted@[j].0
                    >= b && (#[trigger] offsets@[b]) >= 0,
        decreases sorted@.len() - k,
    {
        let (c, i) = sorted[k];
        while current < c
            invariant
                k < sorted@.len() <= u32::MAX,
                current <= c < n < usize::MAX,
                c == sorted@[k as int].0,
                by_key(sorted@),
                forall|j: int| 0 <= j < k ==> (#[trigger] sorted@[j]).0 <= current,
                forall|j: int| k <= j < sorted@.len() ==> (#[trigger] sorted@[j]).0 >= current,
                offsets@.len() == current + 1,
                forall|b: int| 0 <= b <= current ==> #[trigger] offsets@[b] <= sorted@.len(),
                forall|b: int, j: int|
                    0 <= b <= current && 0 <= j < offsets@[b] ==> #[trigger] sorted@[j].0 < b && (
                    #[trigger] offsets@[b]) >= 0,
                forall|b: int, j: int|
                    0 <= b <= current && offsets@[b] <= j < sorted@.len()
                        ==> #[trigger] sorted@[j].0 >= b && (#[trigger] offsets@[b]) >= 0,
            decreases c - current,
        {
            current += 1;
            offsets.push(k as u32);
            assert forall|j: int| k <= j < sorted@.len() implies (#[trigger] sorted@[j]).0
                >= current by {
                assert(sorted@[k as int].0 <= sorted@[j].0);
            }
        }
        order.push(i);
        k += 1;
        assert forall|j: int| k <= j < sorted@.len() implies (#[trigger] sorted@[j]).0
            >= current by {
            assert(sorted@[k - 1].0 <= sorted@[j].0);
        }
    }
    while current < n
        invariant
            k == sorted@.len() <= u32::MAX,
            current <= n < usize::MAX,
            forall|j: int| 0 <= j < k ==> (#[trigger] sorted@[j]).0 <= current,
            offsets@.len() == current + 1,
            forall|b: int| 0 <= b <= current ==> #[trigger] offsets@[b] <= sorted@.len(),
            forall|b: int, j: int|
                0 <= b <= current && 0 <= j < offsets@[b] ==> #[trigger] sorted@[j].0 < b && (
                #[trigger] offsets@[b]) >= 0,
            forall|b: int, j: int|
                0 <= b <= current && offsets@[b] <= j < sorted@.len() ==> #[trigger] sorted@[j].0
                    >= b && (#[trigger] offsets@[b]) >= 0,
        decreases n - current,
    {
        current += 1;
        offsets.push(k as u32);
    }
    proof {
        assert forall|c: int| 0 <= c <= n implies #[trigger] offsets@[c] == laid_out(
            assignments@,
            c,
        ).len() by {
            let o = offsets@[c] as int;
            assert forall|j: int| 0 <= j < o implies (#[trigger] sorted@[j]).0 < c by {
                assert(offsets@[c] >= 0);
            }
            assert forall|j: int| o <= j < sorted@.len() implies (#[trigger] sorted@[j]).0
                >= c by {
                assert(offsets@[c] >= 0);
            }
            lemma_front_is_key_by_key(sorted@, c, o);
            lemma_pairs_laid_out(assignments@, sorted@, c);
        }
        lemma_sorted_is_key_by_key(sorted@, n as int);
        lemma_pairs_laid_out(assignments@, sorted@, n as int);
        assert(sorted@.take(k as int) =~= sorted@);
    }
    (offsets, order)
}

proof fn lemma_laid_out_grows(assignments: Seq<usize>, b: int, c: int)
    requires
        b <= c,
    ensures
        laid_out(assignments, b).len() <= laid_out(assignments, c).len(),
        laid_out(assignments, c).take(laid_out(assignments, b).len() as int) == laid_out(
            assignments,
            b,
        ),
    decreases c,
{
    let whole = laid_out(assignments, c);
    let front = laid_out(assignments, b);
    if b == c || c <= 0 {
        assert(whole.take(front.len() as int) =~= front);
    } else {
        lemma_laid_out_grows(assignments, b, c - 1);
        assert(whole.take(front.len() as int) =~= laid_out(assignments, c - 1).take(
            front.len() as int,
        ));
    }
}

/// The records that lie between the offset of a cluster and the next offset are those that
/// are assigned to it, all of them and no others.
pub proof fn a_cluster_lies_between_its_offsets(
    offsets: Seq<u32>,
    assignments: Seq<usize>,
    n: int,
    c: int,
)
    requires
        are_offsets(offsets, assignments, n),
        0 <= c < n,
    ensures
        offsets[c] <= offsets[c + 1] <= laid_out(assignments, n).len(),
        laid_out(assignments, n).subrange(offsets[c] as int, offsets[c + 1] as int) == members(
            assignments,
            c,
        ),
{
    lemma_laid_out_grows(assignments, c, c + 1);
    lemma_laid_out_grows(assignments, c + 1, n);
    let start = laid_out(assignments, c).len() as int;
    let end = laid_out(assignments, c + 1).len() as int;
    let upto = laid_out(assignments, n).take(end);
    assert(offsets[c] == start && offsets[c + 1] == end);
    assert(upto == laid_out(assignments, c + 1));
    assert(laid_out(assignments, n).subrange(start, end) =~= upto.subrange(start, end));
    assert(upto.subrange(start, end) =~= members(assignments, c));
}

/// The members of the first `n` clusters among the first `m` places.
spec fn laid_out_among(assignments: Seq<usize>, n: int, m: int) -> Seq<usize>
    decreases n,
{
    if n <= 0 {
        Seq::empty()
    } else {
        laid_out_among(assignments, n - 1, m) + places_of(assignments, n - 1, m)
    }
}

proof fn lemma_laid_out_among(assignments: Seq<usize>, n: int)
    ensures
        laid_out_among(assignments, n, assignments.len() as int) == laid_out(assignments, n),
    decreases n,
{
    if n > 0 {
        lemma_laid_out_among(assignments, n - 1);
    }
}

proof fn lemma_one_more_place(assignments: Seq<usize>, n: int, m: int)
    requires
        0 < m <= assignments.len(),
    ensures
        laid_out_among(assignments, n, m).to_multiset() == if assignments[m - 1] < n {
            laid_out_among(assignments, n, m - 1).to_multiset().insert((m - 1) as usize)
        } else {
            laid_out_among(assignments, n, m - 1).to_multiset()
        },
    decreases n,
{
    broadcast use vstd::multiset::group_multiset_axioms;

    if n > 0 {
        lemma_one_more_place(assignments, n - 1, m);
        lemma_multiset_commutative(
            laid_out_among(assignments, n - 1, m),
            places_of(assignments, n - 1, m),
        );
        lemma_multiset_commutative(
            laid_out_among(assignments, n - 1, m - 1),
            places_of(assignments, n - 1, m - 1),
        );
        to_multiset_build(places_of(assignments, n - 1, m - 1), (m - 1) as usize);
        assert(laid_out_among(assignments, n, m).to_multiset() =~= if assignments[m - 1] < n {
            laid_out_among(assignments, n, m - 1).to_multiset().insert((m - 1) as usize)
        } else {
            laid_out_among(assignments, n, m - 1).to_multiset()
        });
    } else {
        assert(laid_out_among(assignments, n, m) =~= laid_out_among(assignments, n, m - 1));
    }
}

/// The first `m` places.
pub open spec fn places(m: nat) -> Seq<usize> {
    Seq::new(m, |i: int| i as usize)
}

proof fn lemma_all_places_among(assignments: Seq<usize>, n: int, m: int)
    requires
        0 <= m <= assignments.len(),
        forall|i: int| 0 <= i < assignments.len() ==> #[trigger] assignments[i] < n,
    ensures
        laid_out_among(assignments, n, m).to_multiset() == places(m as nat).to_multiset(),
    decreases m,
{
    if m == 0 {
        lemma_nothing_laid_out(assignments, n);
        assert(places(0) =~= Seq::empty());
    } else {
        lemma_all_places_among(assignments, n, m - 1);
        lemma_one_more_place(assignments, n, m);
        assert(places(m as nat) =~= places((m - 1) as nat).push((m - 1) as usize));
        to_multiset_build(places((m - 1) as nat), (m - 1) as usize);
    }
}

proof fn lemma_nothing_laid_out(assignments: Seq<usize>, n: int)
    ensures
        laid_out_among(assignments, n, 0) == Seq::<usize>::empty(),
    decreases n,
{
    if n > 0 {
        lemma_nothing_laid_out(assignments, n - 1);
        assert(laid_out_among(assignments, n, 0) =~= Seq::empty());
    }
}

/// Every record is laid out exactly once.
pub proof fn every_record_is_laid_out_once(assignments: Seq<usize>, n: int)
    requires
        forall|i: int| 0 <= i < assignments.len() ==> #[trigger] assignments[i] < n,
    ensures
        laid_out(assignments, n).len() == assignments.len(),
        laid_out(assignments, n).to_multiset() == places(assignments.len()).to_multiset(),
{
    lemma_laid_out_among(assignments, n);
    lemma_all_places_among(assignments, n, assignments.len() as int);
    to_multiset_len(laid_out(assignments, n));
    to_multiset_len(places(assignments.len()));
}

proof fn lemma_places_of_grow(assignments: Seq<usize>, c: int, l: int, m: int)
    requires
        0 <= l <= m <= assignments.len(),
    ensures
        places_of(assignments, c, l).len() <= places_of(assignments, c, m).len(),
        places_of(assignments, c, m).take(places_of(assignments, c, l).len() as int) == places_of(
            assignments,
            c,
            l,
        ),
    decreases m,
{
    let front = places_of(assignments, c, l);
    let whole = places_of(assignments, c, m);
    if l == m {
        assert(whole.take(front.len() as int) =~= front);
    } else {
        lemma_places_of_grow(assignments, c, l, m - 1);
        assert(whole.take(front.len() as int) =~= places_of(assignments, c, m - 1).take(
            front.len() as int,
        ));
    }
}

/// The assignments as numbers of clusters.
pub open spec fn widened(assignments: Seq<u16>) -> Seq<usize> {
    assignments.map_values(|a: u16| a as usize)
}

/// Counts the members of each of `n` clusters.
fn count_members(assignments: &Vec<u16>, n: usize) -> (r: Vec<u32>)
    requires
        assignments@.len() <= u32::MAX,
        forall|i: int| 0 <= i < assignments@.len() ==> #[trigger] assignments@[i] < n,
    ensures
        r@.len() == n,
        forall|c: int|
            0 <= c < n ==> #[trigger] r@[c] == members(widened(assignments@), c).len(),
{
    let ghost wide = widened(assignments@);
    let mut counts: Vec<u32> = Vec::new();
    let mut c: usize = 0;
    while c < n
        invariant
            c <= n,
            counts@.len() == c,
            forall|b: int| 0 <= b < c ==> counts@[b] == 0,
        decreases n - c,
    {
        counts.push(0);
        c += 1;
    }
    let mut i: usize = 0;
    while i < assignments.len()
        invariant
            i <= assignments@.len() <= u32::MAX,
            counts@.len() == n,
            wide == widened(assignments@),
            forall|k: int| 0 <= k < assignments@.len() ==> #[trigger] assignments@[k] < n,
            forall|b: int|
                0 <= b < n ==> #[trigger] counts@[b] == places_of(wide, b, i as int).len(),
            forall|b: int| 0 <= b < n ==> #[trigger] counts@[b] <= i,
        decreases assignments@.len() - i,
    {
        let a = assignments[i] as usize;
        assert(wide[i as int] == a);
        let count = counts[a];
        counts[a] = count + 1;
        i += 1;
    }
    counts
}

/// Lays the records out in `n` clusters by counting: where each cluster starts and where the
/// last one ends, and the places of the records in the order of the clusters.
pub fn lay_out_by_counting(assignments: &Vec<u16>, n: usize) -> (r: (Vec<u32>, Vec<u32>))
    requires
        assignments@.len() <= u32::MAX,
        n < usize::MAX,
        forall|i: int| 0 <= i < assignments@.len() ==> #[trigger] assignments@[i] < n,
    ensures
        are_offsets(r.0@, widened(assignments@), n as int),
        r.1@ == laid_out(widened(assignments@), n as int).map_values(|i: usize| i as u32),
{
    let ghost wide = widened(assignments@);
    let ghost whole = laid_out(wide, n as int);
    proof {
        every_record_is_laid_out_once(wide, n as int);
    }
    let counts = count_members(assignments, n);
    let mut offsets: Vec<u32> = Vec::new();
    offsets.push(0);
    let mut c: usize = 0;
    while c < n
        invariant
            c <= n < usize::MAX,
            n == counts@.len(),
            wide.len() == assignments@.len() <= u32::MAX,
            laid_out(wide, n as int).len() == wide.len(),
            forall|b: int| 0 <= b < n ==> #[trigger] counts@[b] == members(wide, b).len(),
            offsets@.len() == c + 1,
            forall|b: int| 0 <= b <= c ==> #[trigger] offsets@[b] == laid_out(wide, b).len(),
        decreases n - c,
    {
        proof {
            lemma_laid_out_grows(wide, c + 1, n as int);
        }
        let next = offsets[c] + counts[c];
        offsets.push(next);
        c += 1;
    }
    let mut indices: Vec<u32> = Vec::new();
    let mut i: usize = 0;
    while i < assignments.len()
        invariant
            i <= assignments@.len(),
            indices@.len() == i,
        decreases assignments@.len() - i,
    {
        indices.push(0);
        i += 1;
    }
    let mut current: Vec<u32> = Vec::new();
    let mut c: usize = 0;
    while c < offsets.len()
        invariant
            c <= offsets@.len(),
            current@ =~= offsets@.take(c as int),
        decreases offsets@.len() - c,
    {
        current.push(offsets[c]);
        c += 1;
    }
    assert(current@ =~= offsets@);
    let mut i: usize = 0;
    while i < assignments.len()
        invariant
            i <= assignments@.len() <= u32::MAX,
            wide == widened(assignments@),
            whole == laid_out(wide, n as int),
            whole.len() == wide.len(),
            indices@.len() == assignments@.len(),
            current@.len() == n + 1,
            are_offsets(offsets@, wide, n as int),
            forall|k: int| 0 <= k < assignments@.len() ==> #[trigger] assignments@[k] < n,
            forall|b: int|
                0 <= b < n ==> #[trigger] current@[b] == offsets@[b] + places_of(
                    wide,
                    b,
                    i as int,
                ).len(),
            forall|b: int, k: int|
                0 <= b < n && 0 <= k < places_of(wide, b, i as int).len() ==> #[trigger] indices@[
                offsets@[b] + k] == #[trigger] places_of(wide, b, i as int)[k],
        decreases assignments@.len() - i,
    {
        let a = assignments[i] as usize;
        assert(wide[i as int] == a);
        let pos = current[a];
        let ghost before = indices@;
        proof {
            lemma_places_of_grow(wide, a as int, i + 1, wide.len() as int);
            a_cluster_lies_between_its_offsets(offsets@, wide, n as int, a as int);
            assert(pos < offsets@[a + 1]) by {
                let part = whole.subrange(offsets@[a as int] as int, offsets@[a + 1] as int);
                assert(part.len() == offsets@[a + 1] - offsets@[a as int]);
            }
        }
        indices[pos as usize] = i as u32;
        current[a] = pos + 1;
        proof {
            assert forall|b: int, k: int|
                0 <= b < n && 0 <= k < places_of(wide, b, i + 1).len() implies #[trigger] indices@[
            offsets@[b] + k] == #[trigger] places_of(wide, b, i + 1)[k] by {
                if b == a {
                    if k < places_of(wide, b, i as int).len() {
                        assert(before[offsets@[b] + k] == places_of(wide, b, i as int)[k]);
                    }
                } else {
                    assert(before[offsets@[b] + k] == places_of(wide, b, i as int)[k]);
                    lemma_places_of_grow(wide, b, i as int, wide.len() as int);
                    a_cluster_lies_between_its_offsets(offsets@, wide, n as int, b);
                    let part = whole.subrange(offsets@[b] as int, offsets@[b + 1] as int);
                    assert(part.len() == offsets@[b + 1] - offsets@[b]);
                    assert(offsets@[b] + k != pos) by {
                        if b < a {
                            lemma_laid_out_grows(wide, b + 1, a as int);
                            assert(offsets@[b + 1] == laid_out(wide, b + 1).len());
                            assert(offsets@[a as int] == laid_out(wide, a as int).len());
                        } else {
                            lemma_laid_out_grows(wide, a + 1, b);
                            assert(offsets@[a + 1] == laid_out(wide, a + 1).len());
                            assert(offsets@[b] == laid_out(wide, b).len());
                        }
                    }
                }
            }
        }
        i += 1;
    }
    proof {
        assert forall|j: int| 0 <= j < whole.len() implies indices@[j] == (
        #[trigger] whole[j]) as u32 by {
            lemma_in_some_cluster(offsets@, wide, n as int, j);
            let b = choose|b: int|
                0 <= b < n && #[trigger] offsets@[b] <= j && j < offsets@[b + 1];
            a_cluster_lies_between_its_offsets(offsets@, wide, n as int, b);
            let part = whole.subrange(offsets@[b] as int, offsets@[b + 1] as int);
            let k = j - offsets@[b];
            assert(part[k] == whole[j]);
            assert(indices@[offsets@[b] + k] == places_of(wide, b, wide.len() as int)[k]);
        }
        assert(indices@ =~= whole.map_values(|i: usize| i as u32));
    }
    (offsets, indices)
}

proof fn lemma_in_some_cluster(offsets: Seq<u32>, assignments: Seq<usize>, n: int, j: int)
    requires
        are_offsets(offsets, assignments, n),
        0 <= j < laid_out(assignments, n).len(),
    ensures
        exists|b: int| 0 <= b < n && #[trigger] offsets[b] <= j && j < offsets[b + 1],
    decreases n,
{
    assert(offsets[n] == laid_out(assignments, n).len());
    assert(offsets[n - 1] == laid_out(assignments, n - 1).len());
    if offsets[n - 1] <= j {
        assert(j < offsets[n - 1 + 1]);
    } else {
        let fewer = offsets.take(n);
        assert(are_offsets(fewer, assignments, n - 1)) by {
            assert forall|c: int| 0 <= c <= n - 1 implies #[trigger] fewer[c] == laid_out(
                assignments,
                c,
            ).len() by {
                assert(fewer[c] == offsets[c]);
            }
        }
        lemma_in_some_cluster(fewer, assignments, n - 1, j);
        let b = choose|b: int| 0 <= b < n - 1 && #[trigger] fewer[b] <= j && j < fewer[b + 1];
        assert(offsets[b] == fewer[b] && offsets[b + 1] == fewer[b + 1]);
    }
}

} // verus!
