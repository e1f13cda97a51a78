//! Clustering: where the centroids start and how they are trained.
//!
//! Vectors are held as bit patterns. The arithmetic on them is given by the caller; distances
//! are the bit patterns of non-negative real numbers, which are ordered as the numbers are.
use rayon::iter::{IndexedParallelIterator, IntoParallelRefMutIterator, ParallelIterator};
use rand::rngs::StdRng;
use vstd::prelude::*;
use crate::random;
use crate::records::Record;
use crate::top_k::FAR;

verus! {

/// Whether a distance can be taken of any two vectors, and is the same whenever it is taken.
pub open spec fn is_distance<D: Fn([u32; 16], [u32; 16]) -> u32>(distance: D) -> bool {
    &&& forall|v: [u32; 16], w: [u32; 16]| #[trigger] call_requires(distance, (v, w))
    &&& forall|v: [u32; 16], w: [u32; 16], d1: u32, d2: u32| #[trigger]
        call_ensures(distance, (v, w), d1) && #[trigger] call_ensures(distance, (v, w), d2) ==> d1
            == d2
}

/// The distance of two vectors.
pub open spec fn between<D: Fn([u32; 16], [u32; 16]) -> u32>(
    distance: D,
    v: [u32; 16],
    w: [u32; 16],
) -> u32 {
    choose|d: u32| call_ensures(distance, (v, w), d)
}

/// Takes the distance of two vectors.
fn measure<D: Fn([u32; 16], [u32; 16]) -> u32>(
    distance: &D,
    v: [u32; 16],
    w: [u32; 16],
) -> (r: u32)
    requires
        is_distance(*distance),
    ensures
        r == between(*distance, v, w),
{
    let d = distance(v, w);
    assert(call_ensures(*distance, (v, w), d));
    d
}

/// The nearest of the first `n` centroids and its distance: the first one where several are
/// nearest, and centroid 0 at distance `FAR` where none is nearer than that.
pub open spec fn closest<D: Fn([u32; 16], [u32; 16]) -> u32>(
    distance: D,
    v: [u32; 16],
    centroids: Seq<[u32; 16]>,
    n: int,
) -> (u32, usize)
    decreases n,
{
    if n <= 0 {
        (FAR, 0)
    } else {
        let before = closest(distance, v, centroids, n - 1);
        let d = between(distance, v, centroids[n - 1]);
        if d < before.0 {
            (d, (n - 1) as usize)
        } else {
            before
        }
    }
}

/// The centroid that is nearest to a vector.
pub fn nearest_centroid<D: Fn([u32; 16], [u32; 16]) -> u32>(
    v: [u32; 16],
    centroids: &Vec<[u32; 16]>,
    distance: &D,
) -> (r: usize)
    requires
        is_distance(*distance),
    ensures
        r == closest(*distance, v, centroids@, centroids@.len() as int).1,
        centroids@.len() > 0 ==> r < centroids@.len(),
{
    let mut min_dist: u32 = FAR;
    let mut best: usize = 0;
    let mut c: usize = 0;
    while c < centroids.len()
        invariant
            c <= centroids@.len(),
            is_distance(*distance),
            (min_dist, best) == closest(*distance, v, centroids@, c as int),
            centroids@.len() > 0 ==> best < centroids@.len(),
        decreases centroids@.len() - c,
    {
        let dist = measure(distance, v, centroids[c]);
        if dist < min_dist {
            min_dist = dist;
            best = c;
        }
        c += 1;
    }
    best
}

proof fn lemma_closest<D: Fn([u32; 16], [u32; 16]) -> u32>(
    distance: D,
    v: [u32; 16],
    centroids: Seq<[u32; 16]>,
    n: int,
)
    requires
        0 <= n <= centroids.len() <= usize::MAX,
    ensures
        ({
            let (d, r) = closest(distance, v, centroids, n);
            &&& d <= FAR
            &&& d == FAR ==> r == 0
            &&& d < FAR ==> r < n && d == between(distance, v, centroids[r as int])
            &&& forall|i: int|
                0 <= i < n ==> d <= #[trigger] between(distance, v, centroids[i]) || d == FAR
            &&& forall|i: int|
                0 <= i < r ==> d < #[trigger] between(distance, v, centroids[i])
            &&& d == FAR ==> forall|i: int|
                0 <= i < n ==> FAR <= #[trigger] between(distance, v, centroids[i])
        }),
    decreases n,
{
    if n > 0 {
        lemma_closest(distance, v, centroids, n - 1);
    }
}

/// No centroid is nearer than the one that is chosen, and none before it is as near; only
/// where none is nearer than `FAR` the first one is chosen whatever it is.
pub proof fn the_first_nearest_is_chosen<D: Fn([u32; 16], [u32; 16]) -> u32>(
    distance: D,
    v: [u32; 16],
    centroids: Seq<[u32; 16]>,
)
    requires
        0 < centroids.len() <= usize::MAX,
    ensures
        ({
            let r = closest(distance, v, centroids, centroids.len() as int).1;
            let d = between(distance, v, centroids[r as int]);
            &&& r < centroids.len()
            &&& r > 0 || d < FAR ==> (forall|i: int|
                0 <= i < centroids.len() ==> d <= #[trigger] between(distance, v, centroids[i]))
                && (forall|i: int|
                0 <= i < r ==> d < #[trigger] between(distance, v, centroids[i]))
        }),
{
    lemma_closest(distance, v, centroids, centroids.len() as int);
}

/// rayon's `par_iter_mut`, `enumerate` and `for_each` on the elements of a vector: each
/// element is replaced by what the function gives for its place and its value; the order in
/// which that happens is open.
#[verifier::external_body]
fn par_update<T: Copy + Send, F: Fn(usize, T) -> T + Sync>(v: &mut Vec<T>, f: F)
    requires
        forall|i: int|
            0 <= i < old(v)@.len() ==> call_requires(f, (i as usize, #[trigger] old(v)@[i])),
    ensures
        final(v)@.len() == old(v)@.len(),
        forall|i: int|
            0 <= i < old(v)@.len() ==> call_ensures(
                f,
                (i as usize, old(v)@[i]),
                #[trigger] final(v)@[i],
            ),
{
    v.par_iter_mut().enumerate().for_each(|(i, x)| *x = f(i, *x));
}

/// The nearest centroid of each of the first `m` records.
pub open spec fn assignment<D: Fn([u32; 16], [u32; 16]) -> u32>(
    distance: D,
    records: Seq<Record>,
    m: nat,
    centroids: Seq<[u32; 16]>,
) -> Seq<usize> {
    Seq::new(
        m,
        |i: int|
            closest(distance, records[i].vector, centroids, centroids.len() as int).1,
    )
}

/// Assigns each record its nearest centroid.
fn assign<D: Fn([u32; 16], [u32; 16]) -> u32 + Sync>(
    records: &[Record],
    centroids: &Vec<[u32; 16]>,
    assignments: &mut Vec<usize>,
    distance: &D,
)
    requires
        old(assignments)@.len() <= records@.len(),
        is_distance(*distance),
    ensures
        final(assignments)@ == assignment(
            *distance,
            records@,
            old(assignments)@.len(),
            centroids@,
        ),
{
    let f = |i: usize, _before: usize| -> (best: usize)
        requires
            i < records@.len(),
        ensures
            best == closest(
                *distance,
                records@[i as int].vector,
                centroids@,
                centroids@.len() as int,
            ).1,
        { nearest_centroid(records[i].vector, centroids, distance) };
    assert(records@.len() == records.len());
    par_update(assignments, f);
    assert(assignments@ =~= assignment(
        *distance,
        records@,
        old(assignments)@.len(),
        centroids@,
    ));
}

/// Whether a sum can be taken of any two vectors, and is the same whenever it is taken.
pub open spec fn is_sum<P: Fn([u32; 16], [u32; 16]) -> [u32; 16]>(plus: P) -> bool {
    &&& forall|v: [u32; 16], w: [u32; 16]| #[trigger] call_requires(plus, (v, w))
    &&& forall|v: [u32; 16], w: [u32; 16], s1: [u32; 16], s2: [u32; 16]| #[trigger]
        call_ensures(plus, (v, w), s1) && #[trigger] call_ensures(plus, (v, w), s2) ==> s1 == s2
}

/// The sum of two vectors.
pub open spec fn summed<P: Fn([u32; 16], [u32; 16]) -> [u32; 16]>(
    plus: P,
    v: [u32; 16],
    w: [u32; 16],
) -> [u32; 16] {
    choose|s: [u32; 16]| call_ensures(plus, (v, w), s)
}

/// Whether any vector can be divided by any number, and the quotient is the same whenever it
/// is taken.
pub open spec fn is_quotient<Q: Fn([u32; 16], usize) -> [u32; 16]>(over: Q) -> bool {
    &&& forall|v: [u32; 16], n: usize| #[trigger] call_requires(over, (v, n))
    &&& forall|v: [u32; 16], n: usize, q1: [u32; 16], q2: [u32; 16]| #[trigger]
        call_ensures(over, (v, n), q1) && #[trigger] call_ensures(over, (v, n), q2) ==> q1 == q2
}

/// A vector divided by a number.
pub open spec fn divided<Q: Fn([u32; 16], usize) -> [u32; 16]>(
    over: Q,
    v: [u32; 16],
    n: usize,
) -> [u32; 16] {
    choose|q: [u32; 16]| call_ensures(over, (v, n), q)
}

/// The vector of which all words are zero.
pub open spec fn origin() -> [u32; 16] {
    choose|z: [u32; 16]| z@ == Seq::new(16, |i: int| 0u32)
}

/// The vector of which all words are zero.
fn zero() -> (r: [u32; 16])
    ensures
        r == origin(),
{
    let r: [u32; 16] = [0u32; 16];
    assert(r@ =~= Seq::new(16, |i: int| 0u32));
    assert forall|i: int| 0 <= i < 16 implies origin()[i] == r[i] by {
        assert(origin()@[i] == r@[i]);
    }
    assert(r =~= origin());
    r
}

/// How many of the first `m` are assigned centroid `c`.
pub open spec fn count_of(assignments: Seq<usize>, c: int, m: int) -> nat
    decreases m,
{
    if m <= 0 {
        0
    } else if assignments[m - 1] == c {
        count_of(assignments, c, m - 1) + 1
    } else {
        count_of(assignments, c, m - 1)
    }
}

/// The sum of those of the first `m` records that are assigned centroid `c`, one added after
/// the other to zero.
pub open spec fn sum_of<P: Fn([u32; 16], [u32; 16]) -> [u32; 16]>(
    plus: P,
    records: Seq<Record>,
    assignments: Seq<usize>,
    c: int,
    m: int,
) -> [u32; 16]
    decreases m,
{
    if m <= 0 {
        origin()
    } else if assignments[m - 1] == c {
        summed(plus, sum_of(plus, records, assignments, c, m - 1), records[m - 1].vector)
    } else {
        sum_of(plus, records, assignments, c, m - 1)
    }
}

/// The centroids after each moved to the mean of the records that are assigned to it; one
/// without records stays.
pub open spec fn moved<
    P: Fn([u32; 16], [u32; 16]) -> [u32; 16],
    Q: Fn([u32; 16], usize) -> [u32; 16],
>(
    plus: P,
    over: Q,
    records: Seq<Record>,
    centroids: Seq<[u32; 16]>,
    assignments: Seq<usize>,
) -> Seq<[u32; 16]> {
    let m = assignments.len() as int;
    Seq::new(
        centroids.len(),
        |c: int|
            if count_of(assignments, c, m) == 0 {
                centroids[c]
            } else {
                divided(
                    over,
                    sum_of(plus, records, assignments, c, m),
                    count_of(assignments, c, m) as usize,
                )
            },
    )
}

/// The centroids after `n` rounds, in each of which the first `m` records are assigned their
/// nearest centroid and the centroids move to the means.
pub open spec fn trained<
    D: Fn([u32; 16], [u32; 16]) -> u32,
    P: Fn([u32; 16], [u32; 16]) -> [u32; 16],
    Q: Fn([u32; 16], usize) -> [u32; 16],
>(
    distance: D,
    plus: P,
    over: Q,
    records: Seq<Record>,
    m: nat,
    centroids: Seq<[u32; 16]>,
    n: int,
) -> Seq<[u32; 16]>
    decreases n,
{
    if n <= 0 {
        centroids
    } else {
        let before = trained(distance, plus, over, records, m, centroids, n - 1);
        moved(plus, over, records, before, assignment(distance, records, m, before))
    }
}

proof fn lemma_count(assignments: Seq<usize>, c: int, m: int)
    requires
        0 <= m,
    ensures
        count_of(assignments, c, m) <= m,
    decreases m,
{
    if m > 0 {
        lemma_count(assignments, c, m - 1);
    }
}

/// Moves the centroids to the means.
fn move_centroids<
    P: Fn([u32; 16], [u32; 16]) -> [u32; 16],
    Q: Fn([u32; 16], usize) -> [u32; 16],
>(
    records: &[Record],
    centroids: &mut Vec<[u32; 16]>,
    assignments: &Vec<usize>,
    plus: &P,
    over: &Q,
)
    requires
        assignments@.len() <= records@.len(),
        forall|i: int|
            0 <= i < assignments@.len() ==> #[trigger] assignments@[i] < old(centroids)@.len(),
        is_sum(*plus),
        is_quotient(*over),
    ensures
        final(centroids)@ == moved(*plus, *over, records@, old(centroids)@, assignments@),
{
    let n = centroids.len();
    let ghost before = centroids@;
    let mut sums: Vec<[u32; 16]> = Vec::new();
    let mut counts: Vec<usize> = Vec::new();
    let mut c: usize = 0;
    while c < n
        invariant
            c <= n,
            sums@.len() == c,
            counts@.len() == c,
            forall|k: int| 0 <= k < c ==> sums@[k] == origin() && counts@[k] == 0,
        decreases n - c,
    {
        sums.push(zero());
        counts.push(0);
        c += 1;
    }
    let mut i: usize = 0;
    while i < assignments.len()
        invariant
            i <= assignments@.len() <= records@.len(),
            n == centroids@.len(),
            sums@.len() == n,
            counts@.len() == n,
            forall|k: int| 0 <= k < assignments@.len() ==> #[trigger] assignments@[k] < n,
            is_sum(*plus),
            forall|k: int| 0 <= k < n ==> #[trigger] sums@[k] == sum_of(
                *plus,
                records@,
                assignments@,
                k,
                i as int,
            ),
            forall|k: int| 0 <= k < n ==> #[trigger] counts@[k] == count_of(
                assignments@,
                k,
                i as int,
            ),
        decreases assignments@.len() - i,
    {
        let a = assignments[i];
        let sum = plus(sums[a], records[i].vector);
        assert(call_ensures(*plus, (sums@[a as int], records@[i as int].vector), sum));
        proof {
            lemma_count(assignments@, a as int, i as int);
        }
        sums[a] = sum;
        let count = counts[a];
        counts[a] = count + 1;
        i += 1;
    }
    let mut c: usize = 0;
    while c < n
        invariant
            c <= n,
            n == centroids@.len(),
            n == before.len(),
            sums@.len() == n,
            counts@.len() == n,
            is_quotient(*over),
            forall|k: int| 0 <= k < n ==> #[trigger] sums@[k] == sum_of(
                *plus,
                records@,
                assignments@,
                k,
                assignments@.len() as int,
            ),
            forall|k: int| 0 <= k < n ==> #[trigger] counts@[k] == count_of(
                assignments@,
                k,
                assignments@.len() as int,
            ),
            forall|k: int|
                0 <= k < c ==> centroids@[k] == moved(
                    *plus,
                    *over,
                    records@,
                    before,
                    assignments@,
                )[k],
            forall|k: int| c <= k < n ==> centroids@[k] == before[k],
        decreases n - c,
    {
        let count = counts[c];
        if count > 0 {
            let mean = over(sums[c], count);
            assert(call_ensures(*over, (sums@[c as int], count), mean));
            centroids[c] = mean;
        }
        c += 1;
    }
    assert(centroids@ =~= moved(*plus, *over, records@, before, assignments@));
}

/// Trains the centroids: in each round the records, as many as there are assignments, are
/// assigned their nearest centroid, and then each centroid moves to the mean of its records.
pub fn train_k_means<
    D: Fn([u32; 16], [u32; 16]) -> u32 + Sync,
    P: Fn([u32; 16], [u32; 16]) -> [u32; 16],
    Q: Fn([u32; 16], usize) -> [u32; 16],
>(
    records: &[Record],
    centroids: &mut Vec<[u32; 16]>,
    assignments: &mut Vec<usize>,
    iterations: usize,
    distance: &D,
    plus: &P,
    over: &Q,
)
    requires
        old(assignments)@.len() <= records@.len(),
        old(centroids)@.len() > 0 || old(assignments)@.len() == 0 || iterations == 0,
        is_distance(*distance),
        is_sum(*plus),
        is_quotient(*over),
    ensures
        final(centroids)@ == trained(
            *distance,
            *plus,
            *over,
            records@,
            old(assignments)@.len(),
            old(centroids)@,
            iterations as int,
        ),
        final(centroids)@.len() == old(centroids)@.len(),
        iterations == 0 ==> final(assignments)@ == old(assignments)@,
        iterations > 0 ==> final(assignments)@ == assignment(
            *distance,
            records@,
            old(assignments)@.len(),
            trained(
                *distance,
                *plus,
                *over,
                records@,
                old(assignments)@.len(),
                old(centroids)@,
                iterations - 1,
            ),
        ),
{
    let ghost m = assignments@.len();
    let ghost start = centroids@;
    let mut round: usize = 0;
    while round < iterations
        invariant
            round <= iterations,
            m == old(assignments)@.len(),
            start == old(centroids)@,
            assignments@.len() == m,
            m <= records@.len(),
            centroids@.len() == start.len(),
            start.len() > 0 || m == 0 || iterations == 0,
            is_distance(*distance),
            is_sum(*plus),
            is_quotient(*over),
            centroids@ == trained(
                *distance,
                *plus,
                *over,
                records@,
                m,
                start,
                round as int,
            ),
            round == 0 ==> assignments@ == old(assignments)@,
            round > 0 ==> assignments@ == assignment(
                *distance,
                records@,
                m,
                trained(*distance, *plus, *over, records@, m, start, round - 1),
            ),
        decreases iterations - round,
    {
        assign(records, centroids, assignments, distance);
        proof {
            assert forall|i: int| 0 <= i < m implies #[trigger] assignments@[i]
                < centroids@.len() by {
                assert(centroids@.len() == centroids.len());
                lemma_closest(
                    *distance,
                    records@[i].vector,
                    centroids@,
                    centroids@.len() as int,
                );
            }
        }
        move_centroids(records, centroids, assignments, plus, over);
        round += 1;
    }
}

/// Training keeps the number of centroids.
pub proof fn training_keeps_the_number<
    D: Fn([u32; 16], [u32; 16]) -> u32,
    P: Fn([u32; 16], [u32; 16]) -> [u32; 16],
    Q: Fn([u32; 16], usize) -> [u32; 16],
>(
    distance: D,
    plus: P,
    over: Q,
    records: Seq<Record>,
    m: nat,
    centroids: Seq<[u32; 16]>,
    n: int,
)
    ensures
        trained(distance, plus, over, records, m, centroids, n).len() == centroids.len(),
    decreases n,
{
    if n > 0 {
        training_keeps_the_number(distance, plus, over, records, m, centroids, n - 1);
    }
}

/// The arithmetic of a draw: `add` adds the square of its second argument to the first, `take`
/// takes that square away, and `portion` is a portion of its second argument, the larger the
/// larger the word.
pub struct Drawing<A, T, O> {
    pub add: A,
    pub take: T,
    pub portion: O,
}

/// Whether an operation can be done on any two numbers, and its result is always the same.
pub open spec fn is_operation<F: Fn(u32, u32) -> u32>(f: F) -> bool {
    &&& forall|a: u32, b: u32| #[trigger] call_requires(f, (a, b))
    &&& forall|a: u32, b: u32, r1: u32, r2: u32| #[trigger]
        call_ensures(f, (a, b), r1) && #[trigger] call_ensures(f, (a, b), r2) ==> r1 == r2
}

/// The result of an operation.
pub open spec fn result_of<F: Fn(u32, u32) -> u32>(f: F, a: u32, b: u32) -> u32 {
    choose|r: u32| call_ensures(f, (a, b), r)
}

impl<
    A: Fn(u32, u32) -> u32,
    T: Fn(u32, u32) -> u32,
    O: Fn(u32, u32) -> u32,
> Drawing<A, T, O> {
    /// All three are operations.
    pub open spec fn wf(&self) -> bool {
        is_operation(self.add) && is_operation(self.take) && is_operation(self.portion)
    }

    /// The sum of the squares of the first `n` distances.
    pub open spec fn total(&self, dists: Seq<u32>, n: int) -> u32
        decreases n,
    {
        if n <= 0 {
            0
        } else {
            result_of(self.add, self.total(dists, n - 1), dists[n - 1])
        }
    }

    /// What is left of a number after the squares of the first `n` distances were taken away.
    pub open spec fn left(&self, t: u32, dists: Seq<u32>, n: int) -> u32
        decreases n,
    {
        if n <= 0 {
            t
        } else {
            result_of(self.take, self.left(t, dists, n - 1), dists[n - 1])
        }
    }

    /// The first place, from `i` on, after which nothing is left; the last place if there is
    /// none.
    pub open spec fn place(&self, t: u32, dists: Seq<u32>, i: int) -> int
        decreases dists.len() - i,
    {
        if i >= dists.len() {
            dists.len() - 1
        } else if spent(self.left(t, dists, i + 1)) {
            i
        } else {
            self.place(t, dists, i + 1)
        }
    }

    /// The place that is drawn with a random word: farther records are more likely.
    pub open spec fn drawn(&self, dists: Seq<u32>, word: u32) -> int {
        self.place(
            result_of(self.portion, word, self.total(dists, dists.len() as int)),
            dists,
            0,
        )
    }

    /// Draws a place.
    fn draw(&self, dists: &Vec<u32>, word: u32) -> (r: usize)
        requires
            self.wf(),
            dists@.len() > 0,
        ensures
            r == self.drawn(dists@, word),
            r < dists@.len(),
    {
        let mut total: u32 = 0;
        let mut i: usize = 0;
        while i < dists.len()
            invariant
                i <= dists@.len(),
                self.wf(),
                total == self.total(dists@, i as int),
            decreases dists@.len() - i,
        {
            let add_square = &self.add;
            let sum = add_square(total, dists[i]);
            assert(call_ensures(self.add, (total, dists@[i as int]), sum));
            total = sum;
            i += 1;
        }
        let portion = &self.portion;
        let t = portion(word, total);
        assert(call_ensures(self.portion, (word, total), t));
        let mut threshold: u32 = t;
        let mut i: usize = 0;
        while i < dists.len()
            invariant
                i <= dists@.len(),
                self.wf(),
                dists@.len() > 0,
                threshold == self.left(t, dists@, i as int),
                self.place(t, dists@, 0) == self.place(t, dists@, i as int),
                self.drawn(dists@, word) == self.place(t, dists@, 0),
            decreases dists@.len() - i,
        {
            let take = &self.take;
            let rest = take(threshold, dists[i]);
            assert(call_ensures(self.take, (threshold, dists@[i as int]), rest));
            threshold = rest;
            if is_spent(threshold) {
                return i;
            }
            i += 1;
        }
        dists.len() - 1
    }
}

/// Whether the number with these bits is zero or negative.
pub open spec fn spent(bits: u32) -> bool {
    bits == 0 || 0x8000_0000 <= bits <= 0xff80_0000
}

/// Whether the number with these bits is zero or negative.
fn is_spent(bits: u32) -> (r: bool)
    ensures
        r == spent(bits),
{
    bits == 0 || (0x8000_0000 <= bits && bits <= 0xff80_0000)
}

/// The distance of each record to the nearest of the first `n` centroids.
pub open spec fn dists_to<D: Fn([u32; 16], [u32; 16]) -> u32>(
    distance: D,
    records: Seq<Record>,
    centroids: Seq<[u32; 16]>,
    n: int,
) -> Seq<u32>
    decreases n,
{
    if n <= 0 {
        Seq::new(records.len(), |i: int| FAR)
    } else {
        let before = dists_to(distance, records, centroids, n - 1);
        Seq::new(
            records.len(),
            |i: int|
                {
                    let d = between(distance, records[i].vector, centroids[n - 1]);
                    if d < before[i] {
                        d
                    } else {
                        before[i]
                    }
                },
        )
    }
}

/// The first centroid and `n` more: the vectors of a given record and of those that are drawn
/// with the words, one after the other.
pub open spec fn spread_of<
    D: Fn([u32; 16], [u32; 16]) -> u32,
    A: Fn(u32, u32) -> u32,
    T: Fn(u32, u32) -> u32,
    O: Fn(u32, u32) -> u32,
>(
    distance: D,
    drawing: Drawing<A, T, O>,
    records: Seq<Record>,
    first: int,
    words: Seq<u32>,
    n: int,
) -> Seq<[u32; 16]>
    decreases n,
{
    if n <= 0 {
        seq![records[first].vector]
    } else {
        let before = spread_of(distance, drawing, records, first, words, n - 1);
        let dists = dists_to(distance, records, before, before.len() as int);
        before.push(records[drawing.drawn(dists, words[n - 1])].vector)
    }
}

proof fn lemma_dists<D: Fn([u32; 16], [u32; 16]) -> u32>(
    distance: D,
    records: Seq<Record>,
    a: Seq<[u32; 16]>,
    b: Seq<[u32; 16]>,
    n: int,
)
    requires
        n <= a.len(),
        n <= b.len(),
        forall|i: int| 0 <= i < n ==> a[i] == b[i],
    ensures
        dists_to(distance, records, a, n) == dists_to(distance, records, b, n),
    decreases n,
{
    if n > 0 {
        lemma_dists(distance, records, a, b, n - 1);
        assert(dists_to(distance, records, a, n) =~= dists_to(distance, records, b, n));
    }
}

/// Centroids that are spread over the records: the vectors of a given record and of one for
/// each word.
pub fn spread<
    D: Fn([u32; 16], [u32; 16]) -> u32 + Sync,
    A: Fn(u32, u32) -> u32,
    T: Fn(u32, u32) -> u32,
    O: Fn(u32, u32) -> u32,
>(
    records: &[Record],
    first: usize,
    words: &Vec<u32>,
    distance: &D,
    drawing: &Drawing<A, T, O>,
) -> (r: Vec<[u32; 16]>)
    requires
        first < records@.len(),
        is_distance(*distance),
        drawing.wf(),
    ensures
        r@ == spread_of(
            *distance,
            *drawing,
            records@,
            first as int,
            words@,
            words@.len() as int,
        ),
        r@.len() == words@.len() + 1,
{
    let mut centroids: Vec<[u32; 16]> = Vec::new();
    centroids.push(records[first].vector);
    let mut min_dists: Vec<u32> = Vec::new();
    let count = records.len();
    let mut i: usize = 0;
    while i < count
        invariant
            i <= count,
            min_dists@.len() == i,
            forall|j: int| 0 <= j < i ==> min_dists@[j] == FAR,
        decreases count - i,
    {
        min_dists.push(FAR);
        i += 1;
    }
    assert(centroids@ =~= spread_of(*distance, *drawing, records@, first as int, words@, 0));
    assert(min_dists@ =~= dists_to(*distance, records@, centroids@, 0));
    let mut n: usize = 0;
    while n < words.len()
        invariant
            n <= words@.len(),
            count == records@.len(),
            first < count,
            is_distance(*distance),
            drawing.wf(),
            centroids@.len() == n + 1,
            centroids@ == spread_of(
                *distance,
                *drawing,
                records@,
                first as int,
                words@,
                n as int,
            ),
            min_dists@ == dists_to(*distance, records@, centroids@, n as int),
            min_dists@.len() == count,
        decreases words@.len() - n,
    {
        let last = centroids[n];
        let f = |i: usize, before: u32| -> (d: u32)
            requires
                i < records@.len(),
            ensures
                d == ({
                    let new = between(*distance, records@[i as int].vector, last);
                    if new < before {
                        new
                    } else {
                        before
                    }
                }),
            {
                let new = measure(distance, records[i].vector, last);
                if new < before {
                    new
                } else {
                    before
                }
            };
        par_update(&mut min_dists, f);
        assert(min_dists@ =~= dists_to(*distance, records@, centroids@, n + 1));
        let chosen = drawing.draw(&min_dists, words[n]);
        let ghost before = centroids@;
        centroids.push(records[chosen].vector);
        proof {
            lemma_dists(*distance, records@, before, centroids@, n + 1);
        }
        n += 1;
    }
    centroids
}

/// The seed of the generator.
pub const SEED: u64 = 42;

/// A new generator, and the first place below `count` that it gives.
pub fn draw_first(count: usize) -> (r: (StdRng, usize))
    requires
        count > 0,
    ensures
        r.1 < count,
        exists|asked: &mut StdRng|
            call_ensures(random::seeded, (SEED,), *asked) && *final(asked) == r.0
                && #[trigger] call_ensures(random::below, (asked, count), r.1),
{
    let mut rng = random::seeded(SEED);
    let first = random::below(&mut rng, count);
    (rng, first)
}

/// The generator after it was asked for a word, and the word.
pub fn draw_word(rng: StdRng) -> (r: (StdRng, u32))
    ensures
        exists|asked: &mut StdRng|
            *asked == rng && *final(asked) == r.0 && #[trigger] call_ensures(
                random::word,
                (asked,),
                r.1,
            ),
{
    let mut next = rng;
    let word = random::word(&mut next);
    let r = (next, word);
    proof {
        let asked = choose|asked: &mut StdRng|
            *asked == rng && *final(asked) == next && #[trigger] call_ensures(
                random::word,
                (asked,),
                word,
            );
        assert(call_ensures(random::word, (asked,), r.1));
        assert(*asked == rng && *final(asked) == r.0);
    }
    r
}

/// Whether one generator may give a first place below `count` and then these words, one after
/// the other.
pub open spec fn may_draw(count: usize, first: usize, words: Seq<u32>) -> bool {
    exists|states: Seq<StdRng>|
        #![trigger states.len()]
        {
            &&& states.len() == words.len() + 1
            &&& call_ensures(draw_first, (count,), (states[0], first))
            &&& forall|k: int|
                0 <= k < words.len() ==> call_ensures(
                    draw_word,
                    (states[k],),
                    (states[k + 1], #[trigger] words[k]),
                )
        }
}

/// Draws what the centroids start from: a place below `count`, and `n` words.
fn draw_start(count: usize, n: usize) -> (r: (usize, Vec<u32>))
    requires
        count > 0,
    ensures
        r.0 < count,
        r.1@.len() == n,
        may_draw(count, r.0, r.1@),
{
    let (start, first) = draw_first(count);
    let mut rng = start;
    let ghost mut states: Seq<StdRng> = seq![rng];
    let mut words: Vec<u32> = Vec::new();
    while words.len() < n
        invariant
            words@.len() <= n,
            states.len() == words@.len() + 1,
            states.last() == rng,
            call_ensures(draw_first, (count,), (states[0], first)),
            forall|k: int|
                0 <= k < words@.len() ==> call_ensures(
                    draw_word,
                    (states[k],),
                    (states[k + 1], #[trigger] words@[k]),
                ),
        decreases n - words@.len(),
    {
        let ghost before = rng;
        let (next, word) = draw_word(rng);
        rng = next;
        words.push(word);
        proof {
            states = states.push(rng);
            assert(call_ensures(draw_word, (before,), (rng, word)));
        }
    }
    assert(states.len() == words@.len() + 1);
    (first, words)
}

/// Centroids for a clustering: the vector of a random record, and of records that are drawn so
/// that those far from the centroids before are more likely. Without records all are zero.
pub fn init_kmeans_plus_plus<
    D: Fn([u32; 16], [u32; 16]) -> u32 + Sync,
    A: Fn(u32, u32) -> u32,
    T: Fn(u32, u32) -> u32,
    O: Fn(u32, u32) -> u32,
>(
    records: &[Record],
    n_clusters: usize,
    distance: &D,
    drawing: &Drawing<A, T, O>,
) -> (r: Vec<[u32; 16]>)
    requires
        is_distance(*distance),
        drawing.wf(),
    ensures
        records@.len() == 0 ==> r@ == Seq::new(n_clusters as nat, |i: int| origin()),
        records@.len() > 0 ==> r@.len() == if n_clusters == 0 {
            1
        } else {
            n_clusters as int
        },
        records@.len() > 0 ==> exists|first: usize, words: Seq<u32>| #[trigger]
            may_draw(records.len(), first, words) && first < records@.len() && words.len()
                == r@.len() - 1 && r@ == spread_of(
                *distance,
                *drawing,
                records@,
                first as int,
                words,
                words.len() as int,
            ),
        records@.len() > 0 ==> forall|c: int|
            0 <= c < r@.len() ==> exists|i: int|
                0 <= i < records@.len() && (#[trigger] records@[i]).vector == #[trigger] r@[c],
{
    if records.len() == 0 {
        let mut centroids: Vec<[u32; 16]> = Vec::new();
        let mut c: usize = 0;
        while c < n_clusters
            invariant
                c <= n_clusters,
                centroids@ =~= Seq::new(c as nat, |i: int| origin()),
            decreases n_clusters - c,
        {
            centroids.push(zero());
            c += 1;
        }
        return centroids;
    }
    let others: usize = if n_clusters == 0 {
        0
    } else {
        n_clusters - 1
    };
    let (first, words) = draw_start(records.len(), others);
    assert(may_draw(records.len(), first, words@));
    proof {
        centroids_start_at_records(
            *distance,
            *drawing,
            records@,
            first as int,
            words@,
            words@.len() as int,
        );
    }
    spread(records, first, &words, distance, drawing)
}

proof fn lemma_place_in_range<
    A: Fn(u32, u32) -> u32,
    T: Fn(u32, u32) -> u32,
    O: Fn(u32, u32) -> u32,
>(drawing: Drawing<A, T, O>, t: u32, dists: Seq<u32>, i: int)
    requires
        dists.len() > 0,
        0 <= i <= dists.len(),
    ensures
        0 <= drawing.place(t, dists, i) < dists.len(),
    decreases dists.len() - i,
{
    if i < dists.len() && !spent(drawing.left(t, dists, i + 1)) {
        lemma_place_in_range(drawing, t, dists, i + 1);
    }
}

/// Every centroid starts at the vector of a record.
pub proof fn centroids_start_at_records<
    D: Fn([u32; 16], [u32; 16]) -> u32,
    A: Fn(u32, u32) -> u32,
    T: Fn(u32, u32) -> u32,
    O: Fn(u32, u32) -> u32,
>(
    distance: D,
    drawing: Drawing<A, T, O>,
    records: Seq<Record>,
    first: int,
    words: Seq<u32>,
    n: int,
)
    requires
        0 <= first < records.len(),
        0 <= n,
    ensures
        spread_of(distance, drawing, records, first, words, n).len() == n + 1,
        forall|c: int|
            0 <= c <= n ==> exists|i: int|
                0 <= i < records.len() && (#[trigger] records[i]).vector == #[trigger] spread_of(
                    distance,
                    drawing,
                    records,
                    first,
                    words,
                    n,
                )[c],
    decreases n,
{
    if n > 0 {
        centroids_start_at_records(distance, drawing, records, first, words, n - 1);
        let before = spread_of(distance, drawing, records, first, words, n - 1);
        let now = spread_of(distance, drawing, records, first, words, n);
        let dists = dists_to(distance, records, before, before.len() as int);
        lemma_place_in_range(
            drawing,
            result_of(
                drawing.portion,
                words[n - 1],
                drawing.total(dists, dists.len() as int),
            ),
            dists,
            0,
        );
        assert forall|c: int| 0 <= c <= n implies exists|i: int|
            0 <= i < records.len() && (#[trigger] records[i]).vector == #[trigger] now[c] by {
            if c < n {
                assert(now[c] == before[c]);
            } else {
                let i = drawing.drawn(dists, words[n - 1]);
                assert(records[i].vector == now[c]);
            }
        }
    } else {
        assert(records[first].vector == spread_of(
            distance,
            drawing,
            records,
            first,
            words,
            n,
        )[0]);
    }
}

/// Whether these are the records that are assigned a centroid, each once and in order.
pub open spec fn lists_members(places: Seq<int>, assignments: Seq<usize>, c: int) -> bool {
    &&& forall|i: int, j: int| 0 <= i < j < places.len() ==> #[trigger] places[i] < #[trigger] places[j]
    &&& forall|k: int|
        0 <= k < places.len() ==> 0 <= #[trigger] places[k] < assignments.len()
            && assignments[places[k]] == c
    &&& forall|i: int|
        0 <= i < assignments.len() && #[trigger] assignments[i] == c ==> places.contains(i)
}

/// The vectors of records at given places, one added after the other to zero.
spec fn added<P: Fn([u32; 16], [u32; 16]) -> [u32; 16]>(
    plus: P,
    records: Seq<Record>,
    places: Seq<int>,
) -> [u32; 16]
    decreases places.len(),
{
    if places.len() == 0 {
        origin()
    } else {
        summed(plus, added(plus, records, places.drop_last()), records[places.last()].vector)
    }
}

proof fn lemma_members_are_added<P: Fn([u32; 16], [u32; 16]) -> [u32; 16]>(
    plus: P,
    records: Seq<Record>,
    assignments: Seq<usize>,
    c: int,
    m: int,
    places: Seq<int>,
)
    requires
        0 <= m <= assignments.len(),
        lists_members(places, assignments.take(m), c),
    ensures
        count_of(assignments, c, m) == places.len(),
        sum_of(plus, records, assignments, c, m) == added(plus, records, places),
    decreases m,
{
    let now = assignments.take(m);
    if m == 0 {
        if places.len() > 0 {
            assert(0 <= places[0] < now.len());
        }
    } else {
        let before = assignments.take(m - 1);
        assert forall|i: int| 0 <= i < m - 1 implies before[i] == now[i] by {}
        if assignments[m - 1] == c {
            assert(now[m - 1] == c);
            assert(places.contains(m - 1));
            let k = choose|k: int| 0 <= k < places.len() && places[k] == m - 1;
            if k < places.len() - 1 {
                assert(places[k] < places[places.len() - 1]);
            }
            let front = places.drop_last();
            assert(places.last() == m - 1);
            assert forall|j: int| 0 <= j < front.len() implies 0 <= #[trigger] front[j]
                < before.len() && before[front[j]] == c by {
                assert(front[j] == places[j]);
                assert(places[j] < places[places.len() - 1]);
                assert(now[places[j]] == c);
            }
            assert forall|i: int, j: int| 0 <= i < j < front.len() implies #[trigger] front[i]
                < #[trigger] front[j] by {
                assert(places[i] < places[j]);
            }
            assert forall|i: int| 0 <= i < before.len() && #[trigger] before[i]
                == c implies front.contains(i) by {
                assert(now[i] == c);
                let j = choose|j: int| 0 <= j < places.len() && places[j] == i;
                assert(front[j] == i);
            }
            lemma_members_are_added(plus, records, assignments, c, m - 1, front);
        } else {
            assert forall|j: int| 0 <= j < places.len() implies 0 <= #[trigger] places[j]
                < before.len() && before[places[j]] == c by {
                assert(now[places[j]] == c);
            }
            assert forall|i: int| 0 <= i < before.len() && #[trigger] before[i]
                == c implies places.contains(i) by {
                assert(now[i] == c);
            }
            lemma_members_are_added(plus, records, assignments, c, m - 1, places);
        }
    }
}

/// A centroid moves to the mean of its records: if these are all records that are assigned to
/// it, however many, it becomes their sum divided by their number, and it stays where it is
/// exactly if there is none.
pub proof fn a_centroid_moves_to_the_mean<
    P: Fn([u32; 16], [u32; 16]) -> [u32; 16],
    Q: Fn([u32; 16], usize) -> [u32; 16],
>(
    plus: P,
    over: Q,
    records: Seq<Record>,
    centroids: Seq<[u32; 16]>,
    assignments: Seq<usize>,
    c: int,
    places: Seq<int>,
)
    requires
        0 <= c < centroids.len(),
        lists_members(places, assignments, c),
    ensures
        moved(plus, over, records, centroids, assignments).len() == centroids.len(),
        places.len() == 0 ==> moved(plus, over, records, centroids, assignments)[c]
            == centroids[c],
        places.len() > 0 ==> exists|sums: Seq<[u32; 16]>|
            #![trigger sums.len()]
            {
                &&& sums.len() == places.len() + 1
                &&& forall|j: int| 0 <= j < 16 ==> #[trigger] sums[0]@[j] == 0
                &&& forall|k: int|
                    0 <= k < places.len() ==> sums[k + 1] == summed(
                        plus,
                        sums[k],
                        records[#[trigger] places[k]].vector,
                    )
                &&& moved(plus, over, records, centroids, assignments)[c] == divided(
                    over,
                    sums.last(),
                    places.len() as usize,
                )
            },
{
    assert(assignments.take(assignments.len() as int) =~= assignments);
    lemma_members_are_added(
        plus,
        records,
        assignments,
        c,
        assignments.len() as int,
        places,
    );
    let sums = lemma_running_sums(plus, records, places);
    assert(sums.len() == places.len() + 1);
}

/// The sums of the first records at given places, after each of them.
proof fn lemma_running_sums<P: Fn([u32; 16], [u32; 16]) -> [u32; 16]>(
    plus: P,
    records: Seq<Record>,
    places: Seq<int>,
) -> (sums: Seq<[u32; 16]>)
    ensures
        sums.len() == places.len() + 1,
        forall|j: int| 0 <= j < 16 ==> #[trigger] sums[0]@[j] == 0,
        forall|k: int|
            0 <= k < places.len() ==> sums[k + 1] == summed(
                plus,
                sums[k],
                records[#[trigger] places[k]].vector,
            ),
        sums.last() == added(plus, records, places),
{
    let sums = Seq::new(
        (places.len() + 1) as nat,
        |k: int| added(plus, records, places.take(k)),
    );
    assert forall|k: int| 0 <= k < places.len() implies sums[k + 1] == summed(
        plus,
        sums[k],
        records[#[trigger] places[k]].vector,
    ) by {
        assert(places.take(k + 1).drop_last() =~= places.take(k));
        assert(places.take(k + 1).last() == places[k]);
    }
    assert(places.take(places.len() as int) =~= places);
    assert(places.take(0) =~= Seq::empty());
    lemma_origin();
    sums
}

/// The words of the origin are zero.
pub proof fn lemma_origin()
    ensures
        forall|j: int| 0 <= j < 16 ==> #[trigger] origin()@[j] == 0,
{
    let z: [u32; 16] = choose|z: [u32; 16]| z@ == Seq::new(16, |i: int| 0u32);
    lemma_zero_vector();
    assert(origin()@ == Seq::new(16, |i: int| 0u32));
}

/// There is a vector of which all words are zero.
proof fn lemma_zero_vector()
    ensures
        exists|z: [u32; 16]| z@ == Seq::new(16, |i: int| 0u32),
{
    let z = [0u32, 0u32, 0u32, 0u32, 0u32, 0u32, 0u32, 0u32, 0u32, 0u32, 0u32, 0u32, 0u32, 0u32, 0u32, 0u32];
    assert(z@ =~= Seq::new(16, |i: int| 0u32));
}

/// In each round every record is assigned the nearest of the centroids, the first one of
/// several; none is nearer. Only where no centroid is nearer than the farthest distance there
/// is, it is the first.
pub proof fn each_record_is_assigned_its_nearest<D: Fn([u32; 16], [u32; 16]) -> u32>(
    distance: D,
    records: Seq<Record>,
    m: nat,
    centroids: Seq<[u32; 16]>,
    i: int,
)
    requires
        0 <= i < m,
        0 < centroids.len() <= usize::MAX,
    ensures
        assignment(distance, records, m, centroids).len() == m,
        ({
            let v = records[i].vector;
            let a = assignment(distance, records, m, centroids)[i] as int;
            let d = between(distance, v, centroids[a]);
            &&& 0 <= a < centroids.len()
            &&& d < 0x7f7f_ffff ==> forall|c: int|
                0 <= c < centroids.len() ==> d <= #[trigger] between(distance, v, centroids[c])
            &&& d < 0x7f7f_ffff ==> forall|c: int|
                0 <= c < a ==> d < #[trigger] between(distance, v, centroids[c])
            &&& d >= 0x7f7f_ffff ==> a == 0 && forall|c: int|
                0 <= c < centroids.len() ==> 0x7f7f_ffff <= #[trigger] between(
                    distance,
                    v,
                    centroids[c],
                )
        }),
{
    lemma_closest(distance, records[i].vector, centroids, centroids.len() as int);
}

/// Rounds add up: after some rounds, further ones go on from where the centroids are then. No
/// round changes nothing, and in one round each record is assigned its nearest centroid and
/// the centroids move.
pub proof fn rounds_add_up<
    D: Fn([u32; 16], [u32; 16]) -> u32,
    P: Fn([u32; 16], [u32; 16]) -> [u32; 16],
    Q: Fn([u32; 16], usize) -> [u32; 16],
>(
    distance: D,
    plus: P,
    over: Q,
    records: Seq<Record>,
    m: nat,
    centroids: Seq<[u32; 16]>,
    a: int,
    b: int,
)
    requires
        0 <= a,
        0 <= b,
    ensures
        trained(distance, plus, over, records, m, centroids, 0) == centroids,
        trained(distance, plus, over, records, m, centroids, 1) == moved(
            plus,
            over,
            records,
            centroids,
            assignment(distance, records, m, centroids),
        ),
        trained(distance, plus, over, records, m, centroids, a + b) == trained(
            distance,
            plus,
            over,
            records,
            m,
            trained(distance, plus, over, records, m, centroids, a),
            b,
        ),
    decreases b,
{
    reveal_with_fuel(trained, 2);
    if b > 0 {
        rounds_add_up(distance, plus, over, records, m, centroids, a, b - 1);
    }
}

/// The distance that counts for a record is that to the nearest centroid there is: no larger
/// than to any of them, and that to one of them, or the farthest there is.
pub proof fn the_nearest_centroid_counts<D: Fn([u32; 16], [u32; 16]) -> u32>(
    distance: D,
    records: Seq<Record>,
    centroids: Seq<[u32; 16]>,
    n: int,
    i: int,
)
    requires
        0 <= n <= centroids.len(),
        0 <= i < records.len(),
    ensures
        dists_to(distance, records, centroids, n).len() == records.len(),
        forall|c: int|
            0 <= c < n ==> dists_to(distance, records, centroids, n)[i] <= #[trigger] between(
                distance,
                records[i].vector,
                centroids[c],
            ),
        dists_to(distance, records, centroids, n)[i] <= 0x7f7f_ffff,
        dists_to(distance, records, centroids, n)[i] < 0x7f7f_ffff ==> exists|c: int|
            0 <= c < n && dists_to(distance, records, centroids, n)[i] == #[trigger] between(
                distance,
                records[i].vector,
                centroids[c],
            ),
    decreases n,
{
    if n > 0 {
        the_nearest_centroid_counts(distance, records, centroids, n - 1, i);
        let d = between(distance, records[i].vector, centroids[n - 1]);
        assert(dists_to(distance, records, centroids, n)[i] <= d);
    }
}

impl<
    A: Fn(u32, u32) -> u32,
    T: Fn(u32, u32) -> u32,
    O: Fn(u32, u32) -> u32,
> Drawing<A, T, O> {
    /// What is drawn: the squares of all distances are added up, a portion is taken of their
    /// sum, and from that the squares are taken away again one after the other. The first place
    /// after which zero or less is left is drawn, and the last one if there is none.
    pub proof fn the_first_spent_is_drawn(&self, dists: Seq<u32>, word: u32)
        requires
            dists.len() > 0,
        ensures
            0 <= self.drawn(dists, word) < dists.len(),
            exists|totals: Seq<u32>, lefts: Seq<u32>|
                #![trigger totals.len(), lefts.len()]
                {
                    &&& totals.len() == dists.len() + 1
                    &&& totals[0] == 0
                    &&& forall|k: int|
                        0 <= k < dists.len() ==> totals[k + 1] == result_of(
                            self.add,
                            totals[k],
                            #[trigger] dists[k],
                        )
                    &&& lefts.len() == dists.len() + 1
                    &&& lefts[0] == result_of(self.portion, word, totals.last())
                    &&& forall|k: int|
                        0 <= k < dists.len() ==> lefts[k + 1] == result_of(
                            self.take,
                            lefts[k],
                            #[trigger] dists[k],
                        )
                    &&& forall|k: int|
                        0 <= k < self.drawn(dists, word) && #[trigger] dists[k] == dists[k]
                            ==> !(lefts[k + 1] == 0 || 0x8000_0000 <= lefts[k + 1] <= 0xff80_0000)
                    &&& {
                        let p = self.drawn(dists, word);
                        lefts[p + 1] == 0 || 0x8000_0000 <= lefts[p + 1] <= 0xff80_0000 || p
                            == dists.len() - 1
                    }
                },
    {
        let n = dists.len();
        let totals = Seq::new((n + 1) as nat, |k: int| self.total(dists, k));
        let t = result_of(self.portion, word, self.total(dists, n as int));
        let lefts = Seq::new((n + 1) as nat, |k: int| self.left(t, dists, k));
        assert(totals.len() == n + 1 && lefts.len() == n + 1);
        self.lemma_first_spent(t, dists, 0);
    }

    proof fn lemma_first_spent(&self, t: u32, dists: Seq<u32>, i: int)
        requires
            0 <= i <= dists.len(),
            dists.len() > 0,
        ensures
            i < dists.len() ==> i <= self.place(t, dists, i) < dists.len(),
            0 <= self.place(t, dists, i) < dists.len(),
            forall|k: int|
                i <= k < self.place(t, dists, i) ==> !spent(#[trigger] self.left(t, dists, k + 1)),
            i < dists.len() ==> spent(self.left(t, dists, self.place(t, dists, i) + 1))
                || self.place(t, dists, i) == dists.len() - 1,
        decreases dists.len() - i,
    {
        if i < dists.len() && !spent(self.left(t, dists, i + 1)) {
            self.lemma_first_spent(t, dists, i + 1);
        }
    }
}

/// The centroids with which a clustering starts: the first is the vector of the first record
/// that was drawn, and each further one that of the record that is drawn with its word by the
/// distances of all records to the centroids before it.
pub proof fn each_centroid_is_drawn<
    D: Fn([u32; 16], [u32; 16]) -> u32,
    A: Fn(u32, u32) -> u32,
    T: Fn(u32, u32) -> u32,
    O: Fn(u32, u32) -> u32,
>(
    distance: D,
    drawing: Drawing<A, T, O>,
    records: Seq<Record>,
    first: int,
    words: Seq<u32>,
    n: int,
    c: int,
)
    requires
        0 <= c <= n,
    ensures
        ({
            let all = spread_of(distance, drawing, records, first, words, n);
            &&& all.len() == n + 1
            &&& all.take(c + 1) == spread_of(distance, drawing, records, first, words, c)
            &&& c == 0 ==> all[0] == records[first].vector
            &&& c > 0 ==> all[c] == records[drawing.drawn(
                dists_to(distance, records, all.take(c), c),
                words[c - 1],
            )].vector
        }),
    decreases n,
{
    let all = spread_of(distance, drawing, records, first, words, n);
    if n > 0 {
        let before = spread_of(distance, drawing, records, first, words, n - 1);
        if c < n {
            each_centroid_is_drawn(distance, drawing, records, first, words, n - 1, c);
            assert(all.take(c + 1) =~= before.take(c + 1));
            assert(all.take(c) =~= before.take(c));
        } else {
            each_centroid_is_drawn(distance, drawing, records, first, words, n - 1, n - 1);
            assert(all.take(n + 1) =~= all);
            assert(all.take(n) =~= before);
        }
    } else {
        assert(all.take(1) =~= all);
    }
}

/// The nearest centroid is told by its place: none is nearer, and none before it is as near.
pub proof fn the_nearest_is_told_by_its_place<D: Fn([u32; 16], [u32; 16]) -> u32>(
    v: [u32; 16],
    centroids: &Vec<[u32; 16]>,
    distance: &D,
    r: usize,
)
    requires
        is_distance(*distance),
        0 < centroids@.len() <= usize::MAX,
        call_ensures(nearest_centroid, (v, centroids, distance), r),
    ensures
        r < centroids@.len(),
        ({
            let d = between(*distance, v, centroids@[r as int]);
            &&& d < 0x7f7f_ffff ==> forall|c: int|
                0 <= c < centroids@.len() ==> d <= #[trigger] between(
                    *distance,
                    v,
                    centroids@[c],
                )
            &&& d < 0x7f7f_ffff ==> forall|c: int|
                0 <= c < r ==> d < #[trigger] between(*distance, v, centroids@[c])
            &&& d >= 0x7f7f_ffff ==> r == 0
        }),
{
    lemma_closest(*distance, v, centroids@, centroids@.len() as int);
}

/// What is taken for the distance of two vectors, for their sum and for a quotient is what the
/// given functions give for these, in this order.
pub proof fn arithmetic_is_what_is_given<
    D: Fn([u32; 16], [u32; 16]) -> u32,
    P: Fn([u32; 16], [u32; 16]) -> [u32; 16],
    Q: Fn([u32; 16], usize) -> [u32; 16],
    F: Fn(u32, u32) -> u32,
>(
    distance: D,
    plus: P,
    over: Q,
    f: F,
    v: [u32; 16],
    w: [u32; 16],
    n: usize,
    a: u32,
    b: u32,
)
    requires
        forall|x: [u32; 16], y: [u32; 16], d1: u32, d2: u32| #[trigger]
            call_ensures(distance, (x, y), d1) && #[trigger] call_ensures(distance, (x, y), d2)
                ==> d1 == d2,
        forall|x: [u32; 16], y: [u32; 16], s1: [u32; 16], s2: [u32; 16]| #[trigger]
            call_ensures(plus, (x, y), s1) && #[trigger] call_ensures(plus, (x, y), s2) ==> s1
                == s2,
        forall|x: [u32; 16], y: usize, q1: [u32; 16], q2: [u32; 16]| #[trigger]
            call_ensures(over, (x, y), q1) && #[trigger] call_ensures(over, (x, y), q2) ==> q1
                == q2,
        forall|x: u32, y: u32, r1: u32, r2: u32| #[trigger]
            call_ensures(f, (x, y), r1) && #[trigger] call_ensures(f, (x, y), r2) ==> r1 == r2,
    ensures
        forall|d: u32| #[trigger]
            call_ensures(distance, (v, w), d) ==> between(distance, v, w) == d,
        forall|s: [u32; 16]| #[trigger] call_ensures(plus, (v, w), s) ==> summed(plus, v, w) == s,
        forall|q: [u32; 16]| #[trigger] call_ensures(over, (v, n), q) ==> divided(over, v, n) == q,
        forall|r: u32| #[trigger] call_ensures(f, (a, b), r) ==> result_of(f, a, b) == r,
{
}

} // verus!
