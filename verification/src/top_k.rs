//! The nearest neighbours that were seen so far.
//!
//! Distances are the bit patterns of non-negative real numbers, which are ordered as the
//! numbers are. The pattern of the largest finite number stands for "none yet"; nothing at
//! that distance or beyond, nor what is no number at all, is ever taken in.
use vstd::prelude::*;
use vstd::multiset::*;
use vstd::seq_lib::*;
use crate::records;

verus! {

/// How many neighbours are kept.
pub const K: usize = 7;

/// The distance of no neighbour.
pub const FAR: u32 = 0x7f7f_ffff;

/// A neighbour: its distance, its label and its number.
#[derive(Clone, Copy)]
pub struct Neighbor {
    pub dist: u32,
    pub label: u8,
    pub id: usize,
}

/// The neighbour that stands for none.
pub open spec fn nobody() -> Neighbor {
    Neighbor { dist: FAR, label: 0, id: 0 }
}

/// The neighbours before any was seen.
pub open spec fn none_seen() -> Seq<Neighbor> {
    Seq::new(K as nat, |k: int| nobody())
}

/// The neighbour with a distance and a packed word.
pub open spec fn neighbor(dist: u32, packed: u32) -> Neighbor {
    Neighbor { dist, label: records::label_of(packed), id: records::id_of(packed) }
}

/// Every label is one, for fraud, or zero.
pub open spec fn labelled(s: Seq<Neighbor>) -> bool {
    forall|k: int| 0 <= k < s.len() ==> (#[trigger] s[k]).label <= 1
}

/// Nearest first.
pub open spec fn ascending(s: Seq<Neighbor>) -> bool {
    forall|i: int, j: int| 0 <= i <= j < s.len() ==> s[i].dist <= s[j].dist
}

/// The place of a distance among the first `p`: behind all that are not farther.
pub open spec fn place(s: Seq<Neighbor>, dist: u32, p: int) -> int
    decreases p,
{
    if p > 0 && dist < s[p - 1].dist {
        place(s, dist, p - 1)
    } else {
        p
    }
}

/// Takes in a neighbour that is nearer than the last one, which then leaves.
pub open spec fn taken_in(s: Seq<Neighbor>, n: Neighbor) -> Seq<Neighbor> {
    if n.dist < s.last().dist {
        s.drop_last().insert(place(s, n.dist, s.len() - 1), n)
    } else {
        s
    }
}

/// Takes in neighbours one after the other.
pub open spec fn all_taken_in(s: Seq<Neighbor>, ns: Seq<Neighbor>) -> Seq<Neighbor>
    decreases ns.len(),
{
    if ns.len() == 0 {
        s
    } else {
        taken_in(all_taken_in(s, ns.drop_last()), ns.last())
    }
}

/// A place stands behind all that are not farther, and before all that are.
pub proof fn lemma_place(s: Seq<Neighbor>, dist: u32, p: int)
    requires
        0 <= p <= s.len(),
    ensures
        0 <= place(s, dist, p) <= p,
        place(s, dist, p) > 0 ==> s[place(s, dist, p) - 1].dist <= dist,
        forall|j: int| place(s, dist, p) <= j < p ==> dist < (#[trigger] s[j]).dist,
    decreases p,
{
    if p > 0 && dist < s[p - 1].dist {
        lemma_place(s, dist, p - 1);
    }
}

/// Neighbours that are taken in keep their labels.
pub proof fn labels_are_kept(s: Seq<Neighbor>, ns: Seq<Neighbor>)
    requires
        s.len() > 0,
        labelled(s),
        labelled(ns),
    ensures
        labelled(all_taken_in(s, ns)),
        all_taken_in(s, ns).len() == s.len(),
    decreases ns.len(),
{
    if ns.len() > 0 {
        labels_are_kept(s, ns.drop_last());
        let before = all_taken_in(s, ns.drop_last());
        let p = place(before, ns.last().dist, before.len() - 1);
        lemma_place(before, ns.last().dist, before.len() - 1);
        let after = before.drop_last().insert(p, ns.last());
        assert forall|k: int| 0 <= k < after.len() implies (#[trigger] after[k]).label <= 1 by {
            if k < p {
                assert(after[k] == before[k]);
            } else if k > p {
                assert(after[k] == before[k - 1]);
            } else {
                assert(after[k] == ns[ns.len() - 1]);
            }
        }
    }
}

/// The neighbours before any was seen.
pub fn new_top_k() -> (r: [Neighbor; 7])
    ensures
        r@ == none_seen(),
{
    let r: [Neighbor; 7] = [Neighbor { dist: FAR, label: 0, id: 0 }; 7];
    assert(r@ =~= none_seen());
    r
}

/// Takes in the neighbour with the given distance and packed word if it is nearer than the
/// last one; the result is the distance of the last one afterwards.
pub fn update_top_k_packed(top_k: &mut [Neighbor; 7], dist: u32, packed: u32) -> (r: u32)
    ensures
        final(top_k)@ == taken_in(old(top_k)@, neighbor(dist, packed)),
        r == final(top_k)@.last().dist,
{
    let ghost before = top_k@;
    if dist < top_k[K - 1].dist {
        let mut pos: usize = K - 1;
        while pos > 0 && dist < top_k[pos - 1].dist
            invariant
                pos <= 6,
                before.len() == 7,
                forall|j: int| 0 <= j <= pos && j < 6 ==> top_k@[j] == before[j],
                forall|j: int| pos < j <= 6 ==> top_k@[j] == before[j - 1],
                place(before, dist, 6) == place(before, dist, pos as int),
            decreases pos,
        {
            top_k[pos] = top_k[pos - 1];
            pos -= 1;
        }
        top_k[pos] = Neighbor {
            dist,
            label: records::unpack_label(packed),
            id: records::unpack_id(packed),
        };
        assert(top_k@ =~= before.drop_last().insert(pos as int, neighbor(dist, packed)));
    }
    top_k[K - 1].dist
}

/// Taking in a neighbour keeps the number of neighbours and their order.
pub proof fn taking_in_keeps_the_order(s: Seq<Neighbor>, n: Neighbor)
    requires
        s.len() > 0,
        ascending(s),
    ensures
        taken_in(s, n).len() == s.len(),
        ascending(taken_in(s, n)),
        taken_in(s, n).last().dist <= s.last().dist,
        taken_in(s, n).first().dist <= s.first().dist,
{
    if n.dist < s.last().dist {
        lemma_place(s, n.dist, s.len() - 1);
        let p = place(s, n.dist, s.len() - 1);
        let r = taken_in(s, n);
        assert forall|i: int, j: int| 0 <= i <= j < r.len() implies r[i].dist <= r[j].dist by {
            if i < p && p < j {
                assert(s[i].dist <= s[j - 1].dist);
            }
            if i < p && j == p {
                assert(s[i].dist <= s[p - 1].dist);
            }
        }
    }
}

/// What is kept are the nearest: together with what is left out it makes up all that there
/// was and all that came, and nothing that is left out is nearer than anything kept.
pub open spec fn keeps_nearest(s: Seq<Neighbor>, ns: Seq<Neighbor>, kept: Seq<Neighbor>) -> bool {
    exists|left: Seq<Neighbor>|
        #![trigger kept + left]
        {
            &&& (kept + left).to_multiset() == (s + ns).to_multiset()
            &&& forall|i: int, j: int|
                0 <= i < kept.len() && 0 <= j < left.len() ==> #[trigger] kept[i].dist
                    <= #[trigger] left[j].dist
        }
}

/// After any number of neighbours came, in whatever order, the nearest of them are kept, the
/// nearest first.
pub proof fn the_nearest_are_kept(s: Seq<Neighbor>, ns: Seq<Neighbor>)
    requires
        s.len() > 0,
        ascending(s),
    ensures
        all_taken_in(s, ns).len() == s.len(),
        ascending(all_taken_in(s, ns)),
        keeps_nearest(s, ns, all_taken_in(s, ns)),
    decreases ns.len(),
{
    broadcast use group_multiset_axioms;

    if ns.len() == 0 {
        let left = Seq::<Neighbor>::empty();
        assert(s + ns =~= s);
        assert(all_taken_in(s, ns) + left =~= s);
    } else {
        let front = ns.drop_last();
        let n = ns.last();
        the_nearest_are_kept(s, front);
        let kept = all_taken_in(s, front);
        taking_in_keeps_the_order(kept, n);
        let left = choose|left: Seq<Neighbor>|
            #![trigger kept + left]
            {
                &&& (kept + left).to_multiset() == (s + front).to_multiset()
                &&& forall|i: int, j: int|
                    0 <= i < kept.len() && 0 <= j < left.len() ==> #[trigger] kept[i].dist
                        <= #[trigger] left[j].dist
            };
        let now = taken_in(kept, n);
        assert(s + ns =~= (s + front).push(n));
        to_multiset_build(s + front, n);
        lemma_multiset_commutative(kept, left);
        if n.dist < kept.last().dist {
            lemma_place(kept, n.dist, kept.len() - 1);
            let p = place(kept, n.dist, kept.len() - 1);
            let out = left.push(kept.last());
            to_multiset_build(left, kept.last());
            assert(kept.drop_last().push(kept.last()) =~= kept);
            to_multiset_build(kept.drop_last(), kept.last());
            to_multiset_insert(kept.drop_last(), p, n);
            lemma_multiset_commutative(now, out);
            assert((now + out).to_multiset() =~= (s + ns).to_multiset());
            assert forall|i: int, j: int| 0 <= i < now.len() && 0 <= j < out.len() implies (
            #[trigger] now[i]).dist <= (#[trigger] out[j]).dist by {
                let last = kept.len() - 1;
                assert(now[i].dist <= kept[last].dist) by {
                    if i < p {
                        assert(now[i] == kept[i]);
                    } else if i > p {
                        assert(now[i] == kept[i - 1]);
                    }
                }
                if j < left.len() {
                    assert(kept[last].dist <= left[j].dist);
                }
            }
            assert(keeps_nearest(s, ns, now));
        } else {
            let out = left.push(n);
            to_multiset_build(left, n);
            lemma_multiset_commutative(now, out);
            assert((now + out).to_multiset() =~= (s + ns).to_multiset());
            assert forall|i: int, j: int| 0 <= i < now.len() && 0 <= j < out.len() implies (
            #[trigger] now[i]).dist <= (#[trigger] out[j]).dist by {
                let last = kept.len() - 1;
                assert(now[i].dist <= kept[last].dist);
            }
            assert(keeps_nearest(s, ns, now));
        }
    }
}

/// One that is nearer than the last takes its place behind all that are not farther, and moves
/// the others down by one, so that the last leaves; one that is not nearer changes nothing. Its
/// label is the lowest bit of its word, its number the other bits.
pub proof fn a_nearer_one_takes_its_place(dist: u32, packed: u32)
    ensures
        forall|top: &mut [Neighbor; 7], r: u32| #[trigger]
            call_ensures(update_top_k_packed, (top, dist, packed), r) && ascending(top@) ==> {
                &&& r == final(top)@[6].dist
                &&& dist >= top@[6].dist ==> final(top)@ == top@
                &&& dist < top@[6].dist ==> exists|p: int|
                    {
                        &&& 0 <= p <= 6
                        &&& (#[trigger] final(top)@[p]).dist == dist
                        &&& final(top)@[p].label == packed % 2
                        &&& final(top)@[p].id == packed / 2
                        &&& forall|k: int|
                            0 <= k < p ==> final(top)@[k] == #[trigger] top@[k] && top@[k].dist
                                <= dist
                        &&& forall|k: int|
                            p <= k < 6 ==> final(top)@[k + 1] == #[trigger] top@[k] && dist
                                < top@[k].dist
                    }
            },
        forall|top: [Neighbor; 7], k: int|
            call_ensures(new_top_k, (), top) && 0 <= k < 7 ==> (#[trigger] top@[k]).dist
                == 0x7f7f_ffff,
{
    assert forall|top: &mut [Neighbor; 7], r: u32| #[trigger]
        call_ensures(update_top_k_packed, (top, dist, packed), r) && ascending(top@) && dist
            < top@[6].dist implies exists|p: int|
        {
            &&& 0 <= p <= 6
            &&& (#[trigger] final(top)@[p]).dist == dist
            &&& final(top)@[p].label == packed % 2
            &&& final(top)@[p].id == packed / 2
            &&& forall|k: int|
                0 <= k < p ==> final(top)@[k] == #[trigger] top@[k] && top@[k].dist <= dist
            &&& forall|k: int|
                p <= k < 6 ==> final(top)@[k + 1] == #[trigger] top@[k] && dist < top@[k].dist
        } by {
        let s = top@;
        let p = place(s, dist, s.len() - 1);
        lemma_place(s, dist, s.len() - 1);
        assert(final(top)@[p].dist == dist);
        assert forall|k: int| 0 <= k < p implies final(top)@[k] == #[trigger] s[k] && s[k].dist
            <= dist by {
            assert(s[k].dist <= s[p - 1].dist);
        }
    }
}

} // verus!
