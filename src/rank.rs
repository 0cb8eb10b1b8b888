//! Ranking: entries ordered by descending score, ties kept in feed order.
use vstd::prelude::*;
use crate::entry::Website;

verus! {

/// The scores of a sequence of entries, in order.
pub open spec fn scores_of(entries: Seq<Website>) -> Seq<u8> {
    entries.map_values(|e: Website| e.score)
}

/// Positions of `scores` that hold `level`, ascending.
pub open spec fn with_score(scores: Seq<u8>, level: u8) -> Seq<int>
    decreases scores.len(),
{
    if scores.len() == 0 {
        Seq::empty()
    } else {
        let r = with_score(scores.drop_last(), level);
        if scores.last() == level {
            r.push(scores.len() - 1)
        } else {
            r
        }
    }
}

/// Positions whose score lies in the top `t` levels (`255` down to
/// `256 - t`), higher levels first and ascending within a level.
pub open spec fn rank_levels(scores: Seq<u8>, t: nat) -> Seq<int>
    decreases t,
{
    if t == 0 {
        Seq::empty()
    } else {
        rank_levels(scores, (t - 1) as nat) + with_score(scores, (256 - t) as u8)
    }
}

/// The ranked order of positions: descending score, ascending position
/// among equal scores.
pub open spec fn rank_order(scores: Seq<u8>) -> Seq<int> {
    rank_levels(scores, 256)
}

/// Positions as integers.
pub open spec fn positions(v: Seq<usize>) -> Seq<int> {
    v.map_values(|i: usize| i as int)
}

/// The positions of `scores` in ranked order.
pub fn rank_indices(scores: &Vec<u8>) -> (r: Vec<usize>)
    ensures
        positions(r@) == rank_order(scores@),
        forall|k: int| 0 <= k < r@.len() ==> r@[k] < scores@.len(),
{
    let mut r: Vec<usize> = Vec::new();
    let mut t: u16 = 0;
    assert(positions(r@) =~= rank_levels(scores@, 0));
    while t < 256
        invariant
            t <= 256,
            positions(r@) == rank_levels(scores@, t as nat),
            forall|k: int| 0 <= k < r@.len() ==> r@[k] < scores@.len(),
        decreases 256 - t,
    {
        let level: u8 = (255 - t) as u8;
        let ghost base = positions(r@);
        let mut i: usize = 0;
        assert(scores@.take(0) =~= Seq::<u8>::empty());
        assert(positions(r@) =~= base + with_score(scores@.take(0), level));
        while i < scores.len()
            invariant
                i <= scores.len(),
                positions(r@) == base + with_score(scores@.take(i as int), level),
                forall|k: int| 0 <= k < r@.len() ==> r@[k] < scores@.len(),
            decreases scores.len() - i,
        {
            assert(scores@.take(i + 1).drop_last() =~= scores@.take(i as int));
            assert(scores@.take(i + 1).last() == scores@[i as int]);
            let ghost prev = positions(r@);
            if scores[i] == level {
                r.push(i);
                assert(positions(r@) =~= prev.push(i as int));
            }
            i = i + 1;
            assert(positions(r@) =~= base + with_score(scores@.take(i as int), level));
        }
        assert(scores@.take(i as int) =~= scores@);
        t = t + 1;
    }
    r
}

/// `entries` in ranked order.
pub open spec fn ranked_entries(entries: Seq<Website>) -> Seq<Website> {
    rank_order(scores_of(entries)).map_values(|i: int| entries[i])
}

/// The entries in ranked order: by descending score, entries of equal
/// score in their feed order.
pub fn rank(entries: &Vec<Website>) -> (r: Vec<Website>)
    ensures
        r@ == ranked_entries(entries@),
{
    let mut scores: Vec<u8> = Vec::new();
    let mut i: usize = 0;
    while i < entries.len()
        invariant
            i <= entries.len(),
            scores@ == scores_of(entries@).take(i as int),
        decreases entries.len() - i,
    {
        scores.push(entries[i].score);
        i = i + 1;
        assert(scores@ =~= scores_of(entries@).take(i as int));
    }
    assert(scores@ =~= scores_of(entries@));
    let order = rank_indices(&scores);
    let mut r: Vec<Website> = Vec::new();
    let mut k: usize = 0;
    while k < order.len()
        invariant
            k <= order.len(),
            positions(order@) == rank_order(scores_of(entries@)),
            forall|j: int| 0 <= j < order@.len() ==> order@[j] < entries@.len(),
            r@.len() == k,
            forall|j: int| 0 <= j < k ==> r@[j] == entries@[rank_order(scores_of(entries@))[j]],
        decreases order.len() - k,
    {
        assert(positions(order@)[k as int] == order@[k as int] as int);
        r.push(entries[order[k]].duplicate());
        k = k + 1;
    }
    assert(r@ =~= ranked_entries(entries@));
    r
}

proof fn lemma_with_score(scores: Seq<u8>, level: u8)
    ensures
        forall|k: int| 0 <= k < with_score(scores, level).len() ==> {
            let x = #[trigger] with_score(scores, level)[k];
            0 <= x < scores.len() && scores[x] == level
        },
        forall|k: int, l: int|
            0 <= k < l < with_score(scores, level).len() ==> with_score(scores, level)[k]
                < with_score(scores, level)[l],
        forall|i: int|
            0 <= i < scores.len() && scores[i] == level ==> #[trigger] with_score(
                scores,
                level,
            ).contains(i),
    decreases scores.len(),
{
    if scores.len() > 0 {
        let p = scores.drop_last();
        lemma_with_score(p, level);
        let w = with_score(p, level);
        assert forall|i: int| 0 <= i < scores.len() && scores[i] == level implies #[trigger] with_score(
            scores,
            level,
        ).contains(i) by {
            if i < scores.len() - 1 {
                assert(p[i] == scores[i]);
                assert(w.contains(i));
                let k = choose|k: int| 0 <= k < w.len() && w[k] == i;
                assert(with_score(scores, level)[k] == i);
            } else {
                assert(with_score(scores, level).last() == i);
            }
        }
    }
}

proof fn lemma_rank_levels(scores: Seq<u8>, t: nat)
    requires
        t <= 256,
    ensures
        forall|k: int| 0 <= k < rank_levels(scores, t).len() ==> {
            let x = #[trigger] rank_levels(scores, t)[k];
            0 <= x < scores.len() && scores[x] >= 256 - t
        },
        forall|k: int, l: int|
            0 <= k < l < rank_levels(scores, t).len() ==> {
                let x = #[trigger] rank_levels(scores, t)[k];
                let y = #[trigger] rank_levels(scores, t)[l];
                scores[x] > scores[y] || (scores[x] == scores[y] && x < y)
            },
        forall|i: int|
            0 <= i < scores.len() && scores[i] >= 256 - t ==> #[trigger] rank_levels(
                scores,
                t,
            ).contains(i),
    decreases t,
{
    if t > 0 {
        let level = (256 - t) as u8;
        lemma_rank_levels(scores, (t - 1) as nat);
        lemma_with_score(scores, level);
        let p = rank_levels(scores, (t - 1) as nat);
        let w = with_score(scores, level);
        let r = rank_levels(scores, t);
        assert(r == p + w);
        assert forall|k: int| 0 <= k < r.len() implies {
            let x = #[trigger] r[k];
            0 <= x < scores.len() && scores[x] >= 256 - t
        } by {
            if k >= p.len() {
                assert(r[k] == w[k - p.len()]);
            }
        }
        assert forall|k: int, l: int| 0 <= k < l < r.len() implies {
            let x = #[trigger] r[k];
            let y = #[trigger] r[l];
            scores[x] > scores[y] || (scores[x] == scores[y] && x < y)
        } by {
            if l < p.len() {
                assert(r[k] == p[k] && r[l] == p[l]);
            } else if k < p.len() {
                assert(r[k] == p[k] && r[l] == w[l - p.len()]);
            } else {
                assert(r[k] == w[k - p.len()] && r[l] == w[l - p.len()]);
            }
        }
        assert forall|i: int| 0 <= i < scores.len() && scores[i] >= 256 - t implies #[trigger] r.contains(i) by {
            if scores[i] == level {
                assert(w.contains(i));
                let k = choose|k: int| 0 <= k < w.len() && w[k] == i;
                assert(r[p.len() + k] == i);
            } else {
                assert(p.contains(i));
                let k = choose|k: int| 0 <= k < p.len() && p[k] == i;
                assert(r[k] == i);
            }
        }
    }
}

/// Ranking is a stable sort by descending score: the ranked order holds
/// every position of the feed exactly once, scores never increase along
/// it, and positions of equal score keep their feed order.
pub proof fn rank_is_stable_permutation(scores: Seq<u8>)
    ensures
        forall|k: int|
            0 <= k < rank_order(scores).len() ==> 0 <= #[trigger] rank_order(scores)[k]
                < scores.len(),
        forall|i: int| 0 <= i < scores.len() ==> #[trigger] rank_order(scores).contains(i),
        forall|k: int, l: int|
            0 <= k < rank_order(scores).len() && 0 <= l < rank_order(scores).len() && k != l
                ==> rank_order(scores)[k] != rank_order(scores)[l],
        forall|k: int, l: int|
            0 <= k < l < rank_order(scores).len() ==> scores[rank_order(scores)[k]]
                >= scores[rank_order(scores)[l]],
        forall|k: int, l: int|
            0 <= k < l < rank_order(scores).len() && scores[rank_order(scores)[k]]
                == scores[rank_order(scores)[l]] ==> rank_order(scores)[k]
                < rank_order(scores)[l],
{
    lemma_rank_levels(scores, 256);
    let r = rank_order(scores);
    assert forall|k: int, l: int|
        0 <= k < r.len() && 0 <= l < r.len() && k != l implies r[k] != r[l] by {
        if k < l {
            let x = r[k];
            let y = r[l];
        } else {
            let x = r[l];
            let y = r[k];
        }
    }
    assert forall|k: int, l: int| 0 <= k < l < r.len() implies scores[r[k]] >= scores[r[l]] by {
        let x = r[k];
        let y = r[l];
    }
    assert forall|k: int, l: int|
        0 <= k < l < r.len() && scores[r[k]] == scores[r[l]] implies r[k] < r[l] by {
        let x = r[k];
        let y = r[l];
    }
}

} // verus!
