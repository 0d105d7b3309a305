//! The running tally of evidence against each candidate root cause, as a
//! mathematical value, and the orders in which candidates are ranked.

use vstd::prelude::*;
use crate::rootcause::analysis::CandidateKey;

verus! {

/// What has been recorded against one candidate: the sum of the deltas
/// and the pieces of evidence, oldest first.
pub struct Tally<E> {
    pub candidate: CandidateKey,
    pub score: int,
    pub evidence: Seq<E>,
}

/// No candidate has two tallies.
pub open spec fn distinct_candidates<E>(t: Seq<Tally<E>>) -> bool {
    forall|i: int, j: int|
        0 <= i < t.len() && 0 <= j < t.len() && i != j ==> #[trigger] t[i].candidate
            != #[trigger] t[j].candidate
}

/// Some tally is about `c`.
pub open spec fn has_candidate<E>(t: Seq<Tally<E>>, c: CandidateKey) -> bool {
    exists|i: int| 0 <= i < t.len() && #[trigger] t[i].candidate == c
}

/// The position of the tally about `c`.
pub open spec fn tally_index<E>(t: Seq<Tally<E>>, c: CandidateKey) -> int {
    choose|i: int| 0 <= i < t.len() && #[trigger] t[i].candidate == c
}

/// The score recorded against `c`: none where nothing has been.
pub open spec fn score_of<E>(t: Seq<Tally<E>>, c: CandidateKey) -> int {
    if has_candidate(t, c) {
        t[tally_index(t, c)].score
    } else {
        0
    }
}

/// The evidence recorded against `c`, oldest first.
pub open spec fn evidence_against<E>(t: Seq<Tally<E>>, c: CandidateKey) -> Seq<E> {
    if has_candidate(t, c) {
        t[tally_index(t, c)].evidence
    } else {
        Seq::empty()
    }
}

/// The tallies after `delta` and the evidence `e` are recorded against
/// `c`: its score grows by `delta` and `e` goes after the evidence that
/// was there; a candidate seen for the first time gets a tally of its own
/// after the others.
pub open spec fn recorded<E>(t: Seq<Tally<E>>, c: CandidateKey, delta: int, e: E) -> Seq<
    Tally<E>,
> {
    if has_candidate(t, c) {
        let i = tally_index(t, c);
        t.update(i, Tally { candidate: c, score: t[i].score + delta, evidence: t[i].evidence.push(e) })
    } else {
        t.push(Tally { candidate: c, score: delta, evidence: seq![e] })
    }
}

/// Recording keeps the candidates distinct, adds `delta` to the score of
/// `c` and appends `e` to its evidence, and changes nothing recorded
/// against any other candidate.
pub proof fn lemma_recorded<E>(t: Seq<Tally<E>>, c: CandidateKey, delta: int, e: E)
    requires
        distinct_candidates(t),
    ensures
        distinct_candidates(recorded(t, c, delta, e)),
        has_candidate(recorded(t, c, delta, e), c),
        score_of(recorded(t, c, delta, e), c) == score_of(t, c) + delta,
        evidence_against(recorded(t, c, delta, e), c) == evidence_against(t, c).push(e),
        forall|d: CandidateKey|
            d != c ==> score_of(recorded(t, c, delta, e), d) == score_of(t, d)
                && evidence_against(recorded(t, c, delta, e), d) == evidence_against(t, d)
                && has_candidate(recorded(t, c, delta, e), d) == has_candidate(t, d),
{
    let r = recorded(t, c, delta, e);
    if has_candidate(t, c) {
        let i = tally_index(t, c);
        assert(r[i].candidate == c);
        let k = tally_index(r, c);
        assert(k == i);
    } else {
        let n = t.len() as int;
        assert(r[n].candidate == c);
        let k = tally_index(r, c);
        assert(k == n);
        assert(Seq::<E>::empty().push(e) =~= seq![e]);
    }
    assert forall|d: CandidateKey|
        d != c implies score_of(r, d) == score_of(t, d) && evidence_against(r, d)
            == evidence_against(t, d) && has_candidate(r, d) == has_candidate(t, d) by {
        if has_candidate(t, d) {
            let i = tally_index(t, d);
            assert(r[i] == t[i]);
            let k = tally_index(r, d);
            assert(k == i);
        }
        if has_candidate(r, d) {
            let k = tally_index(r, d);
            assert(t[k] == r[k]);
        }
    }
}

/// Every candidate that has a tally has evidence against it.
pub open spec fn all_have_evidence<E>(t: Seq<Tally<E>>) -> bool {
    forall|i: int| 0 <= i < t.len() ==> #[trigger] t[i].evidence.len() >= 1
}

/// Recording keeps evidence against every candidate that has a tally.
pub proof fn lemma_recorded_keeps_evidence<E>(t: Seq<Tally<E>>, c: CandidateKey, delta: int, e: E)
    requires
        all_have_evidence(t),
    ensures
        all_have_evidence(recorded(t, c, delta, e)),
{
    let r = recorded(t, c, delta, e);
    assert forall|i: int| 0 <= i < r.len() implies #[trigger] r[i].evidence.len() >= 1 by {
        if i < t.len() && r[i] != t[i] {
            assert(r[i].evidence == t[i].evidence.push(e));
        }
    }
}

/// Recording two pieces of evidence in either order gives every candidate
/// the same score and the same evidence, up to its order.
pub proof fn lemma_record_order<E>(
    t: Seq<Tally<E>>,
    c1: CandidateKey,
    d1: int,
    e1: E,
    c2: CandidateKey,
    d2: int,
    e2: E,
)
    requires
        distinct_candidates(t),
    ensures
        forall|c: CandidateKey|
            #![trigger score_of(recorded(recorded(t, c1, d1, e1), c2, d2, e2), c)]
            score_of(recorded(recorded(t, c1, d1, e1), c2, d2, e2), c) == score_of(
                recorded(recorded(t, c2, d2, e2), c1, d1, e1),
                c,
            ) && has_candidate(recorded(recorded(t, c1, d1, e1), c2, d2, e2), c)
                == has_candidate(recorded(recorded(t, c2, d2, e2), c1, d1, e1), c)
                && evidence_against(recorded(recorded(t, c1, d1, e1), c2, d2, e2), c).to_multiset()
                == evidence_against(recorded(recorded(t, c2, d2, e2), c1, d1, e1), c).to_multiset(),
{
    broadcast use vstd::seq_lib::group_to_multiset_ensures;

    let r1 = recorded(t, c1, d1, e1);
    let r2 = recorded(t, c2, d2, e2);
    let r12 = recorded(r1, c2, d2, e2);
    let r21 = recorded(r2, c1, d1, e1);
    lemma_recorded(t, c1, d1, e1);
    lemma_recorded(t, c2, d2, e2);
    lemma_recorded(r1, c2, d2, e2);
    lemma_recorded(r2, c1, d1, e1);
    assert forall|c: CandidateKey|
        score_of(r12, c) == score_of(r21, c) && has_candidate(r12, c) == has_candidate(r21, c)
            && evidence_against(r12, c).to_multiset() == evidence_against(
            r21,
            c,
        ).to_multiset() by {
        let ev = evidence_against(t, c);
        if c == c1 && c == c2 {
            assert(evidence_against(r12, c) == ev.push(e1).push(e2));
            assert(evidence_against(r21, c) == ev.push(e2).push(e1));
            assert(ev.push(e1).push(e2).to_multiset() =~= ev.push(e2).push(e1).to_multiset());
        }
    }
}

/// `order` lists each position below `n` once, each before every
/// position that comes after it by `precedes`.
pub open spec fn is_ranking(n: nat, order: Seq<usize>, precedes: spec_fn(int, int) -> bool) -> bool {
    &&& order.len() == n
    &&& forall|k: int| 0 <= k < order.len() ==> #[trigger] order[k] < n
    &&& forall|i: int| 0 <= i < n ==> #[trigger] order.contains(i as usize)
    &&& forall|k: int, l: int|
        0 <= k < l < order.len() ==> precedes(#[trigger] order[k] as int, #[trigger] order[l] as int)
}

/// Position `a` comes before position `b` when its score is higher, or
/// when the scores are equal and `a` is the earlier.
pub open spec fn score_first(scores: Seq<u16>, a: int, b: int) -> bool {
    scores[a] > scores[b] || (scores[a] == scores[b] && a < b)
}

/// The positions of `scores` from the highest score to the lowest, equal
/// scores in the order in which they stand.
pub fn rank_by_score(scores: &Vec<u16>) -> (order: Vec<usize>)
    ensures
        is_ranking(scores@.len(), order@, |a: int, b: int| score_first(scores@, a, b)),
{
    let n = scores.len();
    let mut order: Vec<usize> = Vec::new();
    let mut j: usize = 0;
    while j < n
        invariant
            n == scores@.len(),
            j <= n,
            order@.len() == j,
            forall|k: int| 0 <= k < order@.len() ==> #[trigger] order@[k] < j,
            forall|i: int| 0 <= i < j ==> #[trigger] order@.contains(i as usize),
            forall|k: int, l: int|
                0 <= k < l < order@.len() ==> score_first(
                    scores@,
                    #[trigger] order@[k] as int,
                    #[trigger] order@[l] as int,
                ),
        decreases n - j,
    {
        let mut p: usize = 0;
        while p < order.len() && scores[order[p]] >= scores[j]
            invariant
                n == scores@.len(),
                j < n,
                p <= order@.len(),
                forall|k: int| 0 <= k < order@.len() ==> #[trigger] order@[k] < j,
                forall|k: int| 0 <= k < p ==> scores@[#[trigger] order@[k] as int] >= scores@[j as int],
            decreases order@.len() - p,
        {
            p = p + 1;
        }
        let ghost before = order@;
        order.insert(p, j);
        proof {
            before.insert_ensures(p as int, j);
            assert forall|k: int| 0 <= k < order@.len() implies #[trigger] order@[k] < j + 1 by {
                if k < p {
                    assert(order@[k] == before[k]);
                } else if k > p {
                    assert(order@[k] == before[k - 1]);
                }
            }
            assert forall|i: int| 0 <= i < j + 1 implies #[trigger] order@.contains(i as usize) by {
                if i == j {
                    assert(order@[p as int] == j);
                } else {
                    assert(before.contains(i as usize));
                    let k = choose|k: int| 0 <= k < before.len() && before[k] == i as usize;
                    if k < p {
                        assert(order@[k] == before[k]);
                    } else {
                        assert(order@[k + 1] == before[k]);
                    }
                }
            }
            assert forall|k: int, l: int| 0 <= k < l < order@.len() implies score_first(
                scores@,
                #[trigger] order@[k] as int,
                #[trigger] order@[l] as int,
            ) by {
                if l < p {
                    assert(order@[k] == before[k] && order@[l] == before[l]);
                } else if l == p {
                    assert(order@[k] == before[k]);
                    assert(scores@[before[k] as int] >= scores@[j as int]);
                } else if k < p {
                    assert(order@[k] == before[k] && order@[l] == before[l - 1]);
                } else if k == p {
                    assert(order@[l] == before[l - 1]);
                    assert(p < before.len());
                    assert(scores@[before[p as int] as int] < scores@[j as int]);
                    if l - 1 > p {
                        assert(score_first(scores@, before[p as int] as int, before[l - 1] as int));
                    }
                } else {
                    assert(order@[k] == before[k - 1] && order@[l] == before[l - 1]);
                }
            }
        }
        j = j + 1;
    }
    order
}

/// A ranking by one order is a ranking by any order that agrees with it
/// on the positions below `n`.
pub proof fn lemma_ranking_transfer(
    n: nat,
    order: Seq<usize>,
    p: spec_fn(int, int) -> bool,
    q: spec_fn(int, int) -> bool,
)
    requires
        is_ranking(n, order, p),
        forall|a: int, b: int| 0 <= a < n && 0 <= b < n && #[trigger] p(a, b) ==> q(a, b),
    ensures
        is_ranking(n, order, q),
{
    assert forall|k: int, l: int| 0 <= k < l < order.len() implies q(
        #[trigger] order[k] as int,
        #[trigger] order[l] as int,
    ) by {
        assert(p(order[k] as int, order[l] as int));
    }
}

/// The positions below `n` that `keep` holds of, in increasing order.
pub open spec fn select(n: nat, keep: spec_fn(int) -> bool) -> Seq<usize>
    decreases n,
{
    if n == 0 {
        Seq::empty()
    } else if keep(n - 1) {
        select((n - 1) as nat, keep).push((n - 1) as usize)
    } else {
        select((n - 1) as nat, keep)
    }
}

/// Every score is zero.
pub open spec fn all_zero(scores: Seq<u16>) -> bool {
    forall|i: int| 0 <= i < scores.len() ==> scores[i] == 0
}

/// The three groups of a list of causes, by their confidence, the share
/// of the total score that a cause holds. Where the total is zero nothing
/// points to a root cause and every cause is a symptom. Otherwise the most
/// likely causes share the confidence of the first cause, the less likely
/// have another one above zero, and the symptoms have none.
pub open spec fn confidence_groups(scores: Seq<u16>) -> (Seq<usize>, Seq<usize>, Seq<usize>) {
    if all_zero(scores) {
        (Seq::empty(), Seq::empty(), select(scores.len(), |i: int| true))
    } else {
        (
            select(scores.len(), |i: int| scores[i] == scores[0]),
            select(scores.len(), |i: int| scores[i] != scores[0] && scores[i] > 0),
            select(scores.len(), |i: int| scores[i] == 0),
        )
    }
}

/// The positions of `scores` in each confidence group.
pub fn group_by_confidence(scores: &Vec<u16>) -> (groups: (Vec<usize>, Vec<usize>, Vec<usize>))
    requires
        scores@.len() > 0,
    ensures
        (groups.0@, groups.1@, groups.2@) == confidence_groups(scores@),
{
    let n = scores.len();
    let mut zero = true;
    let mut i: usize = 0;
    while i < n
        invariant
            n == scores@.len(),
            i <= n,
            zero == (forall|k: int| 0 <= k < i ==> scores@[k] == 0),
        decreases n - i,
    {
        if scores[i] != 0 {
            zero = false;
        }
        i = i + 1;
    }
    let mut most: Vec<usize> = Vec::new();
    let mut less: Vec<usize> = Vec::new();
    let mut symptoms: Vec<usize> = Vec::new();
    if zero {
        let ghost every = |k: int| true;
        let mut i: usize = 0;
        while i < n
            invariant
                n == scores@.len(),
                i <= n,
                every == (|k: int| true),
                symptoms@ == select(i as nat, every),
            decreases n - i,
        {
            proof {
                assert(every(i as int));
            }
            symptoms.push(i);
            i = i + 1;
        }
        return (most, less, symptoms);
    }
    let top = scores[0];
    let ghost keep_most = |k: int| scores@[k] == scores@[0];
    let ghost keep_less = |k: int| scores@[k] != scores@[0] && scores@[k] > 0;
    let ghost keep_symptom = |k: int| scores@[k] == 0;
    let mut i: usize = 0;
    while i < n
        invariant
            n == scores@.len(),
            n > 0,
            top == scores@[0],
            i <= n,
            keep_most == (|k: int| scores@[k] == scores@[0]),
            keep_less == (|k: int| scores@[k] != scores@[0] && scores@[k] > 0),
            keep_symptom == (|k: int| scores@[k] == 0),
            most@ == select(i as nat, keep_most),
            less@ == select(i as nat, keep_less),
            symptoms@ == select(i as nat, keep_symptom),
        decreases n - i,
    {
        let s = scores[i];
        proof {
            assert(keep_most(i as int) == (s == top));
            assert(keep_less(i as int) == (s != top && s > 0));
            assert(keep_symptom(i as int) == (s == 0));
        }
        if s == top {
            most.push(i);
        }
        if s != top && s > 0 {
            less.push(i);
        }
        if s == 0 {
            symptoms.push(i);
        }
        i = i + 1;
    }
    (most, less, symptoms)
}

/// Position `i` below `n` is selected exactly where `keep` holds of it,
/// and every selected position is below `n`.
pub proof fn lemma_select(n: nat, keep: spec_fn(int) -> bool, i: int)
    requires
        n <= usize::MAX,
    ensures
        0 <= i < n ==> (select(n, keep).contains(i as usize) <==> keep(i)),
        forall|k: int| 0 <= k < select(n, keep).len() ==> #[trigger] select(n, keep)[k] < n,
    decreases n,
{
    if n > 0 {
        lemma_select((n - 1) as nat, keep, i);
        let prev = select((n - 1) as nat, keep);
        let cur = select(n, keep);
        assert forall|k: int| 0 <= k < cur.len() implies #[trigger] cur[k] < n by {
            if k < prev.len() {
                assert(prev[k] < n - 1);
                if keep(n - 1) {
                    assert(cur[k] == prev[k]);
                }
            }
        }
        if 0 <= i < n {
            if i == n - 1 {
                if keep(i) {
                    assert(cur[prev.len() as int] == i as usize);
                } else {
                    if prev.contains(i as usize) {
                        let k = choose|k: int| 0 <= k < prev.len() && prev[k] == i as usize;
                        assert(prev[k] < n - 1);
                    }
                }
            } else {
                if keep(n - 1) {
                    if prev.contains(i as usize) {
                        let k = choose|k: int| 0 <= k < prev.len() && prev[k] == i as usize;
                        assert(cur[k] == i as usize);
                    }
                    if cur.contains(i as usize) {
                        let k = choose|k: int| 0 <= k < cur.len() && cur[k] == i as usize;
                        if k == prev.len() {
                            assert(cur[k] == (n - 1) as usize);
                        }
                        assert(prev[k] == i as usize);
                    }
                }
            }
        }
    }
}

/// For causes listed from the highest score to the lowest, the confidence
/// groups split the list: each cause is in exactly one group.
pub proof fn lemma_groups_partition(scores: Seq<u16>, i: int)
    requires
        0 <= i < scores.len() <= usize::MAX,
        forall|a: int, b: int| 0 <= a < b < scores.len() ==> scores[a] >= scores[b],
    ensures
        ({
            let g = confidence_groups(scores);
            let m = g.0.contains(i as usize);
            let l = g.1.contains(i as usize);
            let s = g.2.contains(i as usize);
            (m || l || s) && !(m && l) && !(m && s) && !(l && s)
        }),
{
    let n = scores.len();
    lemma_select(n, |k: int| scores[k] == scores[0], i);
    lemma_select(n, |k: int| scores[k] != scores[0] && scores[k] > 0, i);
    lemma_select(n, |k: int| scores[k] == 0, i);
    lemma_select(n, |k: int| true, i);
    if !all_zero(scores) {
        let j = choose|j: int| 0 <= j < scores.len() && scores[j] != 0;
        if j > 0 {
            assert(scores[0] >= scores[j]);
        }
        if i > 0 {
            assert(scores[0] >= scores[i]);
        }
    }
}

} // verus!
