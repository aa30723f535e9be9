//! The counting side of the offline ranking-quality metrics (precision@k,
//! recall@k, average precision, NDCG@k) over a ranked relevance list:
//! `rels[i]` means the item at rank `i` (0-based, best first) is relevant.
//! The metrics themselves are ratios of these counts.
use vstd::prelude::*;

verus! {

/// Number of `true` entries.
pub open spec fn count_true(s: Seq<bool>) -> nat
    decreases s.len(),
{
    if s.len() == 0 {
        0
    } else {
        count_true(s.drop_last()) + if s.last() {
            1nat
        } else {
            0nat
        }
    }
}

/// `k` clamped to the list length.
pub open spec fn clamp(k: int, len: int) -> int {
    if k < len {
        k
    } else {
        len
    }
}

/// The 1-based ranks of the relevant items, best first.
pub open spec fn relevant_ranks_of(s: Seq<bool>) -> Seq<int>
    decreases s.len(),
{
    if s.len() == 0 {
        seq![]
    } else if s.last() {
        relevant_ranks_of(s.drop_last()).push(s.len() as int)
    } else {
        relevant_ranks_of(s.drop_last())
    }
}

pub proof fn lemma_count_true_bound(s: Seq<bool>)
    ensures
        count_true(s) <= s.len(),
    decreases s.len(),
{
    if s.len() > 0 {
        lemma_count_true_bound(s.drop_last());
    }
}

/// Number of relevant items in the top `k` (k clamped to the list length).
pub fn hits_at_k(rels: &[bool], k: usize) -> (r: usize)
    ensures
        r == count_true(rels@.take(clamp(k as int, rels@.len() as int))),
        r <= clamp(k as int, rels@.len() as int),
{
    let n = if k < rels.len() {
        k
    } else {
        rels.len()
    };
    let mut hits: usize = 0;
    let mut i: usize = 0;
    while i < n
        invariant
            i <= n <= rels@.len(),
            hits == count_true(rels@.take(i as int)),
            hits <= i,
        decreases n - i,
    {
        assert(rels@.take(i + 1).drop_last() =~= rels@.take(i as int));
        if rels[i] {
            hits += 1;
        }
        i += 1;
    }
    hits
}

/// Number of relevant items in the whole list.
pub fn count_relevant(rels: &[bool]) -> (r: usize)
    ensures
        r == count_true(rels@),
{
    let r = hits_at_k(rels, rels.len());
    assert(rels@.take(rels@.len() as int) =~= rels@);
    r
}

/// The number of hits an ideal ranking has in its top `k`: all relevant
/// items first, as many as fit.
pub fn ideal_hits(rels: &[bool], k: usize) -> (r: usize)
    ensures
        r as int == clamp(count_true(rels@) as int, clamp(k as int, rels@.len() as int)),
{
    let total = count_relevant(rels);
    let n = if k < rels.len() {
        k
    } else {
        rels.len()
    };
    if total < n {
        total
    } else {
        n
    }
}

/// The 1-based ranks of the relevant items, best first: the ranks at which
/// average precision takes its precision values and DCG its gains.
pub fn relevant_ranks(rels: &[bool]) -> (r: Vec<usize>)
    ensures
        r@.map_values(|x: usize| x as int) == relevant_ranks_of(rels@),
{
    let mut out: Vec<usize> = Vec::new();
    let mut i: usize = 0;
    while i < rels.len()
        invariant
            i <= rels@.len(),
            out@.map_values(|x: usize| x as int) == relevant_ranks_of(rels@.take(i as int)),
        decreases rels.len() - i,
    {
        assert(rels@.take(i + 1).drop_last() =~= rels@.take(i as int));
        let ghost before = out@.map_values(|x: usize| x as int);
        if rels[i] {
            out.push(i + 1);
            assert(out@.map_values(|x: usize| x as int) =~= before.push(i + 1));
        }
        i += 1;
    }
    assert(rels@.take(rels@.len() as int) =~= rels@);
    out
}

/// The relevant ranks number as many as the relevant items, rise strictly,
/// and the `j`-th (0-based) is at least `j + 1`: no ranking places its
/// `j`-th hit higher than the ideal one does. Hence precision, recall,
/// average precision and NDCG never exceed 1.
pub proof fn lemma_ranks_dominate_ideal(s: Seq<bool>)
    ensures
        relevant_ranks_of(s).len() == count_true(s),
        forall|j: int|
            0 <= j < relevant_ranks_of(s).len() ==> j + 1 <= #[trigger] relevant_ranks_of(s)[j]
                <= s.len(),
        forall|a: int, b: int|
            0 <= a < b < relevant_ranks_of(s).len() ==> #[trigger] relevant_ranks_of(s)[a]
                < #[trigger] relevant_ranks_of(s)[b],
    decreases s.len(),
{
    if s.len() > 0 {
        lemma_ranks_dominate_ideal(s.drop_last());
        lemma_count_true_bound(s.drop_last());
    }
}

/// Hits in the top `k` never outnumber the hits of the ideal ranking.
pub proof fn lemma_hits_within_ideal(s: Seq<bool>, k: int)
    requires
        0 <= k,
    ensures
        count_true(s.take(clamp(k, s.len() as int))) <= clamp(
            count_true(s) as int,
            clamp(k, s.len() as int),
        ),
{
    let n = clamp(k, s.len() as int);
    lemma_count_true_bound(s.take(n));
    lemma_count_prefix(s, n);
}

/// A prefix holds no more relevant items than the whole list.
pub proof fn lemma_count_prefix(s: Seq<bool>, n: int)
    requires
        0 <= n <= s.len(),
    ensures
        count_true(s.take(n)) <= count_true(s),
    decreases s.len() - n,
{
    if n < s.len() {
        lemma_count_prefix(s, n + 1);
        assert(s.take(n + 1).drop_last() =~= s.take(n));
    } else {
        assert(s.take(n) =~= s);
    }
}

} // verus!
