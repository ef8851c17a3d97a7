//! Selection of the best-scored chunks: threshold, descending score, ties in
//! insertion order, at most `top_k`.
//!
//! Scores are integer keys that order as the fused scores do; `None` marks a
//! chunk that is not a candidate (filtered out by document id).
use vstd::prelude::*;
use crate::text::KeywordFeatures;

verus! {

/// Chunk `i` comes before chunk `j`: a higher key, or an equal key and an
/// earlier insertion.
pub open spec fn ranks_before(keys: Seq<Option<i64>>, i: int, j: int) -> bool {
    keys[i]->0 > keys[j]->0 || (keys[i]->0 == keys[j]->0 && i < j)
}

/// Chunk `i` is a candidate whose key reaches the threshold.
pub open spec fn passes(keys: Seq<Option<i64>>, threshold: i64, i: int) -> bool {
    &&& 0 <= i < keys.len()
    &&& keys[i] is Some
    &&& keys[i]->0 >= threshold
}

/// `r` lists, best first, the first `top_k` (or all) of the chunks that pass
/// the threshold, in the order of `ranks_before`.
pub open spec fn is_top_selection(
    keys: Seq<Option<i64>>,
    threshold: i64,
    top_k: nat,
    r: Seq<usize>,
) -> bool {
    &&& r.len() <= top_k
    &&& forall|k: int| 0 <= k < r.len() ==> passes(keys, threshold, #[trigger] r[k] as int)
    &&& forall|a: int, b: int|
        0 <= a < b < r.len() ==> ranks_before(keys, #[trigger] r[a] as int, #[trigger] r[b] as int)
    &&& forall|j: int|
        passes(keys, threshold, j) && !r.contains(j as usize) ==> r.len() == top_k && forall|k: int|
            0 <= k < r.len() ==> ranks_before(keys, #[trigger] r[k] as int, j)
}

/// The indices of the chunks to return, best first (see `is_top_selection`).
pub fn select_top(keys: &Vec<Option<i64>>, threshold: i64, top_k: usize) -> (r: Vec<usize>)
    ensures
        is_top_selection(keys@, threshold, top_k as nat, r@),
{
    let ghost ks = keys@;
    let n = keys.len();
    let mut r: Vec<usize> = Vec::new();
    while r.len() < top_k
        invariant
            ks == keys@,
            n == keys.len(),
            r.len() <= top_k,
            forall|k: int| 0 <= k < r.len() ==> passes(ks, threshold, #[trigger] r@[k] as int),
            forall|a: int, b: int|
                0 <= a < b < r.len() ==> ranks_before(
                    ks,
                    #[trigger] r@[a] as int,
                    #[trigger] r@[b] as int,
                ),
            r.len() > 0 ==> forall|j: int|
                passes(ks, threshold, j) && !r@.contains(j as usize) ==> ranks_before(
                    ks,
                    r@.last() as int,
                    j,
                ),
        decreases top_k - r.len(),
    {
        let mut best: Option<usize> = None;
        let mut j: usize = 0;
        while j < n
            invariant
                ks == keys@,
                n == keys.len(),
                j <= n,
                forall|k: int| 0 <= k < r.len() ==> passes(ks, threshold, #[trigger] r@[k] as int),
                best is Some ==> best->0 < j,
                best is Some ==> passes(ks, threshold, best->0 as int) && (r.len() > 0
                    ==> ranks_before(ks, r@.last() as int, best->0 as int)),
                forall|i: int|
                    0 <= i < j && passes(ks, threshold, i) && (r.len() > 0 ==> ranks_before(
                        ks,
                        r@.last() as int,
                        i,
                    )) ==> (best is Some && (best->0 == i || ranks_before(ks, best->0 as int, i))),
            decreases n - j,
        {
            let after_last = match r.last() {
                None => true,
                Some(l) => {
                    let l = *l;
                    match (keys[l], keys[j]) {
                        (Some(kl), Some(kj)) => kl > kj || (kl == kj && l < j),
                        _ => false,
                    }
                },
            };
            let better = match keys[j] {
                Some(kj) => kj >= threshold && after_last && match best {
                    None => true,
                    Some(b) => match keys[b] {
                        Some(kb) => kj > kb || (kj == kb && j < b),
                        None => false,
                    },
                },
                None => false,
            };
            if better {
                best = Some(j);
            }
            j = j + 1;
        }
        match best {
            None => {
                proof {
                    assert forall|i: int| passes(ks, threshold, i) implies r@.contains(
                        i as usize,
                    ) by {
                        if !r@.contains(i as usize) {
                            assert(r.len() > 0 ==> ranks_before(ks, r@.last() as int, i));
                        }
                    }
                }
                return r;
            },
            Some(b) => {
                let ghost old_r = r@;
                proof {
                    if old_r.contains(b) {
                        let k = choose|k: int| 0 <= k < old_r.len() && old_r[k] == b;
                        if k < old_r.len() - 1 {
                            assert(ranks_before(ks, old_r[k] as int, old_r.last() as int));
                        }
                    }
                }
                r.push(b);
                proof {
                    assert(r@.last() == b);
                    assert forall|i: int|
                        passes(ks, threshold, i) && !r@.contains(i as usize) implies ranks_before(
                        ks,
                        b as int,
                        i,
                    ) by {
                        assert(!old_r.contains(i as usize)) by {
                            if old_r.contains(i as usize) {
                                let k = choose|k: int| 0 <= k < old_r.len() && old_r[k] == i as usize;
                                assert(r@[k] == i as usize);
                            }
                        }
                        assert(i != b);
                    }
                    assert forall|a: int, c: int| 0 <= a < c < r.len() implies ranks_before(
                        ks,
                        #[trigger] r@[a] as int,
                        #[trigger] r@[c] as int,
                    ) by {
                        if c == r.len() - 1 && a < c - 1 {
                            assert(ranks_before(ks, old_r[a] as int, old_r.last() as int));
                        }
                    }
                }
            },
        }
    }
    r
}

/// A threshold above every candidate's key selects nothing.
pub proof fn lemma_threshold_gating(
    keys: Seq<Option<i64>>,
    threshold: i64,
    top_k: nat,
    r: Seq<usize>,
)
    requires
        is_top_selection(keys, threshold, top_k, r),
        forall|i: int| 0 <= i < keys.len() && #[trigger] keys[i] is Some ==> keys[i]->0 < threshold,
    ensures
        r.len() == 0,
{
    if r.len() > 0 {
        assert(passes(keys, threshold, r[0] as int));
    }
}

/// Of two selected chunks with equal keys, the one inserted first comes first.
pub proof fn lemma_tie_break(
    keys: Seq<Option<i64>>,
    threshold: i64,
    top_k: nat,
    r: Seq<usize>,
    a: int,
    b: int,
)
    requires
        is_top_selection(keys, threshold, top_k, r),
        0 <= a < r.len(),
        0 <= b < r.len(),
        keys[r[a] as int] == keys[r[b] as int],
        r[a] < r[b],
    ensures
        a < b,
{
    if b < a {
        assert(ranks_before(keys, r[b] as int, r[a] as int));
    }
}

/// The keys of the candidates: `scores[i]` where chunk `i` has features
/// (passed the document filter), `None` elsewhere.
pub open spec fn candidate_keys(features: Seq<Option<KeywordFeatures>>, scores: Seq<i64>) -> Seq<
    Option<i64>,
> {
    Seq::new(features.len(), |i: int| if features[i] is Some { Some(scores[i]) } else { None })
}

/// The chunks to return, best first, among those that have features: at
/// most `top_k`, none scored below `threshold`.
pub fn rank_candidates(
    features: &Vec<Option<KeywordFeatures>>,
    scores: &Vec<i64>,
    threshold: i64,
    top_k: usize,
) -> (r: Vec<usize>)
    requires
        features.len() == scores.len(),
    ensures
        is_top_selection(candidate_keys(features@, scores@), threshold, top_k as nat, r@),
{
    let mut keys: Vec<Option<i64>> = Vec::new();
    let mut i: usize = 0;
    while i < features.len()
        invariant
            features.len() == scores.len(),
            i <= features.len(),
            keys@ == candidate_keys(features@, scores@).take(i as int),
        decreases features.len() - i,
    {
        let k = if features[i].is_some() {
            Some(scores[i])
        } else {
            None
        };
        keys.push(k);
        assert(keys@ =~= candidate_keys(features@, scores@).take(i + 1));
        i = i + 1;
    }
    assert(keys@ =~= candidate_keys(features@, scores@));
    select_top(&keys, threshold, top_k)
}

/// Only chunks that have features are selected.
pub proof fn lemma_selected_have_features(
    features: Seq<Option<KeywordFeatures>>,
    scores: Seq<i64>,
    threshold: i64,
    top_k: nat,
    r: Seq<usize>,
)
    requires
        is_top_selection(candidate_keys(features, scores), threshold, top_k, r),
    ensures
        forall|k: int| 0 <= k < r.len() ==> #[trigger] features[r[k] as int] is Some,
{
    assert forall|k: int| 0 <= k < r.len() implies #[trigger] features[r[k] as int] is Some by {
        assert(passes(candidate_keys(features, scores), threshold, r[k] as int));
    }
}

} // verus!
