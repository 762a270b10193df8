//! Candidate ranking: among scored candidates the accepted match is the first
//! one, in iteration order, whose distance equals the minimum of all recorded
//! distances. Distinct distances coexist until the minimum is read out; among
//! candidates sharing the minimal distance only the first encountered counts.

use vstd::prelude::*;

verus! {

/// Index of the first candidate attaining the minimal distance. Each
/// candidate is a pair of a distance and an opaque payload index.
pub open spec fn first_min_idx(s: Seq<(usize, usize)>) -> int
    decreases s.len(),
{
    if s.len() <= 1 {
        0
    } else {
        let m = first_min_idx(s.drop_last());
        if s.last().0 < s[m].0 {
            s.len() - 1
        } else {
            m
        }
    }
}

/// The first-minimum index is in range and its distance is minimal.
pub proof fn lemma_first_min(s: Seq<(usize, usize)>)
    requires
        s.len() > 0,
    ensures
        0 <= first_min_idx(s) < s.len(),
        forall|k: int| 0 <= k < s.len() ==> s[first_min_idx(s)].0 <= (#[trigger] s[k]).0,
    decreases s.len(),
{
    if s.len() > 1 {
        lemma_first_min(s.drop_last());
        assert(forall|k: int| 0 <= k < s.len() - 1 ==> s.drop_last()[k] == s[k]);
    }
}

/// Select the accepted candidate: the first one with the minimal distance.
/// Returns `None` exactly when no candidate was recorded; the selected
/// candidate's distance is never above any recorded distance.
pub fn select_first_min(cands: &Vec<(usize, usize)>) -> (r: Option<(usize, usize)>)
    ensures
        r is None <==> cands@.len() == 0,
        r matches Some(c) ==> c == cands@[first_min_idx(cands@)],
        r matches Some(c) ==> forall|k: int| 0 <= k < cands@.len() ==> c.0 <= #[trigger] cands@[k].0,
{
    if cands.len() == 0 {
        return None;
    }
    let mut best: (usize, usize) = cands[0];
    let mut i: usize = 1;
    proof {
        assert(cands@.subrange(0, 1) =~= seq![cands@[0]]);
        assert(first_min_idx(cands@.subrange(0, 1)) == 0);
    }
    while i < cands.len()
        invariant
            1 <= i <= cands@.len(),
            0 <= first_min_idx(cands@.subrange(0, i as int)) < i,
            best == cands@[first_min_idx(cands@.subrange(0, i as int))],
        decreases cands@.len() - i,
    {
        proof {
            let pre = cands@.subrange(0, i + 1);
            assert(pre.drop_last() =~= cands@.subrange(0, i as int));
            lemma_first_min(pre);
        }
        if cands[i].0 < best.0 {
            best = cands[i];
        }
        i = i + 1;
    }
    proof {
        assert(cands@.subrange(0, cands@.len() as int) =~= cands@);
        lemma_first_min(cands@);
    }
    Some(best)
}

} // verus!
