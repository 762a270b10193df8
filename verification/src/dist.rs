//! Two-tier approximate string comparison: a cheap linear pre-filter
//! distance and the precise Damerau-Levenshtein edit distance. Only pairs
//! below the caller's fast threshold proceed to the edit-distance
//! computation, purely for throughput on large corpora.

use vstd::prelude::*;

verus! {

/// The Damerau-Levenshtein edit distance between two character sequences.
/// Left abstract: its value is pinned only by the trusted contract of
/// `damerau`.
pub uninterp spec fn damerau_dist(a: Seq<char>, b: Seq<char>) -> nat;

/// Relies on distance::damerau_levenshtein: the edit distance of two
/// strings. It is a function of the two character sequences alone, is
/// symmetric in its arguments, and is zero exactly when the sequences are
/// equal.
#[verifier::external_body]
fn damerau_raw(a: &Vec<char>, b: &Vec<char>) -> (r: usize)
    ensures
        r == damerau_dist(a@, b@),
        r == damerau_dist(b@, a@),
        r == 0 <==> a@ == b@,
{
    let sa: String = a.iter().collect();
    let sb: String = b.iter().collect();
    distance::damerau_levenshtein(&sa, &sb)
}

/// The precise edit distance: symmetric, and zero exactly on equal inputs.
pub fn edit_distance(a: &Vec<char>, b: &Vec<char>) -> (r: usize)
    ensures
        r == damerau_dist(a@, b@),
        r == damerau_dist(b@, a@),
        r == 0 <==> a@ == b@,
{
    damerau_raw(a, b)
}

/// Offset resynchronisation of the linear pre-filter distance: after a
/// mismatch at position `c`, search a window of at most 5 characters for the
/// next agreement, preferring the first sequence.
pub open spec fn sift3_offsets(s: Seq<char>, t: Seq<char>, c: int, i: int) -> (int, int)
    decreases 5 - i,
{
    if i < 0 || i >= 5 {
        (0, 0)
    } else if c + i < s.len() && s[c + i] == t[c] {
        (i, 0)
    } else if c + i < t.len() && s[c] == t[c + i] {
        (0, i)
    } else {
        sift3_offsets(s, t, c, i + 1)
    }
}

/// The common-subsequence count of the linear pre-filter distance: walk both
/// sequences with a shared cursor and per-sequence offsets, counting
/// agreements and resynchronising on mismatch.
pub open spec fn sift3_lcs(s: Seq<char>, t: Seq<char>, c: int, o1: int, o2: int, lcs: int) -> int
    decreases s.len() - c
        when 0 <= c && 0 <= o1 && 0 <= o2
{
    if !(c + o1 < s.len() && c + o2 < t.len()) {
        lcs
    } else if s[c + o1] == t[c + o2] {
        sift3_lcs(s, t, c + 1, o1, o2, lcs + 1)
    } else {
        let o = sift3_offsets(s, t, c, 0);
        sift3_lcs(s, t, c + 1, o.0, o.1, lcs)
    }
}

/// Twice the linear approximate string distance (a Sift3-style scan with a
/// window of 5). The doubling keeps the value integral: the undoubled
/// distance takes half-integer values.
pub open spec fn sift3_x2(s: Seq<char>, t: Seq<char>) -> int {
    if s.len() == 0 {
        2 * t.len() as int
    } else if t.len() == 0 {
        2 * s.len() as int
    } else {
        s.len() + t.len() - 2 * sift3_lcs(s, t, 0, 0, 0, 0)
    }
}

/// Twice the linear pre-filter distance between two character sequences.
pub fn sift3_doubled(s: &Vec<char>, t: &Vec<char>) -> (r: usize)
    requires
        2 * s@.len() + 2 * t@.len() + 16 <= usize::MAX,
    ensures
        r == sift3_x2(s@, t@),
{
    let ls = s.len();
    let lt = t.len();
    if ls == 0 {
        return 2 * lt;
    }
    if lt == 0 {
        return 2 * ls;
    }
    let mut c: usize = 0;
    let mut o1: usize = 0;
    let mut o2: usize = 0;
    let mut lcs: usize = 0;
    while c + o1 < ls && c + o2 < lt
        invariant
            ls == s@.len(),
            lt == t@.len(),
            2 * ls + 2 * lt + 16 <= usize::MAX,
            c <= ls,
            o1 <= 5,
            o2 <= 5,
            lcs <= c,
            lcs <= ls,
            lcs <= lt,
            sift3_lcs(s@, t@, c as int, o1 as int, o2 as int, lcs as int) == sift3_lcs(
                s@,
                t@,
                0,
                0,
                0,
                0,
            ),
        decreases ls - c,
    {
        let ghost go1 = o1 as int;
        let ghost go2 = o2 as int;
        let ghost glcs = lcs as int;
        if s[c + o1] == t[c + o2] {
            lcs = lcs + 1;
            proof {
                assert(sift3_lcs(s@, t@, c as int, go1, go2, glcs) == sift3_lcs(
                    s@,
                    t@,
                    c + 1 as int,
                    go1,
                    go2,
                    glcs + 1,
                ));
            }
        } else {
            o1 = 0;
            o2 = 0;
            let mut i: usize = 0;
            let mut searching = true;
            while searching && i < 5
                invariant
                    ls == s@.len(),
                    lt == t@.len(),
                    2 * ls + 2 * lt + 16 <= usize::MAX,
                    c < ls,
                    c < lt,
                    i <= 5,
                    o1 <= 5,
                    o2 <= 5,
                    searching ==> o1 == 0 && o2 == 0 && sift3_offsets(s@, t@, c as int, i as int)
                        == sift3_offsets(s@, t@, c as int, 0),
                    !searching ==> (o1 as int, o2 as int) == sift3_offsets(s@, t@, c as int, 0),
                decreases (if searching { 6 - i as int } else { 0int }),
            {
                if c + i < ls && s[c + i] == t[c] {
                    o1 = i;
                    searching = false;
                } else if c + i < lt && s[c] == t[c + i] {
                    o2 = i;
                    searching = false;
                } else {
                    i = i + 1;
                }
            }
            proof {
                if searching {
                    assert(sift3_offsets(s@, t@, c as int, 5) == (0int, 0int));
                }
                assert((o1 as int, o2 as int) == sift3_offsets(s@, t@, c as int, 0));
                assert(sift3_lcs(s@, t@, c as int, go1, go2, glcs) == sift3_lcs(
                    s@,
                    t@,
                    c + 1 as int,
                    o1 as int,
                    o2 as int,
                    glcs,
                ));
            }
        }
        c = c + 1;
    }
    ls + lt - 2 * lcs
}

/// Walking a sequence against itself counts every remaining position as an
/// agreement.
proof fn lemma_sift3_self_walk(s: Seq<char>, c: int, lcs: int)
    requires
        0 <= c <= s.len(),
    ensures
        sift3_lcs(s, s, c, 0, 0, lcs) == lcs + s.len() - c,
    decreases s.len() - c,
{
    if c < s.len() {
        lemma_sift3_self_walk(s, c + 1, lcs + 1);
    }
}

/// The linear pre-filter distance of a sequence with itself is zero.
pub proof fn lemma_sift3_x2_self(s: Seq<char>)
    ensures
        sift3_x2(s, s) == 0,
{
    if s.len() > 0 {
        lemma_sift3_self_walk(s, 0, 0);
    }
}

/// Whether a pair passes the cheap pre-filter: the linear distance is below
/// `precision * 1.6`, stated over the doubled distance in exact integer
/// arithmetic.
pub open spec fn spec_fast_filter(a: Seq<char>, b: Seq<char>, precision: u32) -> bool {
    5 * sift3_x2(a, b) < 16 * precision
}

/// Run the cheap pre-filter.
pub fn passes_fast_filter(a: &Vec<char>, b: &Vec<char>, precision: u32) -> (r: bool)
    requires
        2 * a@.len() + 2 * b@.len() + 16 <= usize::MAX,
    ensures
        r == spec_fast_filter(a@, b@, precision),
{
    let d2 = sift3_doubled(a, b);
    (d2 as u128) * 5 < (precision as u128) * 16
}

} // verus!
