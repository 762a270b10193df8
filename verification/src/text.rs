//! Character-sequence utilities shared by the matching components:
//! substring search, substring replacement, ASCII case folding and
//! case-insensitive comparison.

use vstd::prelude::*;

verus! {

/// The pattern `pat` occurs in `s` starting at position `i`.
pub open spec fn match_at(s: Seq<char>, pat: Seq<char>, i: int) -> bool {
    0 <= i && i + pat.len() <= s.len() && s.subrange(i, i + pat.len() as int) == pat
}

/// The pattern `pat` occurs somewhere in `s`.
pub open spec fn spec_contains(s: Seq<char>, pat: Seq<char>) -> bool {
    exists|i: int| match_at(s, pat, i)
}

/// ASCII lower-case code of a character: letters `A`..`Z` map to their
/// lower-case code, every other character keeps its own code.
pub open spec fn lower_code(c: char) -> u32 {
    if 65 <= c as u32 <= 90 {
        (c as u32 + 32) as u32
    } else {
        c as u32
    }
}

/// A sequence of characters folded to ASCII lower-case codes.
pub open spec fn lower_seq(s: Seq<char>) -> Seq<u32> {
    s.map_values(|c: char| lower_code(c))
}

/// Equality up to ASCII case.
pub open spec fn spec_eq_ci(a: Seq<char>, b: Seq<char>) -> bool {
    lower_seq(a) == lower_seq(b)
}

/// Containment up to ASCII case.
pub open spec fn spec_contains_ci(s: Seq<char>, pat: Seq<char>) -> bool {
    exists|i: int|
        0 <= i && i + pat.len() <= s.len() && (#[trigger] lower_seq(s).subrange(
            i,
            i + pat.len() as int,
        )) == lower_seq(pat)
}

/// Collect the characters of a string slice into a vector.
pub fn chars_of(s: &str) -> (r: Vec<char>)
    ensures
        r@ == s@,
{
    let n = s.unicode_len();
    let mut r: Vec<char> = Vec::new();
    let mut i: usize = 0;
    while i < n
        invariant
            n == s@.len(),
            i <= n,
            r@ == s@.subrange(0, i as int),
        decreases n - i,
    {
        r.push(s.get_char(i));
        proof {
            assert(r@ =~= s@.subrange(0, i + 1 as int));
        }
        i = i + 1;
    }
    proof {
        assert(s@.subrange(0, n as int) =~= s@);
    }
    r
}

/// Whether `pat` occurs in `s` at position `i`.
fn match_at_exec(s: &Vec<char>, pat: &Vec<char>, i: usize) -> (r: bool)
    requires
        i + pat@.len() <= s@.len(),
    ensures
        r == match_at(s@, pat@, i as int),
{
    // The exec length ties the view's length to the machine word range,
    // which the loop's index arithmetic needs.
    let total = s.len();
    proof {
        assert(total == s@.len());
    }
    let mut j: usize = 0;
    while j < pat.len()
        invariant
            i + pat@.len() <= s@.len(),
            s@.len() <= usize::MAX,
            j <= pat@.len(),
            forall|k: int| 0 <= k < j ==> s@[i + k] == pat@[k],
        decreases pat@.len() - j,
    {
        if s[i + j] != pat[j] {
            proof {
                assert(s@.subrange(i as int, i + pat@.len() as int)[j as int] != pat@[j as int]);
            }
            return false;
        }
        j = j + 1;
    }
    proof {
        assert(s@.subrange(i as int, i + pat@.len() as int) =~= pat@);
    }
    true
}

/// Whether `pat` occurs anywhere in `s` (case-sensitive).
pub fn contains_chars(s: &Vec<char>, pat: &Vec<char>) -> (r: bool)
    ensures
        r == spec_contains(s@, pat@),
{
    if pat.len() == 0 {
        proof {
            assert(s@.subrange(0, 0) =~= pat@);
            assert(match_at(s@, pat@, 0));
        }
        return true;
    }
    if pat.len() > s.len() {
        return false;
    }
    let bound = s.len() - pat.len();
    let mut i: usize = 0;
    while i <= bound
        invariant
            1 <= pat@.len() <= s@.len(),
            s@.len() <= usize::MAX,
            bound == s@.len() - pat@.len(),
            i <= bound + 1,
            forall|k: int| 0 <= k < i ==> !match_at(s@, pat@, k),
        decreases bound + 1 - i,
    {
        if match_at_exec(s, pat, i) {
            return true;
        }
        i = i + 1;
    }
    false
}

/// ASCII lower-case code of a character.
pub fn lower_char_code(c: char) -> (r: u32)
    ensures
        r == lower_code(c),
{
    let x = c as u32;
    if 65 <= x && x <= 90 {
        x + 32
    } else {
        x
    }
}

/// Equality of two character sequences up to ASCII case.
pub fn eq_ci(a: &Vec<char>, b: &Vec<char>) -> (r: bool)
    ensures
        r == spec_eq_ci(a@, b@),
{
    if a.len() != b.len() {
        proof {
            assert(lower_seq(a@).len() != lower_seq(b@).len());
        }
        return false;
    }
    let mut i: usize = 0;
    while i < a.len()
        invariant
            a@.len() == b@.len(),
            i <= a@.len(),
            forall|k: int| 0 <= k < i ==> lower_code(a@[k]) == lower_code(b@[k]),
        decreases a@.len() - i,
    {
        if lower_char_code(a[i]) != lower_char_code(b[i]) {
            proof {
                assert(lower_seq(a@)[i as int] != lower_seq(b@)[i as int]);
            }
            return false;
        }
        i = i + 1;
    }
    proof {
        assert(lower_seq(a@) =~= lower_seq(b@));
    }
    true
}

/// Whether `pat` occurs in `s` at position `i`, up to ASCII case.
fn match_at_ci_exec(s: &Vec<char>, pat: &Vec<char>, i: usize) -> (r: bool)
    requires
        i + pat@.len() <= s@.len(),
    ensures
        r == (lower_seq(s@).subrange(i as int, i + pat@.len() as int) == lower_seq(pat@)),
{
    // The exec length ties the view's length to the machine word range,
    // which the loop's index arithmetic needs.
    let total = s.len();
    proof {
        assert(total == s@.len());
    }
    let mut j: usize = 0;
    while j < pat.len()
        invariant
            i + pat@.len() <= s@.len(),
            s@.len() <= usize::MAX,
            j <= pat@.len(),
            forall|k: int| 0 <= k < j ==> lower_code(s@[i + k]) == lower_code(pat@[k]),
        decreases pat@.len() - j,
    {
        if lower_char_code(s[i + j]) != lower_char_code(pat[j]) {
            proof {
                assert(lower_seq(s@).subrange(i as int, i + pat@.len() as int)[j as int]
                    != lower_seq(pat@)[j as int]);
            }
            return false;
        }
        j = j + 1;
    }
    proof {
        assert(lower_seq(s@).subrange(i as int, i + pat@.len() as int) =~= lower_seq(pat@));
    }
    true
}

/// Whether `pat` occurs anywhere in `s`, up to ASCII case.
pub fn contains_ci(s: &Vec<char>, pat: &Vec<char>) -> (r: bool)
    ensures
        r == spec_contains_ci(s@, pat@),
{
    if pat.len() == 0 {
        proof {
            assert(spec_contains_ci(s@, pat@)) by {
                assert(lower_seq(s@).subrange(0, 0 + pat@.len() as int) =~= lower_seq(pat@));
            }
        }
        return true;
    }
    if pat.len() > s.len() {
        return false;
    }
    let bound = s.len() - pat.len();
    let mut i: usize = 0;
    while i <= bound
        invariant
            1 <= pat@.len() <= s@.len(),
            s@.len() <= usize::MAX,
            bound == s@.len() - pat@.len(),
            i <= bound + 1,
            forall|k: int|
                0 <= k < i ==> (#[trigger] lower_seq(s@).subrange(k, k + pat@.len() as int))
                    != lower_seq(pat@),
        decreases bound + 1 - i,
    {
        if match_at_ci_exec(s, pat, i) {
            return true;
        }
        i = i + 1;
    }
    false
}

/// Replacement of every occurrence of `pat` in `s` by `rep`, scanning left to
/// right over non-overlapping occurrences. An empty pattern leaves `s` as it is.
pub open spec fn spec_replace(s: Seq<char>, pat: Seq<char>, rep: Seq<char>) -> Seq<char>
    decreases s.len(),
{
    if pat.len() == 0 || s.len() < pat.len() {
        s
    } else if s.subrange(0, pat.len() as int) == pat {
        rep + spec_replace(s.skip(pat.len() as int), pat, rep)
    } else {
        seq![s[0]] + spec_replace(s.skip(1), pat, rep)
    }
}

/// Replacing a pattern that does not occur leaves the text unchanged.
pub proof fn lemma_replace_absent(s: Seq<char>, pat: Seq<char>, rep: Seq<char>)
    requires
        !spec_contains(s, pat),
    ensures
        spec_replace(s, pat, rep) == s,
    decreases s.len(),
{
    if pat.len() == 0 || s.len() < pat.len() {
    } else {
        assert(!match_at(s, pat, 0));
        assert(s.subrange(0, pat.len() as int) != pat);
        assert(!spec_contains(s.skip(1), pat)) by {
            if spec_contains(s.skip(1), pat) {
                let i = choose|i: int| match_at(s.skip(1), pat, i);
                assert(s.subrange(i + 1, i + 1 + pat.len() as int) =~= s.skip(1).subrange(
                    i,
                    i + pat.len() as int,
                ));
                assert(match_at(s, pat, i + 1));
            }
        }
        lemma_replace_absent(s.skip(1), pat, rep);
        assert(seq![s[0]] + s.skip(1) =~= s);
    }
}

/// Append every character of `src` to `out`.
pub fn push_all(out: &mut Vec<char>, src: &Vec<char>)
    ensures
        final(out)@ == old(out)@ + src@,
{
    let mut j: usize = 0;
    while j < src.len()
        invariant
            j <= src@.len(),
            out@ == old(out)@ + src@.subrange(0, j as int),
        decreases src@.len() - j,
    {
        out.push(src[j]);
        proof {
            assert(old(out)@ + src@.subrange(0, j + 1 as int) =~= out@);
        }
        j = j + 1;
    }
    proof {
        assert(old(out)@ + src@.subrange(0, src@.len() as int) =~= old(out)@ + src@);
    }
}

/// Replace every occurrence of `pat` in `s` by `rep`.
#[verifier::rlimit(30)]
pub fn replace_chars(s: &Vec<char>, pat: &Vec<char>, rep: &Vec<char>) -> (r: Vec<char>)
    ensures
        r@ == spec_replace(s@, pat@, rep@),
{
    let mut out: Vec<char> = Vec::new();
    if pat.len() == 0 || s.len() < pat.len() {
        push_all(&mut out, s);
        return out;
    }
    let bound = s.len() - pat.len();
    let mut i: usize = 0;
    proof {
        assert(s@.skip(0) =~= s@);
    }
    while i <= bound
        invariant
            1 <= pat@.len() <= s@.len(),
            s@.len() <= usize::MAX,
            bound == s@.len() - pat@.len(),
            i <= s@.len(),
            spec_replace(s@, pat@, rep@) == out@ + spec_replace(s@.skip(i as int), pat@, rep@),
        decreases s@.len() - i,
    {
        let rest = Ghost(s@.skip(i as int));
        proof {
            assert(rest@.subrange(0, pat@.len() as int) =~= s@.subrange(
                i as int,
                i + pat@.len() as int,
            ));
        }
        if match_at_exec(s, pat, i) {
            proof {
                assert(rest@.skip(pat@.len() as int) =~= s@.skip(i + pat@.len() as int));
                assert(spec_replace(rest@, pat@, rep@) == rep@ + spec_replace(
                    s@.skip(i + pat@.len() as int),
                    pat@,
                    rep@,
                ));
                assert(out@ + spec_replace(rest@, pat@, rep@) =~= (out@ + rep@) + spec_replace(
                    s@.skip(i + pat@.len() as int),
                    pat@,
                    rep@,
                ));
            }
            push_all(&mut out, rep);
            i = i + pat.len();
        } else {
            proof {
                assert(rest@.skip(1) =~= s@.skip(i + 1));
                assert(spec_replace(rest@, pat@, rep@) == seq![s@[i as int]] + spec_replace(
                    s@.skip(i + 1),
                    pat@,
                    rep@,
                ));
                assert(out@ + spec_replace(rest@, pat@, rep@) =~= out@.push(s@[i as int])
                    + spec_replace(s@.skip(i + 1), pat@, rep@));
            }
            out.push(s[i]);
            i = i + 1;
        }
    }
    // Too few characters remain for a further match: copy the tail through.
    proof {
        assert(spec_replace(s@.skip(i as int), pat@, rep@) == s@.skip(i as int));
    }
    let ghost out0 = out@;
    proof {
        assert(out0 + s@.subrange(i as int, i as int) =~= out0);
    }
    let mut j: usize = i;
    while j < s.len()
        invariant
            i <= j <= s@.len(),
            out@ == out0 + s@.subrange(i as int, j as int),
        decreases s@.len() - j,
    {
        out.push(s[j]);
        proof {
            assert(out0 + s@.subrange(i as int, j + 1 as int) =~= out@);
        }
        j = j + 1;
    }
    proof {
        assert(s@.subrange(i as int, s@.len() as int) =~= s@.skip(i as int));
    }
    out
}

} // verus!
