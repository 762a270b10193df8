//! Data model of the linkage engine: trial groups, interventions, link
//! records, and the parsing of the delimiter-encoded intervention source
//! strings. Malformed encodings never fail: they fall back to sentinel
//! defaults (identifier 0, empty name).

use vstd::prelude::*;
use crate::text::push_all;

verus! {

/// An intervention: numeric identifier and name.
pub struct Intervention {
    pub id: i32,
    pub name: Vec<char>,
}

/// A trial arm, in either its design-group or result-group role. A group
/// without `id` is a synthetic placeholder and is never persisted as a link
/// target.
pub struct Group {
    pub id: Option<i32>,
    pub title: Option<Vec<char>>,
    pub description: Option<Vec<char>>,
    pub intervention: Option<Vec<Intervention>>,
}

/// The fields of a group that a link record carries.
pub struct GroupFields {
    pub id: Option<i32>,
    pub title: Option<Vec<char>>,
    pub description: Option<Vec<char>>,
}

/// One accepted group-to-group link. `design` is `None` for the explicit
/// no-design-group placeholder; `method` is the audit tag of the heuristic
/// that produced the link.
pub struct LinkRecord {
    pub study_id: Vec<char>,
    pub design: Option<GroupFields>,
    pub result: GroupFields,
    pub method: Vec<char>,
}

/// One accepted (result group, intervention) pair.
pub struct InterventionLink {
    pub rg_id: i32,
    pub intervention_id: i32,
}

/// The title of a group, or the given default where it has none.
pub open spec fn title_or(t: Option<Vec<char>>, d: Seq<char>) -> Seq<char> {
    match t {
        Some(v) => v@,
        None => d,
    }
}

/// Copy a character vector.
pub fn copy_chars(v: &Vec<char>) -> (r: Vec<char>)
    ensures
        r@ == v@,
{
    let mut r: Vec<char> = Vec::new();
    push_all(&mut r, v);
    r
}

/// Copy an optional character vector.
pub fn copy_opt_chars(v: &Option<Vec<char>>) -> (r: Option<Vec<char>>)
    ensures
        r is Some <==> v is Some,
        r matches Some(x) ==> v matches Some(y) && x@ == y@,
{
    match v {
        None => None,
        Some(x) => Some(copy_chars(x)),
    }
}

/// The fields of a group as a link record carries them.
pub fn fields_of(g: &Group) -> (r: GroupFields)
    ensures
        r.id == g.id,
        opt_view(r.title) == opt_view(g.title),
        opt_view(r.description) == opt_view(g.description),
{
    GroupFields {
        id: match &g.id {
            Some(i) => Some(*i),
            None => None,
        },
        title: copy_opt_chars(&g.title),
        description: copy_opt_chars(&g.description),
    }
}

/// The view of an optional character vector: the character sequence, or
/// `None`.
pub open spec fn opt_view(t: Option<Vec<char>>) -> Option<Seq<char>> {
    match t {
        Some(v) => Some(v@),
        None => None,
    }
}

/// The views of a sequence of character vectors.
pub open spec fn views_of(s: Seq<Vec<char>>) -> Seq<Seq<char>> {
    s.map_values(|v: Vec<char>| v@)
}

/// Splitting of `s` at every occurrence of the delimiter `d`, leftmost first,
/// non-overlapping; there is always at least one part.
pub open spec fn spec_split(s: Seq<char>, d: Seq<char>) -> Seq<Seq<char>>
    decreases s.len(),
{
    if d.len() == 0 || s.len() < d.len() {
        seq![s]
    } else if s.subrange(0, d.len() as int) == d {
        seq![Seq::<char>::empty()] + spec_split(s.skip(d.len() as int), d)
    } else {
        let r = spec_split(s.skip(1), d);
        seq![seq![s[0]] + r[0]] + r.skip(1)
    }
}

/// A split has at least one part.
pub proof fn lemma_split_nonempty(s: Seq<char>, d: Seq<char>)
    ensures
        spec_split(s, d).len() >= 1,
    decreases s.len(),
{
    if !(d.len() == 0 || s.len() < d.len()) {
        if s.subrange(0, d.len() as int) == d {
            lemma_split_nonempty(s.skip(d.len() as int), d);
        } else {
            lemma_split_nonempty(s.skip(1), d);
        }
    }
}

/// Split `s` at every occurrence of the delimiter `d`.
#[verifier::rlimit(30)]
pub fn split_chars(s: &Vec<char>, d: &Vec<char>) -> (r: Vec<Vec<char>>)
    requires
        d@.len() >= 1,
    ensures
        r@.len() == spec_split(s@, d@).len(),
        forall|k: int| 0 <= k < r@.len() ==> r@[k]@ == #[trigger] spec_split(s@, d@)[k],
{
    let ghost full = spec_split(s@, d@);
    let mut out: Vec<Vec<char>> = Vec::new();
    let mut cur: Vec<char> = Vec::new();
    let mut i: usize = 0;
    proof {
        lemma_split_nonempty(s@, d@);
        assert(s@.skip(0) =~= s@);
        assert(views_of(out@) + (seq![cur@ + spec_split(s@, d@)[0]]
            + spec_split(s@, d@).skip(1)) =~= full);
    }
    if d.len() <= s.len() {
        let bound = s.len() - d.len();
        while i <= bound
            invariant
                d@.len() >= 1,
                d@.len() <= s@.len(),
                s@.len() <= usize::MAX,
                bound == s@.len() - d@.len(),
                i <= s@.len(),
                full == spec_split(s@, d@),
                spec_split(s@.skip(i as int), d@).len() >= 1,
                views_of(out@) + (seq![
                    cur@ + spec_split(s@.skip(i as int), d@)[0],
                ] + spec_split(s@.skip(i as int), d@).skip(1)) == full,
            decreases s@.len() - i,
        {
            let ghost rest = s@.skip(i as int);
            let ghost rsplit = spec_split(rest, d@);
            let ghost out_v = views_of(out@);
            proof {
                assert(rest.subrange(0, d@.len() as int) =~= s@.subrange(
                    i as int,
                    i + d@.len() as int,
                ));
            }
            let mut is_match = true;
            let mut j: usize = 0;
            while j < d.len()
                invariant
                    i + d@.len() <= s@.len(),
                    s@.len() <= usize::MAX,
                    j <= d@.len(),
                    is_match == (forall|k: int| 0 <= k < j ==> s@[i + k] == d@[k]),
                decreases d@.len() - j,
            {
                if s[i + j] != d[j] {
                    is_match = false;
                    proof {
                        assert(s@[i + j as int] != d@[j as int]);
                    }
                    j = d.len();
                } else {
                    j = j + 1;
                }
            }
            if is_match {
                let ghost nsplit = spec_split(s@.skip(i + d@.len() as int), d@);
                proof {
                    assert(s@.subrange(i as int, i + d@.len() as int) =~= d@);
                    assert(rest.skip(d@.len() as int) =~= s@.skip(i + d@.len() as int));
                    assert(rsplit == seq![Seq::<char>::empty()] + nsplit);
                    lemma_split_nonempty(s@.skip(i + d@.len() as int), d@);
                    assert(rsplit[0] =~= Seq::<char>::empty());
                    assert(rsplit.skip(1) =~= nsplit);
                    assert(cur@ + rsplit[0] =~= cur@);
                }
                let done = cur;
                out.push(done);
                cur = Vec::new();
                proof {
                    assert(views_of(out@) =~= out_v.push(done@));
                    assert(seq![nsplit[0]] + nsplit.skip(1) =~= nsplit);
                    assert(cur@ + nsplit[0] =~= nsplit[0]);
                    assert(out_v.push(done@) + (seq![cur@ + nsplit[0]] + nsplit.skip(1)) =~= out_v
                        + (seq![done@ + rsplit[0]] + rsplit.skip(1)));
                }
                i = i + d.len();
            } else {
                proof {
                    assert(s@.subrange(i as int, i + d@.len() as int) != d@) by {
                        let k = choose|k: int| 0 <= k < d@.len() && s@[i + k] != d@[k];
                        assert(s@.subrange(i as int, i + d@.len() as int)[k] != d@[k]);
                    }
                    let nsplit = spec_split(s@.skip(i + 1), d@);
                    assert(rest.skip(1) =~= s@.skip(i + 1));
                    assert(rsplit == seq![seq![rest[0]] + nsplit[0]] + nsplit.skip(1));
                    lemma_split_nonempty(s@.skip(i + 1), d@);
                    assert(cur@.push(s@[i as int]) + nsplit[0] =~= cur@ + rsplit[0]);
                    assert(rsplit.skip(1) =~= nsplit.skip(1));
                    assert(out_v + (seq![cur@.push(s@[i as int]) + nsplit[0]] + nsplit.skip(1))
                        =~= out_v + (seq![cur@ + rsplit[0]] + rsplit.skip(1)));
                }
                cur.push(s[i]);
                i = i + 1;
            }
        }
    }
    // The remainder is shorter than the delimiter: it closes the last part.
    proof {
        assert(spec_split(s@.skip(i as int), d@) =~= seq![s@.skip(i as int)]);
    }
    let ghost cur0 = cur@;
    let mut j: usize = i;
    proof {
        assert(cur0 + s@.subrange(i as int, i as int) =~= cur0);
    }
    while j < s.len()
        invariant
            i <= j <= s@.len(),
            cur@ == cur0 + s@.subrange(i as int, j as int),
        decreases s@.len() - j,
    {
        cur.push(s[j]);
        proof {
            assert(cur0 + s@.subrange(i as int, j + 1 as int) =~= cur@);
        }
        j = j + 1;
    }
    let ghost out_v = views_of(out@);
    proof {
        assert(s@.subrange(i as int, s@.len() as int) =~= s@.skip(i as int));
        let rsplit = spec_split(s@.skip(i as int), d@);
        assert(rsplit[0] == s@.skip(i as int));
        assert(rsplit.skip(1) =~= Seq::<Seq<char>>::empty());
        assert(seq![cur0 + rsplit[0]] + rsplit.skip(1) =~= seq![cur@]);
        assert(out_v + seq![cur@] =~= full);
    }
    out.push(cur);
    proof {
        assert(views_of(out@) =~= out_v.push(cur@));
        assert(out_v.push(cur@) =~= out_v + seq![cur@]);
        assert(forall|k: int|
            0 <= k < out@.len() ==> out@[k]@ == #[trigger] views_of(out@)[k]);
    }
    out
}

/// A decimal digit.
pub open spec fn is_digit(c: char) -> bool {
    48 <= c as u32 <= 57
}

/// The numeric value of a decimal digit.
pub open spec fn digit_val(c: char) -> int {
    c as u32 - 48
}

/// Every character of `s` is a decimal digit.
pub open spec fn all_digits(s: Seq<char>) -> bool {
    forall|i: int| 0 <= i < s.len() ==> is_digit(s[i])
}

/// The value of a sequence of decimal digits.
pub open spec fn digits_val(s: Seq<char>) -> int
    decreases s.len(),
{
    if s.len() == 0 {
        0
    } else {
        digits_val(s.drop_last()) * 10 + digit_val(s.last())
    }
}

/// The value of a digit sequence is non-negative.
pub proof fn lemma_digits_nonneg(s: Seq<char>)
    requires
        all_digits(s),
    ensures
        digits_val(s) >= 0,
    decreases s.len(),
{
    if s.len() > 0 {
        assert(all_digits(s.drop_last()));
        lemma_digits_nonneg(s.drop_last());
    }
}

/// The digits of `s` after an optional leading sign.
pub open spec fn sign_digits(s: Seq<char>) -> Seq<char> {
    if s.len() > 0 && (s[0] == '-' || s[0] == '+') {
        s.skip(1)
    } else {
        s
    }
}

/// `s` denotes a negative number.
pub open spec fn sign_neg(s: Seq<char>) -> bool {
    s.len() > 0 && s[0] == '-'
}

/// The signed integer a character sequence denotes, with 0 for anything
/// malformed or out of the 32-bit range.
pub open spec fn spec_parse_i32(s: Seq<char>) -> i32 {
    let ds = sign_digits(s);
    if ds.len() == 0 || !all_digits(ds) {
        0
    } else if sign_neg(s) {
        if -digits_val(ds) >= i32::MIN {
            (-digits_val(ds)) as i32
        } else {
            0
        }
    } else {
        if digits_val(ds) <= i32::MAX {
            digits_val(ds) as i32
        } else {
            0
        }
    }
}

/// Parse a signed 32-bit integer; malformed or out-of-range input gives 0.
#[verifier::rlimit(30)]
pub fn parse_i32_chars(s: &Vec<char>) -> (r: i32)
    ensures
        r == spec_parse_i32(s@),
{
    let mut st: usize = 0;
    let mut neg = false;
    if s.len() > 0 && (s[0] == '-' || s[0] == '+') {
        st = 1;
        neg = s[0] == '-';
    }
    let ghost ds = sign_digits(s@);
    proof {
        assert(ds =~= s@.skip(st as int));
    }
    if s.len() == st {
        return 0;
    }
    let mut acc: u64 = 0;
    let mut over = false;
    let mut k: usize = st;
    proof {
        assert(ds.subrange(0, 0) =~= Seq::<char>::empty());
    }
    while k < s.len()
        invariant
            st <= k <= s@.len(),
            s@.len() <= usize::MAX,
            ds == s@.skip(st as int),
            ds == sign_digits(s@),
            forall|j: int| 0 <= j < k - st ==> is_digit(#[trigger] ds[j]),
            !over ==> acc == digits_val(ds.subrange(0, k - st)) && acc <= 21474836489,
            over ==> digits_val(ds.subrange(0, k - st)) > 2147483648,
        decreases s@.len() - k,
    {
        let code = s[k] as u32;
        if !(48 <= code && code <= 57) {
            proof {
                assert(ds[k - st] == s@[k as int]);
                assert(!all_digits(ds));
            }
            return 0;
        }
        let d = (code - 48) as u64;
        let ghost pre = ds.subrange(0, k - st);
        let ghost pre1 = ds.subrange(0, k + 1 - st);
        proof {
            assert(ds[k - st] == s@[k as int]);
            assert(is_digit(ds[k - st]));
            assert(forall|j: int| 0 <= j < pre.len() ==> is_digit(#[trigger] pre[j]));
            assert(all_digits(pre));
            assert(pre1.drop_last() =~= pre);
            assert(pre1.last() == s@[k as int]);
            assert(digits_val(pre1) == digits_val(pre) * 10 + digit_val(s@[k as int]));
            lemma_digits_nonneg(pre);
        }
        if over {
            proof {
                assert(digits_val(pre1) > 2147483648);
            }
        } else if acc > 2147483648 {
            over = true;
            proof {
                assert(digits_val(pre1) > 2147483648);
            }
        } else {
            acc = acc * 10 + d;
        }
        k = k + 1;
    }
    proof {
        assert(ds.subrange(0, s@.len() - st) =~= ds);
        assert(all_digits(ds));
        lemma_digits_nonneg(ds);
    }
    if over {
        return 0;
    }
    if neg {
        if acc > 2147483648 {
            0
        } else {
            (-(acc as i64)) as i32
        }
    } else {
        if acc > 2147483647 {
            0
        } else {
            acc as i32
        }
    }
}

/// The name part of a delimiter-encoded intervention entry.
pub open spec fn iv_name(e: Seq<char>) -> Seq<char> {
    spec_split(e, " || "@)[0]
}

/// The identifier part of a delimiter-encoded intervention entry; a missing
/// or malformed identifier defaults to 0.
pub open spec fn iv_id(e: Seq<char>) -> i32 {
    let p = spec_split(e, " || "@);
    if p.len() >= 2 {
        spec_parse_i32(p[1])
    } else {
        0
    }
}

/// Parse one `name || id` entry.
pub fn parse_intervention(e: &Vec<char>) -> (r: Intervention)
    ensures
        r.name@ == iv_name(e@),
        r.id == iv_id(e@),
{
    let d = crate::text::chars_of(" || ");
    proof {
        reveal_strlit(" || ");
    }
    let parts = split_chars(e, &d);
    proof {
        lemma_split_nonempty(e@, " || "@);
    }
    let name = copy_chars(&parts[0]);
    let id = if parts.len() >= 2 {
        parse_i32_chars(&parts[1])
    } else {
        0
    };
    Intervention { id, name }
}

/// The interventions string holds at least one real entry: the first part of
/// its first entry is non-empty.
pub open spec fn spec_has_interventions(o: Seq<char>) -> bool {
    spec_split(spec_split(o, " ||| "@)[0], " || "@)[0].len() > 0
}

/// Parse a `name || id ||| name || id ...` encoded interventions string.
/// An absent or empty source gives `None`; parsing itself never fails.
pub fn parse_interventions(src: &Option<Vec<char>>) -> (r: Option<Vec<Intervention>>)
    ensures
        src is None ==> r is None,
        src matches Some(o) ==> (r is Some <==> spec_has_interventions(o@)),
        r matches Some(v) ==> src matches Some(o) && v@.len() == spec_split(o@, " ||| "@).len()
            && (forall|k: int|
            0 <= k < v@.len() ==> (#[trigger] v@[k]).name@ == iv_name(spec_split(o@, " ||| "@)[k])
                && v@[k].id == iv_id(spec_split(o@, " ||| "@)[k])),
{
    let o = match src {
        None => {
            return None;
        },
        Some(o) => o,
    };
    let d3 = crate::text::chars_of(" ||| ");
    proof {
        reveal_strlit(" ||| ");
        reveal_strlit(" || ");
    }
    let entries = split_chars(o, &d3);
    proof {
        lemma_split_nonempty(o@, " ||| "@);
    }
    let d2 = crate::text::chars_of(" || ");
    let check = split_chars(&entries[0], &d2);
    proof {
        lemma_split_nonempty(entries@[0]@, " || "@);
    }
    if check[0].len() == 0 {
        return None;
    }
    let mut ivs: Vec<Intervention> = Vec::new();
    let mut k: usize = 0;
    while k < entries.len()
        invariant
            ivs@.len() == k,
            k <= entries@.len(),
            entries@.len() == spec_split(o@, " ||| "@).len(),
            forall|j: int|
                0 <= j < entries@.len() ==> entries@[j]@ == #[trigger] spec_split(
                    o@,
                    " ||| "@,
                )[j],
            forall|j: int|
                0 <= j < k ==> (#[trigger] ivs@[j]).name@ == iv_name(spec_split(o@, " ||| "@)[j])
                    && ivs@[j].id == iv_id(spec_split(o@, " ||| "@)[j]),
        decreases entries@.len() - k,
    {
        ivs.push(parse_intervention(&entries[k]));
        k = k + 1;
    }
    Some(ivs)
}

} // verus!
