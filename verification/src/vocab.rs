//! Vocabulary mapping: multi-pass linkage of free-text drug and
//! adverse-event terms to standardized vocabulary codes. Exact
//! space-padded substring matches are recorded and the matched fragment is
//! stripped from the source text, so that repeated passes can find further
//! concepts; remaining terms fall back to the two-tier distance scorer.

use vstd::prelude::*;
use crate::text::{
    chars_of, contains_chars, lemma_replace_absent, push_all, replace_chars, spec_contains,
    spec_replace,
};
use crate::dist::{damerau_dist, edit_distance, passes_fast_filter, spec_fast_filter};
use crate::ranker::{first_min_idx, lemma_first_min, select_first_min};
use crate::record::copy_chars;

verus! {

/// A standardized vocabulary term: canonical name and stable code.
pub struct VocabTerm {
    pub name: Vec<char>,
    pub code: i64,
}

/// One source row still to be mapped: row identifier and cleaned text.
pub struct SourceRow {
    pub id: i64,
    pub clean: Vec<char>,
}

/// The rows of one accepted strip operation: the matched vocabulary name
/// and the identifiers of every row it matched.
pub struct StripGroup {
    pub name: Vec<char>,
    pub ids: Vec<i64>,
}

/// View of a vocabulary term.
pub open spec fn vt_view(t: VocabTerm) -> (Seq<char>, i64) {
    (t.name@, t.code)
}

/// Views of a sequence of vocabulary terms.
pub open spec fn vt_views(s: Seq<VocabTerm>) -> Seq<(Seq<char>, i64)> {
    s.map_values(|t: VocabTerm| vt_view(t))
}

/// View of a source row.
pub open spec fn row_view(r: SourceRow) -> (i64, Seq<char>) {
    (r.id, r.clean@)
}

/// Views of a sequence of source rows.
pub open spec fn row_views(s: Seq<SourceRow>) -> Seq<(i64, Seq<char>)> {
    s.map_values(|r: SourceRow| row_view(r))
}

/// A vocabulary name padded with surrounding spaces, as it is searched for
/// inside a cleaned source text.
pub open spec fn padded(name: Seq<char>) -> Seq<char> {
    " "@ + name + " "@
}

/// The padded vocabulary name occurs in the row's text.
pub open spec fn row_matches(row: (i64, Seq<char>), name: Seq<char>) -> bool {
    spec_contains(row.1, padded(name))
}

/// The links one vocabulary term produces over the rows, in row order.
pub open spec fn term_links(
    term: (Seq<char>, i64),
    rows: Seq<(i64, Seq<char>)>,
) -> Seq<(i64, i64)>
    decreases rows.len(),
{
    if rows.len() == 0 {
        Seq::empty()
    } else {
        term_links(term, rows.drop_last()) + (if row_matches(rows.last(), term.0) {
            seq![(rows.last().0, term.1)]
        } else {
            Seq::<(i64, i64)>::empty()
        })
    }
}

/// The identifiers of the rows one vocabulary term matches, in row order.
pub open spec fn term_ids(term: (Seq<char>, i64), rows: Seq<(i64, Seq<char>)>) -> Seq<i64>
    decreases rows.len(),
{
    if rows.len() == 0 {
        Seq::empty()
    } else {
        term_ids(term, rows.drop_last()) + (if row_matches(rows.last(), term.0) {
            seq![rows.last().0]
        } else {
            Seq::<i64>::empty()
        })
    }
}

/// All links of one pass: every vocabulary term against every row,
/// vocabulary-major.
pub open spec fn vocab_links(
    vocab: Seq<(Seq<char>, i64)>,
    rows: Seq<(i64, Seq<char>)>,
) -> Seq<(i64, i64)>
    decreases vocab.len(),
{
    if vocab.len() == 0 {
        Seq::empty()
    } else {
        vocab_links(vocab.drop_last(), rows) + term_links(vocab.last(), rows)
    }
}

/// The strip operations of one pass: one per vocabulary term that matched
/// at least one row.
pub open spec fn strip_groups(
    vocab: Seq<(Seq<char>, i64)>,
    rows: Seq<(i64, Seq<char>)>,
) -> Seq<(Seq<char>, Seq<i64>)>
    decreases vocab.len(),
{
    if vocab.len() == 0 {
        Seq::empty()
    } else {
        strip_groups(vocab.drop_last(), rows) + (if term_ids(vocab.last(), rows).len() > 0 {
            seq![(vocab.last().0, term_ids(vocab.last(), rows))]
        } else {
            Seq::<(Seq<char>, Seq<i64>)>::empty()
        })
    }
}

/// The text of one row after a strip operation: the raw vocabulary name is
/// removed from every row the operation names.
pub open spec fn strip_clean(clean: Seq<char>, id: i64, name: Seq<char>, ids: Seq<i64>) -> Seq<
    char,
> {
    if ids.contains(id) {
        spec_replace(clean, name, ""@)
    } else {
        clean
    }
}

/// The row set after one strip operation.
pub open spec fn apply_strip(
    rows: Seq<(i64, Seq<char>)>,
    name: Seq<char>,
    ids: Seq<i64>,
) -> Seq<(i64, Seq<char>)> {
    rows.map_values(|r: (i64, Seq<char>)| (r.0, strip_clean(r.1, r.0, name, ids)))
}

/// The row set after a sequence of strip operations, applied in order.
pub open spec fn apply_strips(
    rows: Seq<(i64, Seq<char>)>,
    groups: Seq<(Seq<char>, Seq<i64>)>,
) -> Seq<(i64, Seq<char>)>
    decreases groups.len(),
{
    if groups.len() == 0 {
        rows
    } else {
        apply_strips(apply_strip(rows, groups[0].0, groups[0].1), groups.skip(1))
    }
}

/// Search one vocabulary term in every row: the produced links and the
/// matched row identifiers.
#[verifier::loop_isolation(false)]
pub fn term_match(term: &VocabTerm, rows: &Vec<SourceRow>) -> (r: (Vec<(i64, i64)>, Vec<i64>))
    ensures
        r.0@ == term_links(vt_view(*term), row_views(rows@)),
        r.1@ == term_ids(vt_view(*term), row_views(rows@)),
{
    let mut pad: Vec<char> = Vec::new();
    pad.push(' ');
    push_all(&mut pad, &term.name);
    pad.push(' ');
    proof {
        reveal_strlit(" ");
        assert(pad@ =~= padded(term.name@));
    }
    let mut links: Vec<(i64, i64)> = Vec::new();
    let mut ids: Vec<i64> = Vec::new();
    let mut j: usize = 0;
    proof {
        assert(row_views(rows@.subrange(0, 0)) =~= Seq::<(i64, Seq<char>)>::empty());
    }
    while j < rows.len()
        invariant
            j <= rows@.len(),
            pad@ == padded(term.name@),
            links@ == term_links(vt_view(*term), row_views(rows@.subrange(0, j as int))),
            ids@ == term_ids(vt_view(*term), row_views(rows@.subrange(0, j as int))),
        decreases rows@.len() - j,
    {
        let ghost pre = row_views(rows@.subrange(0, j as int));
        let ghost pre1 = row_views(rows@.subrange(0, j + 1));
        proof {
            assert(rows@.subrange(0, j + 1).drop_last() =~= rows@.subrange(0, j as int));
            assert(pre1.drop_last() =~= pre);
            assert(pre1.last() == row_view(rows@[j as int]));
        }
        let row = &rows[j];
        if contains_chars(&row.clean, &pad) {
            links.push((row.id, term.code));
            ids.push(row.id);
            proof {
                assert(links@ =~= term_links(vt_view(*term), pre1));
                assert(ids@ =~= term_ids(vt_view(*term), pre1));
            }
        } else {
            proof {
                assert(links@ =~= term_links(vt_view(*term), pre1));
                assert(ids@ =~= term_ids(vt_view(*term), pre1));
            }
        }
        j = j + 1;
    }
    proof {
        assert(rows@.subrange(0, rows@.len() as int) =~= rows@);
    }
    (links, ids)
}

/// One exact-match pass: every vocabulary term against every row. Returns
/// the accepted links and the strip operations the pass produces.
#[verifier::rlimit(30)]
#[verifier::loop_isolation(false)]
pub fn match_vocab(vocab: &Vec<VocabTerm>, rows: &Vec<SourceRow>) -> (r: (
    Vec<(i64, i64)>,
    Vec<StripGroup>,
))
    ensures
        r.0@ == vocab_links(vt_views(vocab@), row_views(rows@)),
        r.1@.len() == strip_groups(vt_views(vocab@), row_views(rows@)).len(),
        forall|k: int|
            0 <= k < r.1@.len() ==> (#[trigger] r.1@[k]).name@ == strip_groups(
                vt_views(vocab@),
                row_views(rows@),
            )[k].0 && r.1@[k].ids@ == strip_groups(vt_views(vocab@), row_views(rows@))[k].1,
{
    let mut links: Vec<(i64, i64)> = Vec::new();
    let mut strips: Vec<StripGroup> = Vec::new();
    let mut t: usize = 0;
    proof {
        assert(vt_views(vocab@.subrange(0, 0)) =~= Seq::<(Seq<char>, i64)>::empty());
    }
    while t < vocab.len()
        invariant
            t <= vocab@.len(),
            links@ == vocab_links(vt_views(vocab@.subrange(0, t as int)), row_views(rows@)),
            strips@.len() == strip_groups(
                vt_views(vocab@.subrange(0, t as int)),
                row_views(rows@),
            ).len(),
            forall|k: int|
                0 <= k < strips@.len() ==> (#[trigger] strips@[k]).name@ == strip_groups(
                    vt_views(vocab@.subrange(0, t as int)),
                    row_views(rows@),
                )[k].0 && strips@[k].ids@ == strip_groups(
                    vt_views(vocab@.subrange(0, t as int)),
                    row_views(rows@),
                )[k].1,
        decreases vocab@.len() - t,
    {
        let ghost pre = vt_views(vocab@.subrange(0, t as int));
        let ghost pre1 = vt_views(vocab@.subrange(0, t + 1));
        proof {
            assert(vocab@.subrange(0, t + 1).drop_last() =~= vocab@.subrange(0, t as int));
            assert(pre1.drop_last() =~= pre);
            assert(pre1.last() == vt_view(vocab@[t as int]));
        }
        let term = &vocab[t];
        let (mut ls, ids) = term_match(term, rows);
        links.append(&mut ls);
        proof {
            assert(links@ =~= vocab_links(pre1, row_views(rows@)));
        }
        if ids.len() > 0 {
            strips.push(StripGroup { name: copy_chars(&term.name), ids });
            proof {
                assert(strip_groups(pre1, row_views(rows@)) =~= strip_groups(
                    pre,
                    row_views(rows@),
                ) + seq![
                    (
                        vocab@[t as int].name@,
                        term_ids(vt_view(vocab@[t as int]), row_views(rows@)),
                    ),
                ]);
            }
        } else {
            proof {
                assert(strip_groups(pre1, row_views(rows@)) =~= strip_groups(
                    pre,
                    row_views(rows@),
                ));
            }
        }
        t = t + 1;
    }
    proof {
        assert(vocab@.subrange(0, vocab@.len() as int) =~= vocab@);
    }
    (links, strips)
}

/// Apply one strip operation to the row set.
#[verifier::rlimit(30)]
#[verifier::loop_isolation(false)]
pub fn apply_strip_exec(rows: Vec<SourceRow>, name: &Vec<char>, ids: &Vec<i64>) -> (r: Vec<
    SourceRow,
>)
    ensures
        row_views(r@) == apply_strip(row_views(rows@), name@, ids@),
{
    let ghost orig = rows@;
    let empty = chars_of("");
    let mut rest = rows;
    let mut out: Vec<SourceRow> = Vec::new();
    proof {
        assert(rest@ == orig.subrange(0, orig.len() as int));
    }
    while rest.len() > 0
        invariant
            rest@.len() <= orig.len(),
            empty@ == ""@,
            rest@ == orig.subrange(orig.len() - rest@.len(), orig.len() as int),
            out@.len() == orig.len() - rest@.len(),
            forall|k: int|
                0 <= k < out@.len() ==> row_view(#[trigger] out@[k]) == (
                    row_view(orig[k]).0,
                    strip_clean(row_view(orig[k]).1, row_view(orig[k]).0, name@, ids@),
                ),
        decreases rest@.len(),
    {
        let ghost done = orig.len() - rest@.len();
        let row = rest.remove(0);
        proof {
            assert(row == orig[done]);
            assert(rest@ =~= orig.subrange(orig.len() - rest@.len(), orig.len() as int));
        }
        let mut hit = false;
        let mut k: usize = 0;
        proof {
            assert(ids@.subrange(0, 0) =~= Seq::<i64>::empty());
        }
        while k < ids.len()
            invariant
                k <= ids@.len(),
                hit == ids@.subrange(0, k as int).contains(row.id),
            decreases ids@.len() - k,
        {
            let ghost ipre = ids@.subrange(0, k as int);
            let ghost ipre1 = ids@.subrange(0, k + 1);
            if ids[k] == row.id {
                hit = true;
                proof {
                    assert(ipre1[k as int] == row.id);
                }
            } else {
                proof {
                    assert(ipre1.drop_last() =~= ipre);
                    assert(ipre1.contains(row.id) == ipre.contains(row.id)) by {
                        if ipre1.contains(row.id) {
                            let x = choose|x: int| 0 <= x < ipre1.len() && ipre1[x] == row.id;
                            if x < ipre.len() {
                                assert(ipre[x] == row.id);
                            }
                        }
                        if ipre.contains(row.id) {
                            let x = choose|x: int| 0 <= x < ipre.len() && ipre[x] == row.id;
                            assert(ipre1[x] == row.id);
                        }
                    }
                }
            }
            k = k + 1;
        }
        proof {
            assert(ids@.subrange(0, ids@.len() as int) =~= ids@);
        }
        let new_row = if hit {
            SourceRow { id: row.id, clean: replace_chars(&row.clean, name, &empty) }
        } else {
            row
        };
        out.push(new_row);
    }
    proof {
        assert(orig.subrange(0, orig.len() as int) =~= orig);
        let lhs = row_views(out@);
        let rhs = apply_strip(row_views(orig), name@, ids@);
        assert(forall|k: int| 0 <= k < lhs.len() ==> lhs[k] == row_view(#[trigger] out@[k]));
        assert(forall|k: int|
            0 <= k < rhs.len() ==> rhs[k] == (
                row_view(orig[k]).0,
                strip_clean(row_view(orig[k]).1, row_view(orig[k]).0, name@, ids@),
            ));
        assert(lhs =~= rhs);
    }
    out
}

/// A term records exactly as many links as matched row identifiers.
proof fn lemma_term_counts(term: (Seq<char>, i64), rows: Seq<(i64, Seq<char>)>)
    ensures
        term_links(term, rows).len() == term_ids(term, rows).len(),
    decreases rows.len(),
{
    if rows.len() > 0 {
        lemma_term_counts(term, rows.drop_last());
    }
}

/// Convergence of the multi-pass loop: if one exact-match pass yields no
/// links, it yields no strip operations, the row set it leaves is exactly
/// the row set it found, and a repeated pass over that row set yields no
/// links again.
pub proof fn lemma_pass_converged(vocab: Seq<(Seq<char>, i64)>, rows: Seq<(i64, Seq<char>)>)
    requires
        vocab_links(vocab, rows).len() == 0,
    ensures
        strip_groups(vocab, rows).len() == 0,
        apply_strips(rows, strip_groups(vocab, rows)) == rows,
        vocab_links(vocab, apply_strips(rows, strip_groups(vocab, rows))).len() == 0,
    decreases vocab.len(),
{
    if vocab.len() > 0 {
        lemma_term_counts(vocab.last(), rows);
        lemma_pass_converged(vocab.drop_last(), rows);
    }
}

/// The row set after one term of the sequential pass: where the term
/// matched, its fragment is stripped before the next term runs.
pub open spec fn seq_step_rows(
    term: (Seq<char>, i64),
    rows: Seq<(i64, Seq<char>)>,
) -> Seq<(i64, Seq<char>)> {
    if term_ids(term, rows).len() > 0 {
        apply_strip(rows, term.0, term_ids(term, rows))
    } else {
        rows
    }
}

/// The links of a sequential pass: each vocabulary term is matched against
/// the rows as the preceding terms left them.
pub open spec fn seq_pass_links(
    vocab: Seq<(Seq<char>, i64)>,
    rows: Seq<(i64, Seq<char>)>,
) -> Seq<(i64, i64)>
    decreases vocab.len(),
{
    if vocab.len() == 0 {
        Seq::empty()
    } else {
        term_links(vocab[0], rows) + seq_pass_links(vocab.skip(1), seq_step_rows(vocab[0], rows))
    }
}

/// The row set a sequential pass leaves.
pub open spec fn seq_pass_rows(
    vocab: Seq<(Seq<char>, i64)>,
    rows: Seq<(i64, Seq<char>)>,
) -> Seq<(i64, Seq<char>)>
    decreases vocab.len(),
{
    if vocab.len() == 0 {
        rows
    } else {
        seq_pass_rows(vocab.skip(1), seq_step_rows(vocab[0], rows))
    }
}

/// One sequential pass over the whole vocabulary: each term is matched
/// against the current rows, every accepted match is recorded, and the
/// matched fragment is stripped before the next term, so that one text can
/// yield several distinct concepts.
#[verifier::rlimit(30)]
#[verifier::loop_isolation(false)]
pub fn map_terms(vocab: &Vec<VocabTerm>, rows: Vec<SourceRow>) -> (r: (
    Vec<(i64, i64)>,
    Vec<SourceRow>,
))
    ensures
        r.0@ == seq_pass_links(vt_views(vocab@), row_views(rows@)),
        row_views(r.1@) == seq_pass_rows(vt_views(vocab@), row_views(rows@)),
{
    let ghost vocab0 = vt_views(vocab@);
    let ghost rows0 = row_views(rows@);
    let mut links: Vec<(i64, i64)> = Vec::new();
    let mut cur = rows;
    let mut t: usize = 0;
    proof {
        assert(vocab0.skip(0) =~= vocab0);
        assert(links@ + seq_pass_links(vocab0, rows0) =~= seq_pass_links(vocab0, rows0));
    }
    while t < vocab.len()
        invariant
            t <= vocab@.len(),
            vocab0 == vt_views(vocab@),
            links@ + seq_pass_links(vocab0.skip(t as int), row_views(cur@)) == seq_pass_links(
                vocab0,
                rows0,
            ),
            seq_pass_rows(vocab0.skip(t as int), row_views(cur@)) == seq_pass_rows(vocab0, rows0),
        decreases vocab@.len() - t,
    {
        let ghost suffix = vocab0.skip(t as int);
        proof {
            assert(suffix[0] == vt_view(vocab@[t as int]));
            assert(suffix.skip(1) =~= vocab0.skip(t + 1));
        }
        let term = &vocab[t];
        let (mut ls, ids) = term_match(term, &cur);
        let ghost lbefore = links@;
        let ghost ladd = ls@;
        links.append(&mut ls);
        if ids.len() > 0 {
            cur = apply_strip_exec(cur, &term.name, &ids);
        }
        proof {
            assert(lbefore + (ladd + seq_pass_links(vocab0.skip(t + 1), row_views(cur@))) =~= (
            lbefore + ladd) + seq_pass_links(vocab0.skip(t + 1), row_views(cur@)));
            assert(links@ + seq_pass_links(vocab0.skip(t + 1), row_views(cur@)) == seq_pass_links(
                vocab0,
                rows0,
            ));
        }
        t = t + 1;
    }
    proof {
        assert(vocab0.skip(vocab0.len() as int) =~= Seq::<(Seq<char>, i64)>::empty());
        assert(links@ + Seq::<(i64, i64)>::empty() =~= links@);
    }
    (links, cur)
}

/// The adverse-event term cleanup before vocabulary comparison: strip the
/// filler tokens and collapse doubled spaces.
pub open spec fn clean_ae(t: Seq<char>) -> Seq<char> {
    spec_replace(
        spec_replace(
            spec_replace(spec_replace(spec_replace(t, "other"@, ""@), " nos"@, ""@), " any"@, ""@),
            "specify"@,
            ""@,
        ),
        "  "@,
        " "@,
    )
}

/// Clean an adverse-event term.
pub fn clean_ae_exec(t: &Vec<char>) -> (r: Vec<char>)
    ensures
        r@ == clean_ae(t@),
{
    let empty = chars_of("");
    let space = chars_of(" ");
    let p1 = chars_of("other");
    let p2 = chars_of(" nos");
    let p3 = chars_of(" any");
    let p4 = chars_of("specify");
    let p5 = chars_of("  ");
    let s1 = replace_chars(t, &p1, &empty);
    let s2 = replace_chars(&s1, &p2, &empty);
    let s3 = replace_chars(&s2, &p3, &empty);
    let s4 = replace_chars(&s3, &p4, &empty);
    replace_chars(&s4, &p5, &space)
}

/// Cleanup is idempotent once its result is free of the cleaned tokens.
/// (Stripping can re-expose a token, so the unconditional statement does
/// not hold.)
pub proof fn lemma_clean_ae_idempotent(t: Seq<char>)
    requires
        !spec_contains(clean_ae(t), "other"@),
        !spec_contains(clean_ae(t), " nos"@),
        !spec_contains(clean_ae(t), " any"@),
        !spec_contains(clean_ae(t), "specify"@),
        !spec_contains(clean_ae(t), "  "@),
    ensures
        clean_ae(clean_ae(t)) == clean_ae(t),
{
    let u = clean_ae(t);
    lemma_replace_absent(u, "other"@, ""@);
    lemma_replace_absent(u, " nos"@, ""@);
    lemma_replace_absent(u, " any"@, ""@);
    lemma_replace_absent(u, "specify"@, ""@);
    lemma_replace_absent(u, "  "@, " "@);
}

/// The distance candidates of one cleaned reported term against the
/// standardized terms: pairs passing the cheap pre-filter whose precise
/// edit distance is below `precision * 5`.
pub open spec fn ae_cands(term: Seq<char>, pts: Seq<(Seq<char>, i64)>, precision: u32) -> Seq<
    (usize, usize),
>
    decreases pts.len(),
{
    if pts.len() == 0 {
        Seq::empty()
    } else {
        ae_cands(term, pts.drop_last(), precision) + (if spec_fast_filter(
            term,
            pts.last().0,
            precision,
        ) && damerau_dist(term, pts.last().0) < 5 * precision {
            seq![((damerau_dist(term, pts.last().0) as usize), (pts.len() - 1) as usize)]
        } else {
            Seq::<(usize, usize)>::empty()
        })
    }
}

/// The standardized term one reported term maps to: the first candidate at
/// the minimal distance, or none.
pub open spec fn ae_match(term: Seq<char>, pts: Seq<(Seq<char>, i64)>, precision: u32) -> Option<
    int,
> {
    let c = ae_cands(clean_ae(term), pts, precision);
    if c.len() > 0 {
        Some(c[first_min_idx(c)].1 as int)
    } else {
        None
    }
}

/// One accepted mapping of a reported term to a standardized term.
pub struct MappedTerm {
    pub original: Vec<char>,
    pub standard: Vec<char>,
    pub pt_code: i64,
}

/// The accepted mappings of a sequence of reported terms, in order.
pub open spec fn reported_matches(
    terms: Seq<Seq<char>>,
    pts: Seq<(Seq<char>, i64)>,
    precision: u32,
) -> Seq<(Seq<char>, Seq<char>, i64)>
    decreases terms.len(),
{
    if terms.len() == 0 {
        Seq::empty()
    } else {
        reported_matches(terms.drop_last(), pts, precision) + (match ae_match(
            terms.last(),
            pts,
            precision,
        ) {
            Some(w) => seq![(terms.last(), pts[w].0, pts[w].1)],
            None => Seq::<(Seq<char>, Seq<char>, i64)>::empty(),
        })
    }
}

/// Views of a sequence of character vectors.
pub open spec fn term_views(s: Seq<Vec<char>>) -> Seq<Seq<char>> {
    s.map_values(|v: Vec<char>| v@)
}

/// Map reported adverse-event terms to standardized terms by cleaned
/// two-tier distance comparison. The accepted candidate for each term is
/// the first one at the minimal distance; a term with no candidate below
/// the thresholds stays unmapped.
#[verifier::rlimit(30)]
#[verifier::loop_isolation(false)]
pub fn map_reported_terms(terms: &Vec<Vec<char>>, pts: &Vec<VocabTerm>, precision: u32) -> (r: Vec<
    MappedTerm,
>)
    requires
        forall|i: int| 0 <= i < terms@.len() ==> (#[trigger] terms@[i])@.len() <= 0x10000000,
        forall|i: int| 0 <= i < pts@.len() ==> (#[trigger] pts@[i]).name@.len() <= 0x10000000,
    ensures
        r@.len() == reported_matches(term_views(terms@), vt_views(pts@), precision).len(),
        forall|k: int|
            0 <= k < r@.len() ==> (#[trigger] r@[k]).original@ == reported_matches(
                term_views(terms@),
                vt_views(pts@),
                precision,
            )[k].0 && r@[k].standard@ == reported_matches(
                term_views(terms@),
                vt_views(pts@),
                precision,
            )[k].1 && r@[k].pt_code == reported_matches(
                term_views(terms@),
                vt_views(pts@),
                precision,
            )[k].2,
{
    let mut out: Vec<MappedTerm> = Vec::new();
    let mut i: usize = 0;
    proof {
        assert(term_views(terms@.subrange(0, 0)) =~= Seq::<Seq<char>>::empty());
    }
    while i < terms.len()
        invariant
            i <= terms@.len(),
            out@.len() == reported_matches(
                term_views(terms@.subrange(0, i as int)),
                vt_views(pts@),
                precision,
            ).len(),
            forall|k: int|
                0 <= k < out@.len() ==> (#[trigger] out@[k]).original@ == reported_matches(
                    term_views(terms@.subrange(0, i as int)),
                    vt_views(pts@),
                    precision,
                )[k].0 && out@[k].standard@ == reported_matches(
                    term_views(terms@.subrange(0, i as int)),
                    vt_views(pts@),
                    precision,
                )[k].1 && out@[k].pt_code == reported_matches(
                    term_views(terms@.subrange(0, i as int)),
                    vt_views(pts@),
                    precision,
                )[k].2,
        decreases terms@.len() - i,
    {
        let ghost pre = term_views(terms@.subrange(0, i as int));
        let ghost pre1 = term_views(terms@.subrange(0, i + 1));
        proof {
            assert(terms@.subrange(0, i + 1).drop_last() =~= terms@.subrange(0, i as int));
            assert(pre1.drop_last() =~= pre);
            assert(pre1.last() == terms@[i as int]@);
        }
        let term = &terms[i];
        let cleaned = clean_ae_exec(term);
        let mut cands: Vec<(usize, usize)> = Vec::new();
        let mut p: usize = 0;
        proof {
            assert(vt_views(pts@.subrange(0, 0)) =~= Seq::<(Seq<char>, i64)>::empty());
            lemma_clean_len(term@);
        }
        while p < pts.len()
            invariant
                p <= pts@.len(),
                cleaned@ == clean_ae(terms@[i as int]@),
                cleaned@.len() <= terms@[i as int]@.len(),
                i < terms@.len(),
                cands@ == ae_cands(cleaned@, vt_views(pts@.subrange(0, p as int)), precision),
                forall|k: int| 0 <= k < cands@.len() ==> (#[trigger] cands@[k]).1 < p,
            decreases pts@.len() - p,
        {
            let ghost ppre = vt_views(pts@.subrange(0, p as int));
            let ghost ppre1 = vt_views(pts@.subrange(0, p + 1));
            proof {
                assert(pts@.subrange(0, p + 1).drop_last() =~= pts@.subrange(0, p as int));
                assert(ppre1.drop_last() =~= ppre);
                assert(ppre1.last() == vt_view(pts@[p as int]));
            }
            let pt = &pts[p];
            if passes_fast_filter(&cleaned, &pt.name, precision) {
                let dist = edit_distance(&cleaned, &pt.name);
                let cutoff = (precision as u64) * 5;
                if (dist as u64) < cutoff {
                    cands.push((dist, p));
                    proof {
                        assert(cands@ =~= ae_cands(cleaned@, ppre1, precision));
                    }
                } else {
                    proof {
                        assert(cands@ =~= ae_cands(cleaned@, ppre1, precision));
                    }
                }
            } else {
                proof {
                    assert(cands@ =~= ae_cands(cleaned@, ppre1, precision));
                }
            }
            p = p + 1;
        }
        proof {
            assert(pts@.subrange(0, pts@.len() as int) =~= pts@);
        }
        match select_first_min(&cands) {
            Some(best) => {
                proof {
                    lemma_first_min(cands@);
                }
                let pt = &pts[best.1];
                out.push(
                    MappedTerm {
                        original: copy_chars(term),
                        standard: copy_chars(&pt.name),
                        pt_code: pt.code,
                    },
                );
                proof {
                    assert(reported_matches(pre1, vt_views(pts@), precision) =~= reported_matches(
                        pre,
                        vt_views(pts@),
                        precision,
                    ) + seq![
                        (terms@[i as int]@, pts@[best.1 as int].name@, pts@[best.1 as int].code),
                    ]);
                }
            },
            None => {
                proof {
                    assert(reported_matches(pre1, vt_views(pts@), precision) =~= reported_matches(
                        pre,
                        vt_views(pts@),
                        precision,
                    ));
                }
            },
        }
        i = i + 1;
    }
    proof {
        assert(terms@.subrange(0, terms@.len() as int) =~= terms@);
    }
    out
}

/// Cleaning never lengthens a term.
proof fn lemma_clean_len(t: Seq<char>)
    ensures
        clean_ae(t).len() <= t.len(),
{
    reveal_strlit("");
    reveal_strlit(" ");
    reveal_strlit("  ");
    reveal_strlit("other");
    reveal_strlit(" nos");
    reveal_strlit(" any");
    reveal_strlit("specify");
    let s1 = spec_replace(t, "other"@, ""@);
    let s2 = spec_replace(s1, " nos"@, ""@);
    let s3 = spec_replace(s2, " any"@, ""@);
    let s4 = spec_replace(s3, "specify"@, ""@);
    lemma_replace_shrinks(t, "other"@, ""@);
    lemma_replace_shrinks(s1, " nos"@, ""@);
    lemma_replace_shrinks(s2, " any"@, ""@);
    lemma_replace_shrinks(s3, "specify"@, ""@);
    lemma_replace_shrinks(s4, "  "@, " "@);
}

/// Replacement by a pattern no longer than the one removed never lengthens
/// the text.
proof fn lemma_replace_shrinks(s: Seq<char>, pat: Seq<char>, rep: Seq<char>)
    requires
        rep.len() <= pat.len(),
    ensures
        spec_replace(s, pat, rep).len() <= s.len(),
    decreases s.len(),
{
    if pat.len() == 0 || s.len() < pat.len() {
    } else if s.subrange(0, pat.len() as int) == pat {
        lemma_replace_shrinks(s.skip(pat.len() as int), pat, rep);
    } else {
        lemma_replace_shrinks(s.skip(1), pat, rep);
    }
}

/// The vocabulary tiers of the drug-name passes, most precise first: the
/// tier code as the query layer uses it, and its human-readable label.
pub fn get_ttys() -> (r: Vec<(Vec<char>, Vec<char>)>)
    ensures
        r@.len() == 3,
        r@[0].0@ == "PIN"@ && r@[0].1@ == "Precise Ingredients"@,
        r@[1].0@ == "IN"@ && r@[1].1@ == "Ingredients"@,
        r@[2].0@ == "BN"@ && r@[2].1@ == "Brand Names"@,
{
    let mut r: Vec<(Vec<char>, Vec<char>)> = Vec::new();
    r.push((chars_of("PIN"), chars_of("Precise Ingredients")));
    r.push((chars_of("IN"), chars_of("Ingredients")));
    r.push((chars_of("BN"), chars_of("Brand Names")));
    r
}

} // verus!