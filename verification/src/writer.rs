//! Bulk-statement rendering: accepted links and mappings are accumulated
//! into the value lists of bulk insert statements, and strip operations
//! into bulk text-substitution statements. An emitted value list never
//! carries a trailing separator, and an empty accumulator emits nothing.

use vstd::prelude::*;
use crate::text::{chars_of, push_all, replace_chars, spec_replace};
use crate::vocab::{MappedTerm, StripGroup};

verus! {

/// The character of one decimal digit.
pub open spec fn digit_char(d: int) -> char {
    if d == 0 {
        '0'
    } else if d == 1 {
        '1'
    } else if d == 2 {
        '2'
    } else if d == 3 {
        '3'
    } else if d == 4 {
        '4'
    } else if d == 5 {
        '5'
    } else if d == 6 {
        '6'
    } else if d == 7 {
        '7'
    } else if d == 8 {
        '8'
    } else {
        '9'
    }
}

/// The decimal digits of a non-negative number.
pub open spec fn dec_str(n: int) -> Seq<char>
    decreases n
        when n >= 0
{
    if n < 10 {
        seq![digit_char(n)]
    } else {
        dec_str(n / 10) + seq![digit_char(n % 10)]
    }
}

/// The decimal rendering of a signed number.
pub open spec fn int_str(n: int) -> Seq<char> {
    if n < 0 {
        seq!['-'] + dec_str(-n)
    } else {
        dec_str(n)
    }
}

fn digit_char_exec(d: u64) -> (r: char)
    requires
        d < 10,
    ensures
        r == digit_char(d as int),
{
    if d == 0 {
        '0'
    } else if d == 1 {
        '1'
    } else if d == 2 {
        '2'
    } else if d == 3 {
        '3'
    } else if d == 4 {
        '4'
    } else if d == 5 {
        '5'
    } else if d == 6 {
        '6'
    } else if d == 7 {
        '7'
    } else if d == 8 {
        '8'
    } else {
        '9'
    }
}

/// Append the decimal digits of a non-negative number.
pub fn push_dec(out: &mut Vec<char>, m: u64)
    ensures
        final(out)@ == old(out)@ + dec_str(m as int),
    decreases m,
{
    if m < 10 {
        out.push(digit_char_exec(m));
        proof {
            assert(out@ =~= old(out)@ + dec_str(m as int));
        }
    } else {
        push_dec(out, m / 10);
        out.push(digit_char_exec(m % 10));
        proof {
            assert(out@ =~= old(out)@ + dec_str(m as int));
        }
    }
}

/// Append the decimal rendering of a signed number.
fn push_int(out: &mut Vec<char>, n: i64)
    ensures
        final(out)@ == old(out)@ + int_str(n as int),
{
    if n < 0 {
        out.push('-');
        let m: u64 = (-(n as i128)) as u64;
        push_dec(out, m);
        proof {
            assert(out@ =~= old(out)@ + int_str(n as int));
        }
    } else {
        push_dec(out, n as u64);
    }
}

/// Render a signed number in decimal.
pub fn fmt_i64(n: i64) -> (r: Vec<char>)
    ensures
        r@ == int_str(n as int),
{
    let mut out: Vec<char> = Vec::new();
    push_int(&mut out, n);
    proof {
        assert(Seq::<char>::empty() + int_str(n as int) =~= int_str(n as int));
    }
    out
}

/// One `(a,b)` value row.
pub open spec fn pair_row(p: (i64, i64)) -> Seq<char> {
    seq!['('] + int_str(p.0 as int) + seq![','] + int_str(p.1 as int) + seq![')']
}

/// The comma-joined value rows of a pair list.
pub open spec fn pair_rows(ps: Seq<(i64, i64)>) -> Seq<char>
    decreases ps.len(),
{
    if ps.len() == 0 {
        Seq::empty()
    } else if ps.len() == 1 {
        pair_row(ps[0])
    } else {
        pair_rows(ps.drop_last()) + seq![','] + pair_row(ps.last())
    }
}

/// Append one `(a,b)` value row.
fn push_pair(out: &mut Vec<char>, p: (i64, i64))
    ensures
        final(out)@ == old(out)@ + pair_row(p),
{
    out.push('(');
    push_int(out, p.0);
    out.push(',');
    push_int(out, p.1);
    out.push(')');
    proof {
        assert(out@ =~= old(out)@ + pair_row(p));
    }
}

/// A non-empty pair list renders to a value list ending in a closing
/// parenthesis: never in a separator.
pub proof fn lemma_pair_rows_last(ps: Seq<(i64, i64)>)
    requires
        ps.len() > 0,
    ensures
        pair_rows(ps).len() > 0,
        pair_rows(ps).last() == ')',
    decreases ps.len(),
{
    if ps.len() > 1 {
        lemma_pair_rows_last(ps.drop_last());
    }
}

/// Render the value list of a bulk insert of pairs. An empty accumulator
/// renders to nothing; a non-empty one never carries a trailing separator.
#[verifier::loop_isolation(false)]
pub fn values_clause(pairs: &Vec<(i64, i64)>) -> (r: Option<Vec<char>>)
    ensures
        r is None <==> pairs@.len() == 0,
        r matches Some(v) ==> v@ == pair_rows(pairs@) && v@.len() > 0 && v@.last() == ')',
{
    if pairs.len() == 0 {
        return None;
    }
    let mut out: Vec<char> = Vec::new();
    let mut i: usize = 0;
    while i < pairs.len()
        invariant
            i <= pairs@.len(),
            out@ == pair_rows(pairs@.subrange(0, i as int)),
        decreases pairs@.len() - i,
    {
        let ghost pre = pairs@.subrange(0, i as int);
        let ghost pre1 = pairs@.subrange(0, i + 1);
        proof {
            assert(pre1.drop_last() =~= pre);
            assert(pre1.last() == pairs@[i as int]);
        }
        if i > 0 {
            out.push(',');
        }
        push_pair(&mut out, pairs[i]);
        proof {
            if i == 0 {
                assert(pre1.len() == 1);
                assert(pre1[0] == pairs@[i as int]);
                assert(out@ =~= pair_rows(pre1));
            } else {
                assert(out@ =~= pair_rows(pre1));
            }
        }
        i = i + 1;
    }
    proof {
        assert(pairs@.subrange(0, pairs@.len() as int) =~= pairs@);
        lemma_pair_rows_last(pairs@);
    }
    Some(out)
}

/// Single quotes doubled, as a value is escaped before interpolation into a
/// persistence statement.
pub open spec fn escaped(t: Seq<char>) -> Seq<char> {
    spec_replace(t, "'"@, "''"@)
}

/// Escape embedded single quotes by doubling them.
pub fn escape_quotes(t: &Vec<char>) -> (r: Vec<char>)
    ensures
        r@ == escaped(t@),
{
    let q = chars_of("'");
    let qq = chars_of("''");
    replace_chars(t, &q, &qq)
}

/// One `('original', 'standard', code)` value row, with quotes escaped.
pub open spec fn meddra_row(m: (Seq<char>, Seq<char>, i64)) -> Seq<char> {
    seq!['(', '\''] + escaped(m.0) + seq!['\'', ',', ' ', '\''] + escaped(m.1) + seq![
        '\'',
        ',',
        ' ',
    ] + int_str(m.2 as int) + seq![')']
}

/// The view of one accepted mapping.
pub open spec fn mt_view(m: MappedTerm) -> (Seq<char>, Seq<char>, i64) {
    (m.original@, m.standard@, m.pt_code)
}

/// The comma-joined value rows of the accepted mappings.
pub open spec fn meddra_rows(ms: Seq<(Seq<char>, Seq<char>, i64)>) -> Seq<char>
    decreases ms.len(),
{
    if ms.len() == 0 {
        Seq::empty()
    } else if ms.len() == 1 {
        meddra_row(ms[0])
    } else {
        meddra_rows(ms.drop_last()) + seq![','] + meddra_row(ms.last())
    }
}

/// Views of a sequence of accepted mappings.
pub open spec fn mt_views(s: Seq<MappedTerm>) -> Seq<(Seq<char>, Seq<char>, i64)> {
    s.map_values(|m: MappedTerm| mt_view(m))
}

/// A non-empty mapping list renders to a value list ending in a closing
/// parenthesis.
pub proof fn lemma_meddra_rows_last(ms: Seq<(Seq<char>, Seq<char>, i64)>)
    requires
        ms.len() > 0,
    ensures
        meddra_rows(ms).len() > 0,
        meddra_rows(ms).last() == ')',
    decreases ms.len(),
{
    if ms.len() > 1 {
        lemma_meddra_rows_last(ms.drop_last());
    }
}

/// Append one mapping value row.
fn push_meddra_row(out: &mut Vec<char>, m: &MappedTerm)
    ensures
        final(out)@ == old(out)@ + meddra_row(mt_view(*m)),
{
    out.push('(');
    out.push('\'');
    let orig = escape_quotes(&m.original);
    push_all(out, &orig);
    out.push('\'');
    out.push(',');
    out.push(' ');
    out.push('\'');
    let std_esc = escape_quotes(&m.standard);
    push_all(out, &std_esc);
    out.push('\'');
    out.push(',');
    out.push(' ');
    push_int(out, m.pt_code);
    out.push(')');
    proof {
        assert(out@ =~= old(out)@ + meddra_row(mt_view(*m)));
    }
}

/// Render the value list of the bulk insert of accepted mappings, with
/// quotes escaped; empty accumulators render to nothing and a non-empty
/// list never carries a trailing separator.
#[verifier::loop_isolation(false)]
pub fn meddra_values(rows: &Vec<MappedTerm>) -> (r: Option<Vec<char>>)
    ensures
        r is None <==> rows@.len() == 0,
        r matches Some(v) ==> v@ == meddra_rows(mt_views(rows@)) && v@.len() > 0 && v@.last()
            == ')',
{
    if rows.len() == 0 {
        return None;
    }
    let mut out: Vec<char> = Vec::new();
    let mut i: usize = 0;
    while i < rows.len()
        invariant
            i <= rows@.len(),
            out@ == meddra_rows(mt_views(rows@.subrange(0, i as int))),
        decreases rows@.len() - i,
    {
        let ghost pre = mt_views(rows@.subrange(0, i as int));
        let ghost pre1 = mt_views(rows@.subrange(0, i + 1));
        proof {
            assert(rows@.subrange(0, i + 1).drop_last() =~= rows@.subrange(0, i as int));
            assert(pre1.drop_last() =~= pre);
            assert(pre1.last() == mt_view(rows@[i as int]));
        }
        if i > 0 {
            out.push(',');
        }
        push_meddra_row(&mut out, &rows[i]);
        proof {
            if i == 0 {
                assert(pre1.len() == 1);
                assert(pre1[0] == mt_view(rows@[i as int]));
                assert(out@ =~= meddra_rows(pre1));
            } else {
                assert(out@ =~= meddra_rows(pre1));
            }
        }
        i = i + 1;
    }
    proof {
        assert(rows@.subrange(0, rows@.len() as int) =~= rows@);
        lemma_meddra_rows_last(mt_views(rows@));
    }
    Some(out)
}

/// The comma-joined identifiers of a strip operation.
pub open spec fn ids_joined(ids: Seq<i64>) -> Seq<char>
    decreases ids.len(),
{
    if ids.len() == 0 {
        Seq::empty()
    } else if ids.len() == 1 {
        int_str(ids[0] as int)
    } else {
        ids_joined(ids.drop_last()) + seq![','] + int_str(ids.last() as int)
    }
}

/// One bulk text-substitution statement: remove the matched (escaped) name
/// from the text column of every row the operation names.
pub open spec fn strip_stmt(prefix: Seq<char>, mid: Seq<char>, name: Seq<char>, ids: Seq<i64>) -> Seq<
    char,
> {
    prefix + escaped(name) + mid + ids_joined(ids) + ");"@
}

/// Append the comma-joined identifiers.
#[verifier::loop_isolation(false)]
fn push_ids(out: &mut Vec<char>, ids: &Vec<i64>)
    ensures
        final(out)@ == old(out)@ + ids_joined(ids@),
{
    let mut i: usize = 0;
    while i < ids.len()
        invariant
            i <= ids@.len(),
            out@ == old(out)@ + ids_joined(ids@.subrange(0, i as int)),
        decreases ids@.len() - i,
    {
        let ghost pre = ids@.subrange(0, i as int);
        let ghost pre1 = ids@.subrange(0, i + 1);
        proof {
            assert(pre1.drop_last() =~= pre);
            assert(pre1.last() == ids@[i as int]);
        }
        if i > 0 {
            out.push(',');
        }
        push_int(out, ids[i]);
        proof {
            if i == 0 {
                assert(pre1.len() == 1);
                assert(pre1[0] == ids@[i as int]);
                assert(out@ =~= old(out)@ + ids_joined(pre1));
            } else {
                assert(out@ =~= old(out)@ + ids_joined(pre1));
            }
        }
        i = i + 1;
    }
    proof {
        assert(ids@.subrange(0, ids@.len() as int) =~= ids@);
        assert(old(out)@ + ids_joined(ids@.subrange(0, 0)) =~= old(out)@);
    }
}

/// The concatenated text-substitution statements of a pass over the drug
/// corpus; operations that matched no row contribute nothing.
pub open spec fn drug_strip_stmts(groups: Seq<(Seq<char>, Seq<i64>)>) -> Seq<char>
    decreases groups.len(),
{
    if groups.len() == 0 {
        Seq::empty()
    } else {
        drug_strip_stmts(groups.drop_last()) + (if groups.last().1.len() > 0 {
            strip_stmt(
                "UPDATE ctgov.drug_mapping SET clean = replace(clean, '"@,
                "', '') WHERE id IN ("@,
                groups.last().0,
                groups.last().1,
            )
        } else {
            Seq::<char>::empty()
        })
    }
}

/// Views of a sequence of strip groups.
pub open spec fn sg_views(s: Seq<StripGroup>) -> Seq<(Seq<char>, Seq<i64>)> {
    s.map_values(|g: StripGroup| (g.name@, g.ids@))
}

/// Render the bulk text-substitution statements of a pass over the drug
/// corpus.
#[verifier::loop_isolation(false)]
pub fn drug_strip_stmts_exec(groups: &Vec<StripGroup>) -> (r: Vec<char>)
    ensures
        r@ == drug_strip_stmts(sg_views(groups@)),
{
    let prefix = chars_of("UPDATE ctgov.drug_mapping SET clean = replace(clean, '");
    let mid = chars_of("', '') WHERE id IN (");
    let suffix = chars_of(");");
    let mut out: Vec<char> = Vec::new();
    let mut i: usize = 0;
    proof {
        assert(out@ =~= drug_strip_stmts(sg_views(groups@.subrange(0, 0))));
    }
    while i < groups.len()
        invariant
            i <= groups@.len(),
            prefix@ == "UPDATE ctgov.drug_mapping SET clean = replace(clean, '"@,
            mid@ == "', '') WHERE id IN ("@,
            suffix@ == ");"@,
            out@ == drug_strip_stmts(sg_views(groups@.subrange(0, i as int))),
        decreases groups@.len() - i,
    {
        let ghost pre = sg_views(groups@.subrange(0, i as int));
        let ghost pre1 = sg_views(groups@.subrange(0, i + 1));
        proof {
            assert(groups@.subrange(0, i + 1).drop_last() =~= groups@.subrange(0, i as int));
            assert(pre1.drop_last() =~= pre);
            assert(pre1.last() == (groups@[i as int].name@, groups@[i as int].ids@));
        }
        let g = &groups[i];
        if g.ids.len() > 0 {
            push_all(&mut out, &prefix);
            let esc = escape_quotes(&g.name);
            push_all(&mut out, &esc);
            push_all(&mut out, &mid);
            push_ids(&mut out, &g.ids);
            push_all(&mut out, &suffix);
            proof {
                assert(out@ =~= drug_strip_stmts(pre1));
            }
        } else {
            proof {
                assert(out@ =~= drug_strip_stmts(pre1));
            }
        }
        i = i + 1;
    }
    proof {
        assert(groups@.subrange(0, groups@.len() as int) =~= groups@);
    }
    out
}

/// The concatenated text-substitution statements of a pass over the
/// result-group descriptions; operations that matched no row contribute
/// nothing.
pub open spec fn desc_strip_stmts(groups: Seq<(Seq<char>, Seq<i64>)>) -> Seq<char>
    decreases groups.len(),
{
    if groups.len() == 0 {
        Seq::empty()
    } else {
        desc_strip_stmts(groups.drop_last()) + (if groups.last().1.len() > 0 {
            strip_stmt(
                "UPDATE ctgov.rg_desc_mapping SET description = replace(description, '"@,
                "', '') WHERE id IN ("@,
                groups.last().0,
                groups.last().1,
            )
        } else {
            Seq::<char>::empty()
        })
    }
}

/// Render the bulk text-substitution statements of a pass over the
/// result-group descriptions.
#[verifier::loop_isolation(false)]
pub fn desc_strip_stmts_exec(groups: &Vec<StripGroup>) -> (r: Vec<char>)
    ensures
        r@ == desc_strip_stmts(sg_views(groups@)),
{
    let prefix = chars_of("UPDATE ctgov.rg_desc_mapping SET description = replace(description, '");
    let mid = chars_of("', '') WHERE id IN (");
    let suffix = chars_of(");");
    let mut out: Vec<char> = Vec::new();
    let mut i: usize = 0;
    proof {
        assert(out@ =~= desc_strip_stmts(sg_views(groups@.subrange(0, 0))));
    }
    while i < groups.len()
        invariant
            i <= groups@.len(),
            prefix@ == "UPDATE ctgov.rg_desc_mapping SET description = replace(description, '"@,
            mid@ == "', '') WHERE id IN ("@,
            suffix@ == ");"@,
            out@ == desc_strip_stmts(sg_views(groups@.subrange(0, i as int))),
        decreases groups@.len() - i,
    {
        let ghost pre = sg_views(groups@.subrange(0, i as int));
        let ghost pre1 = sg_views(groups@.subrange(0, i + 1));
        proof {
            assert(groups@.subrange(0, i + 1).drop_last() =~= groups@.subrange(0, i as int));
            assert(pre1.drop_last() =~= pre);
            assert(pre1.last() == (groups@[i as int].name@, groups@[i as int].ids@));
        }
        let g = &groups[i];
        if g.ids.len() > 0 {
            push_all(&mut out, &prefix);
            let esc = escape_quotes(&g.name);
            push_all(&mut out, &esc);
            push_all(&mut out, &mid);
            push_ids(&mut out, &g.ids);
            push_all(&mut out, &suffix);
            proof {
                assert(out@ =~= desc_strip_stmts(pre1));
            }
        } else {
            proof {
                assert(out@ =~= desc_strip_stmts(pre1));
            }
        }
        i = i + 1;
    }
    proof {
        assert(groups@.subrange(0, groups@.len() as int) =~= groups@);
    }
    out
}

/// A full bulk-insert statement of pairs, or nothing when the accumulator
/// is empty.
pub open spec fn insert_stmt(prefix: Seq<char>, ps: Seq<(i64, i64)>) -> Option<Seq<char>> {
    if ps.len() == 0 {
        None
    } else {
        Some(prefix + pair_rows(ps) + ";"@)
    }
}

/// Render a full bulk-insert statement around a value list.
fn pairs_stmt(prefix: &Vec<char>, pairs: &Vec<(i64, i64)>) -> (r: Option<Vec<char>>)
    ensures
        r is None <==> pairs@.len() == 0,
        r matches Some(v) ==> v@ == prefix@ + pair_rows(pairs@) + ";"@,
{
    match values_clause(pairs) {
        None => None,
        Some(vals) => {
            let mut out: Vec<char> = Vec::new();
            push_all(&mut out, prefix);
            push_all(&mut out, &vals);
            let suffix = chars_of(";");
            push_all(&mut out, &suffix);
            proof {
                assert(out@ =~= prefix@ + pair_rows(pairs@) + ";"@);
            }
            Some(out)
        },
    }
}

/// The bulk insert of accepted (result group, intervention) pairs.
pub fn intervention_insert_stmt(pairs: &Vec<(i64, i64)>) -> (r: Option<Vec<char>>)
    ensures
        r is None <==> pairs@.len() == 0,
        r matches Some(v) ==> v@ == "INSERT INTO ctgov.result_group_intervention(rg_id,intervention_id) VALUES "@
            + pair_rows(pairs@) + ";"@,
{
    let prefix = chars_of("INSERT INTO ctgov.result_group_intervention(rg_id,intervention_id) VALUES ");
    pairs_stmt(&prefix, pairs)
}

/// The bulk insert of accepted (drug row, vocabulary code) pairs.
pub fn drug_insert_stmt(pairs: &Vec<(i64, i64)>) -> (r: Option<Vec<char>>)
    ensures
        r is None <==> pairs@.len() == 0,
        r matches Some(v) ==> v@ == "INSERT INTO ctgov.drug_mapping_rxcui(drug_mapping_id,rxcui) VALUES "@
            + pair_rows(pairs@) + ";"@,
{
    let prefix = chars_of("INSERT INTO ctgov.drug_mapping_rxcui(drug_mapping_id,rxcui) VALUES ");
    pairs_stmt(&prefix, pairs)
}

/// The bulk insert of accepted (description row, vocabulary code) pairs.
pub fn description_insert_stmt(pairs: &Vec<(i64, i64)>) -> (r: Option<Vec<char>>)
    ensures
        r is None <==> pairs@.len() == 0,
        r matches Some(v) ==> v@ == "INSERT INTO ctgov.description_mapping_rxcui(rg_desc_mapping_id,rxcui) VALUES "@
            + pair_rows(pairs@) + ";"@,
{
    let prefix = chars_of(
        "INSERT INTO ctgov.description_mapping_rxcui(rg_desc_mapping_id,rxcui) VALUES ",
    );
    pairs_stmt(&prefix, pairs)
}

/// The bulk insert of accepted adverse-event mappings.
pub fn meddra_insert_stmt(rows: &Vec<MappedTerm>) -> (r: Option<Vec<char>>)
    ensures
        r is None <==> rows@.len() == 0,
        r matches Some(v) ==> v@ == "INSERT INTO ctgov.rg_meddra_map(original, standard, pt_code) VALUES "@
            + meddra_rows(mt_views(rows@)) + ";"@,
{
    match meddra_values(rows) {
        None => None,
        Some(vals) => {
            let prefix = chars_of("INSERT INTO ctgov.rg_meddra_map(original, standard, pt_code) VALUES ");
            let mut out: Vec<char> = Vec::new();
            push_all(&mut out, &prefix);
            push_all(&mut out, &vals);
            let suffix = chars_of(";");
            push_all(&mut out, &suffix);
            proof {
                assert(out@ =~= prefix@ + meddra_rows(mt_views(rows@)) + ";"@);
            }
            Some(out)
        },
    }
}

} // verus!