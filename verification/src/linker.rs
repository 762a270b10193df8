//! Arm-to-intervention linking: a decision procedure, run once per study,
//! that maps each result group to a design group and/or to interventions,
//! branching on the (result-group count, design-group count) topology.
//!
//! Every branch is specified by a model function over the views of the
//! input groups; the executable code returns exactly the modelled links.

use vstd::prelude::*;
use crate::record::{
    Group, GroupFields, Intervention, InterventionLink, LinkRecord, copy_chars, fields_of,
    opt_view, title_or,
};
use crate::text::{
    chars_of, contains_chars, contains_ci, eq_ci, replace_chars, spec_contains, spec_contains_ci,
    spec_eq_ci, spec_replace,
};
use crate::ranker::{first_min_idx, lemma_first_min, select_first_min};
use crate::dist::{damerau_dist, edit_distance};

verus! {

/// The view of a group as a link record carries it.
pub type GroupView = (Option<i32>, Option<Seq<char>>, Option<Seq<char>>);

/// The view of a link record: study, design side (None for the placeholder),
/// result side, method tag.
pub type LinkView = (Seq<char>, Option<GroupView>, GroupView, Seq<char>);

/// View of a group.
pub open spec fn g_view(g: Group) -> GroupView {
    (g.id, opt_view(g.title), opt_view(g.description))
}

/// View of the group fields a link record carries.
pub open spec fn gf_view(f: GroupFields) -> GroupView {
    (f.id, opt_view(f.title), opt_view(f.description))
}

/// View of a link record.
pub open spec fn lr_view(l: LinkRecord) -> LinkView {
    (
        l.study_id@,
        match l.design {
            Some(f) => Some(gf_view(f)),
            None => None,
        },
        gf_view(l.result),
        l.method@,
    )
}

/// View of an intervention link.
pub open spec fn il_view(l: InterventionLink) -> (i32, i32) {
    (l.rg_id, l.intervention_id)
}

/// View of an intervention.
pub open spec fn iv_view(i: Intervention) -> (i32, Seq<char>) {
    (i.id, i.name@)
}

/// Views of a sequence of link records.
pub open spec fn lr_views(s: Seq<LinkRecord>) -> Seq<LinkView> {
    s.map_values(|l: LinkRecord| lr_view(l))
}

/// Views of a sequence of intervention links.
pub open spec fn il_views(s: Seq<InterventionLink>) -> Seq<(i32, i32)> {
    s.map_values(|l: InterventionLink| il_view(l))
}

/// Mapping to views distributes over concatenation.
pub proof fn lemma_il_views_concat(a: Seq<InterventionLink>, b: Seq<InterventionLink>)
    ensures
        il_views(a + b) == il_views(a) + il_views(b),
{
    assert(il_views(a + b) =~= il_views(a) + il_views(b));
}


/// The default title of a group that has none.
pub open spec fn no_title() -> Seq<char> {
    "no title"@
}

/// A group's title, defaulted.
pub open spec fn gtitle(g: Group) -> Seq<char> {
    title_or(g.title, no_title())
}

/// The result group's title marks a placebo arm (case-insensitive).
pub open spec fn is_placebo(t: Seq<char>) -> bool {
    spec_contains_ci(t, "placebo"@)
}

/// Exactly one side of the pair mentions placebo: a hard disqualifier for
/// fuzzy matching, independent of distance.
pub open spec fn placebo_mismatch(a: Seq<char>, b: Seq<char>) -> bool {
    is_placebo(a) != is_placebo(b)
}

/// The intervention links a design-group hit contributes: one per
/// intervention of the design group, targeted at the result group. A result
/// group without identifier is never persisted as a link target.
pub open spec fn dg_ilinks(rg: Group, dg: Group) -> Seq<(i32, i32)> {
    match dg.intervention {
        Some(ins) => match rg.id {
            Some(rid) => Seq::new(ins@.len(), |i: int| (rid, ins@[i].id)),
            None => Seq::empty(),
        },
        None => Seq::empty(),
    }
}

/// Build one link record from a result group to a design group, together
/// with the intervention links the design group contributes.
#[verifier::loop_isolation(false)]
fn link_with_dg(study: &Vec<char>, rg: &Group, dg: &Group, method: Vec<char>) -> (r: (
    LinkRecord,
    Vec<InterventionLink>,
))
    ensures
        lr_view(r.0) == (study@, Some(g_view(*dg)), g_view(*rg), method@),
        il_views(r.1@) == dg_ilinks(*rg, *dg),
{
    let record = LinkRecord {
        study_id: copy_chars(study),
        design: Some(fields_of(dg)),
        result: fields_of(rg),
        method,
    };
    let mut ilinks: Vec<InterventionLink> = Vec::new();
    match (&dg.intervention, &rg.id) {
        (Some(ins), Some(rid)) => {
            let rid = *rid;
            let mut i: usize = 0;
            while i < ins.len()
                invariant
                    i <= ins@.len(),
                    dg.intervention matches Some(v) && v@ == ins@,
                    rg.id == Some(rid),
                    ilinks@.len() == i,
                    forall|k: int|
                        0 <= k < i ==> il_view(#[trigger] ilinks@[k]) == (rid, ins@[k].id),
                decreases ins@.len() - i,
            {
                ilinks.push(InterventionLink { rg_id: rid, intervention_id: ins[i].id });
                i = i + 1;
            }
            proof {
                let m = il_views(ilinks@);
                let n = dg_ilinks(*rg, *dg);
                assert(forall|k: int| 0 <= k < m.len() ==> m[k] == il_view(#[trigger] ilinks@[k]));
                assert(m =~= n);
            }
        },
        _ => {
            proof {
                assert(il_views(ilinks@) =~= dg_ilinks(*rg, *dg));
            }
        },
    }
    (record, ilinks)
}

/// Build one link record from a result group to the explicit no-design-group
/// placeholder; the placeholder contributes no intervention links.
fn link_no_dg(study: &Vec<char>, rg: &Group, method: Vec<char>) -> (r: LinkRecord)
    ensures
        lr_view(r) == (study@, None::<GroupView>, g_view(*rg), method@),
{
    LinkRecord {
        study_id: copy_chars(study),
        design: None,
        result: fields_of(rg),
        method,
    }
}

/// A group's title, defaulted, as executable code.
fn title_of(t: &Option<Vec<char>>, d: &str) -> (r: Vec<char>)
    ensures
        r@ == title_or(*t, d@),
{
    match t {
        Some(v) => copy_chars(v),
        None => chars_of(d),
    }
}

/// Title normalization for the equal-count fuzzy branch: strip the literal
/// substrings `arm` and `group`.
pub open spec fn norm_eq(t: Seq<char>) -> Seq<char> {
    spec_replace(spec_replace(t, "arm"@, ""@), "group"@, ""@)
}

/// Title normalization for the one-to-many fuzzy branch: additionally fold
/// the roman numeral `ii` to `2`.
pub open spec fn norm_otm(t: Seq<char>) -> Seq<char> {
    spec_replace(norm_eq(t), "ii"@, "2"@)
}

fn norm_eq_exec(t: &Vec<char>) -> (r: Vec<char>)
    ensures
        r@ == norm_eq(t@),
{
    let arm = chars_of("arm");
    let group = chars_of("group");
    let empty = chars_of("");
    let step = replace_chars(t, &arm, &empty);
    replace_chars(&step, &group, &empty)
}

fn norm_otm_exec(t: &Vec<char>) -> (r: Vec<char>)
    ensures
        r@ == norm_otm(t@),
{
    let step = norm_eq_exec(t);
    let ii = chars_of("ii");
    let two = chars_of("2");
    replace_chars(&step, &ii, &two)
}

/// Stripping the fuzzy-branch tokens is idempotent once its result is free
/// of them. (Stripping can re-expose a token — removing `arm` from `aarmrm`
/// leaves another `arm` — so the unconditional statement does not hold.)
pub proof fn lemma_norm_eq_idempotent(t: Seq<char>)
    requires
        !spec_contains(norm_eq(t), "arm"@),
        !spec_contains(norm_eq(t), "group"@),
    ensures
        norm_eq(norm_eq(t)) == norm_eq(t),
{
    let u = norm_eq(t);
    crate::text::lemma_replace_absent(u, "arm"@, ""@);
    crate::text::lemma_replace_absent(u, "group"@, ""@);
}

/// The title denotes a cumulative pseudo-group ("all patients" style noise).
pub open spec fn is_cumulative(t: Seq<char>) -> bool {
    ||| spec_eq_ci(t, "total"@)
    ||| spec_eq_ci(t, "all@patients"@)
    ||| spec_eq_ci(t, "overall participants"@)
    ||| spec_eq_ci(t, "all participants"@)
}

/// A result group takes part in matching unless its title marks it as a
/// cumulative pseudo-group.
pub open spec fn keep_rg(g: Group) -> bool {
    !is_cumulative(title_or(g.title, "no group title"@))
}

/// The kept result groups, in order.
pub open spec fn filter_keep(s: Seq<Group>) -> Seq<Group>
    decreases s.len(),
{
    if s.len() == 0 {
        Seq::empty()
    } else {
        filter_keep(s.drop_last()) + (if keep_rg(s.last()) {
            seq![s.last()]
        } else {
            Seq::empty()
        })
    }
}

/// Cumulative pseudo-groups are dropped only when a study reports more than
/// one result group.
pub open spec fn filter_rgs(s: Seq<Group>) -> Seq<Group> {
    if s.len() <= 1 {
        s
    } else {
        filter_keep(s)
    }
}

/// Drop cumulative pseudo-groups from the result groups of a study.
#[verifier::loop_isolation(false)]
pub fn filter_cumulative(rgs: Vec<Group>) -> (r: Vec<Group>)
    ensures
        r@ == filter_rgs(rgs@),
{
    if rgs.len() <= 1 {
        return rgs;
    }
    let pat_total = chars_of("total");
    let pat_allp = chars_of("all@patients");
    let pat_overall = chars_of("overall participants");
    let pat_allpart = chars_of("all participants");
    let ghost orig = rgs@;
    let mut rest = rgs;
    let mut kept: Vec<Group> = Vec::new();
    proof {
        assert(orig.subrange(0, 0) =~= Seq::<Group>::empty());
        assert(rest@ == orig.subrange(0, orig.len() as int));
    }
    while rest.len() > 0
        invariant
            rest@.len() <= orig.len(),
            rest@ == orig.subrange(orig.len() - rest@.len(), orig.len() as int),
            kept@ == filter_keep(orig.subrange(0, orig.len() - rest@.len())),
        decreases rest@.len(),
    {
        let ghost done = orig.len() - rest@.len();
        let g = rest.remove(0);
        proof {
            assert(g == orig[done]);
            assert(rest@ =~= orig.subrange(orig.len() - rest@.len(), orig.len() as int));
            assert(orig.subrange(0, done + 1).drop_last() =~= orig.subrange(0, done));
            assert(orig.subrange(0, done + 1).last() == orig[done]);
        }
        let t = title_of(&g.title, "no group title");
        let cumulative = eq_ci(&t, &pat_total) || eq_ci(&t, &pat_allp) || eq_ci(&t, &pat_overall)
            || eq_ci(&t, &pat_allpart);
        if !cumulative {
            kept.push(g);
            proof {
                assert(kept@ =~= filter_keep(orig.subrange(0, done + 1)));
            }
        } else {
            proof {
                assert(kept@ =~= filter_keep(orig.subrange(0, done + 1)));
            }
        }
    }
    proof {
        assert(orig.subrange(0, orig.len() as int) =~= orig);
    }
    kept
}

/// The per-result-group link of the single-design-group branch: the design
/// group, unless the result group's title marks a placebo arm, which links to
/// the explicit placeholder instead.
pub open spec fn one_dg_link(study: Seq<char>, rg: Group, dg: Group) -> LinkView {
    if is_placebo(gtitle(rg)) {
        (study, None::<GroupView>, g_view(rg), "only dg but this is placebo"@)
    } else {
        (study, Some(g_view(dg)), g_view(rg), "only one dg"@)
    }
}

/// All links of the single-design-group branch, one per result group.
pub open spec fn one_dg_links(study: Seq<char>, rgs: Seq<Group>, dg: Group) -> Seq<LinkView> {
    Seq::new(rgs.len(), |k: int| one_dg_link(study, rgs[k], dg))
}

/// The intervention links of the single-design-group branch: the design
/// group's interventions attach to every non-placebo result group.
pub open spec fn one_dg_ilinks(rgs: Seq<Group>, dg: Group) -> Seq<(i32, i32)>
    decreases rgs.len(),
{
    if rgs.len() == 0 {
        Seq::empty()
    } else {
        one_dg_ilinks(rgs.drop_last(), dg) + (if is_placebo(gtitle(rgs.last())) {
            Seq::empty()
        } else {
            dg_ilinks(rgs.last(), dg)
        })
    }
}

/// Link every result group to the study's only design group, except placebo
/// arms, which link to the explicit placeholder.
#[verifier::loop_isolation(false)]
fn link_one_dg(study: &Vec<char>, rgs: &Vec<Group>, dg: &Group) -> (r: (
    Vec<LinkRecord>,
    Vec<InterventionLink>,
))
    ensures
        lr_views(r.0@) == one_dg_links(study@, rgs@, *dg),
        il_views(r.1@) == one_dg_ilinks(rgs@, *dg),
{
    let placebo = chars_of("placebo");
    let mut links: Vec<LinkRecord> = Vec::new();
    let mut ilinks: Vec<InterventionLink> = Vec::new();
    let mut k: usize = 0;
    proof {
        assert(rgs@.subrange(0, 0) =~= Seq::<Group>::empty());
    }
    while k < rgs.len()
        invariant
            k <= rgs@.len(),
            placebo@ == "placebo"@,
            links@.len() == k,
            forall|j: int|
                0 <= j < k ==> lr_view(#[trigger] links@[j]) == one_dg_link(
                    study@,
                    rgs@[j],
                    *dg,
                ),
            il_views(ilinks@) == one_dg_ilinks(rgs@.subrange(0, k as int), *dg),
        decreases rgs@.len() - k,
    {
        let rg = &rgs[k];
        let ghost pre = rgs@.subrange(0, k as int);
        let ghost pre1 = rgs@.subrange(0, k + 1);
        proof {
            assert(pre1.drop_last() =~= pre);
            assert(pre1.last() == rgs@[k as int]);
        }
        let t = title_of(&rg.title, "no title");
        if contains_ci(&t, &placebo) {
            let record = link_no_dg(study, rg, chars_of("only dg but this is placebo"));
            links.push(record);
            proof {
                assert(il_views(ilinks@) =~= one_dg_ilinks(pre1, *dg));
            }
        } else {
            let (record, mut more) = link_with_dg(study, rg, dg, chars_of("only one dg"));
            links.push(record);
            let ghost before = ilinks@;
            let ghost added = more@;
            ilinks.append(&mut more);
            proof {
                lemma_il_views_concat(before, added);
                assert(il_views(ilinks@) =~= one_dg_ilinks(pre1, *dg));
            }
        }
        k = k + 1;
    }
    proof {
        assert(rgs@.subrange(0, rgs@.len() as int) =~= rgs@);
        let m = lr_views(links@);
        let n = one_dg_links(study@, rgs@, *dg);
        assert(forall|j: int| 0 <= j < m.len() ==> m[j] == lr_view(#[trigger] links@[j]));
        assert(m =~= n);
    }
    (links, ilinks)
}

/// Mapping to views distributes over push.
pub proof fn lemma_lr_views_push(s: Seq<LinkRecord>, x: LinkRecord)
    ensures
        lr_views(s.push(x)) == lr_views(s).push(lr_view(x)),
{
    assert(lr_views(s.push(x)) =~= lr_views(s).push(lr_view(x)));
}

/// An intervention's name occurs literally in the result group's raw title
/// or description (case-sensitive, absent fields read as empty).
pub open spec fn iv_match(rg: Group, iv: Intervention) -> bool {
    spec_contains(title_or(rg.title, ""@), iv.name@) || spec_contains(
        title_or(rg.description, ""@),
        iv.name@,
    )
}

/// Some intervention's name occurs in the result group's title or
/// description.
pub open spec fn any_iv_match(rg: Group, ivs: Seq<Intervention>) -> bool {
    exists|k: int| 0 <= k < ivs.len() && iv_match(rg, #[trigger] ivs[k])
}

/// Links to every intervention whose name occurs in the result group.
pub open spec fn matched_iv_links(rid: i32, rg: Group, ivs: Seq<Intervention>) -> Seq<(i32, i32)>
    decreases ivs.len(),
{
    if ivs.len() == 0 {
        Seq::empty()
    } else {
        matched_iv_links(rid, rg, ivs.drop_last()) + (if iv_match(rg, ivs.last()) {
            seq![(rid, ivs.last().id)]
        } else {
            Seq::<(i32, i32)>::empty()
        })
    }
}

/// Links to every intervention of the study, unconditionally.
pub open spec fn all_iv_links(rg: Group, ivs: Seq<Intervention>) -> Seq<(i32, i32)> {
    match rg.id {
        Some(rid) => Seq::new(ivs.len(), |i: int| (rid, ivs[i].id)),
        None => Seq::empty(),
    }
}

/// The intervention links one result group receives in the no-design-group
/// branch when the study has several result groups: every intervention whose
/// name occurs in the group's text, or, failing that, the study's sole
/// non-placebo-excluded intervention.
pub open spec fn rg_iv_links(rg: Group, ivs: Seq<Intervention>) -> Seq<(i32, i32)> {
    match rg.id {
        Some(rid) => if any_iv_match(rg, ivs) {
            matched_iv_links(rid, rg, ivs)
        } else if ivs.len() == 1 && !is_placebo(title_or(rg.title, ""@)) {
            seq![(rid, ivs[0].id)]
        } else {
            Seq::empty()
        },
        None => Seq::empty(),
    }
}

/// The link records of the no-design-group branch: the first result group
/// links to the explicit placeholder.
pub open spec fn nodg_links(study: Seq<char>, rgs: Seq<Group>) -> Seq<LinkView> {
    if rgs.len() == 0 {
        Seq::empty()
    } else {
        seq![(study, None::<GroupView>, g_view(rgs[0]), "no design groups"@)]
    }
}

/// The per-group intervention links of the no-design-group branch with
/// several result groups.
pub open spec fn nodg_multi_ilinks(rgs: Seq<Group>, ivs: Seq<Intervention>) -> Seq<(i32, i32)>
    decreases rgs.len(),
{
    if rgs.len() == 0 {
        Seq::empty()
    } else {
        nodg_multi_ilinks(rgs.drop_last(), ivs) + rg_iv_links(rgs.last(), ivs)
    }
}

/// The intervention links of the no-design-group branch.
pub open spec fn nodg_ilinks(rgs: Seq<Group>, ivs: Seq<Intervention>) -> Seq<(i32, i32)> {
    if rgs.len() == 0 {
        Seq::empty()
    } else if rgs.len() == 1 {
        all_iv_links(rgs[0], ivs)
    } else if ivs.len() == 0 {
        Seq::empty()
    } else {
        nodg_multi_ilinks(rgs, ivs)
    }
}

/// Attach every intervention of the study to the result group.
#[verifier::loop_isolation(false)]
fn attach_all_exec(rg: &Group, ivs: &Vec<Intervention>) -> (r: Vec<InterventionLink>)
    ensures
        il_views(r@) == all_iv_links(*rg, ivs@),
{
    let mut out: Vec<InterventionLink> = Vec::new();
    match &rg.id {
        Some(rid) => {
            let rid = *rid;
            let mut i: usize = 0;
            while i < ivs.len()
                invariant
                    i <= ivs@.len(),
                    rg.id == Some(rid),
                    out@.len() == i,
                    forall|k: int|
                        0 <= k < i ==> il_view(#[trigger] out@[k]) == (rid, ivs@[k].id),
                decreases ivs@.len() - i,
            {
                out.push(InterventionLink { rg_id: rid, intervention_id: ivs[i].id });
                i = i + 1;
            }
            proof {
                let m = il_views(out@);
                assert(forall|k: int| 0 <= k < m.len() ==> m[k] == il_view(#[trigger] out@[k]));
                assert(m =~= all_iv_links(*rg, ivs@));
            }
        },
        None => {
            proof {
                assert(il_views(out@) =~= all_iv_links(*rg, ivs@));
            }
        },
    }
    out
}

/// The intervention links one result group receives in the multi-group
/// no-design-group branch.
#[verifier::rlimit(30)]
#[verifier::loop_isolation(false)]
fn rg_iv_links_exec(rg: &Group, ivs: &Vec<Intervention>) -> (r: Vec<InterventionLink>)
    ensures
        il_views(r@) == rg_iv_links(*rg, ivs@),
{
    let mut out: Vec<InterventionLink> = Vec::new();
    let rid = match &rg.id {
        Some(rid) => *rid,
        None => {
            proof {
                assert(il_views(out@) =~= rg_iv_links(*rg, ivs@));
            }
            return out;
        },
    };
    let title_raw = title_of(&rg.title, "");
    let descr_raw = title_of(&rg.description, "");
    let placebo = chars_of("placebo");
    let mut found = false;
    let mut j: usize = 0;
    proof {
        assert(ivs@.subrange(0, 0) =~= Seq::<Intervention>::empty());
    }
    while j < ivs.len()
        invariant
            j <= ivs@.len(),
            rg.id == Some(rid),
            title_raw@ == title_or(rg.title, ""@),
            descr_raw@ == title_or(rg.description, ""@),
            found == any_iv_match(*rg, ivs@.subrange(0, j as int)),
            il_views(out@) == matched_iv_links(rid, *rg, ivs@.subrange(0, j as int)),
        decreases ivs@.len() - j,
    {
        let ghost pre = ivs@.subrange(0, j as int);
        let ghost pre1 = ivs@.subrange(0, j + 1);
        proof {
            assert(pre1.drop_last() =~= pre);
            assert(pre1.last() == ivs@[j as int]);
        }
        let iv = &ivs[j];
        let hit = contains_chars(&title_raw, &iv.name) || contains_chars(&descr_raw, &iv.name);
        if hit {
            found = true;
            let ghost before = out@;
            out.push(InterventionLink { rg_id: rid, intervention_id: iv.id });
            proof {
                assert(il_views(out@) =~= il_views(before).push((rid, ivs@[j as int].id)));
                assert(il_views(before).push((rid, ivs@[j as int].id)) =~= matched_iv_links(
                    rid,
                    *rg,
                    pre1,
                ));
                assert(any_iv_match(*rg, pre1));
            }
        } else {
            proof {
                assert(il_views(out@) =~= matched_iv_links(rid, *rg, pre1));
                assert(any_iv_match(*rg, pre1) == any_iv_match(*rg, pre)) by {
                    if any_iv_match(*rg, pre1) {
                        let k = choose|k: int|
                            0 <= k < pre1.len() && iv_match(*rg, #[trigger] pre1[k]);
                        if k < pre.len() {
                            assert(iv_match(*rg, pre[k]));
                        }
                    }
                    if any_iv_match(*rg, pre) {
                        let k = choose|k: int|
                            0 <= k < pre.len() && iv_match(*rg, #[trigger] pre[k]);
                        assert(iv_match(*rg, pre1[k]));
                    }
                }
            }
        }
        j = j + 1;
    }
    proof {
        assert(ivs@.subrange(0, ivs@.len() as int) =~= ivs@);
    }
    if !found {
        if ivs.len() == 1 && !contains_ci(&title_raw, &placebo) {
            out.push(InterventionLink { rg_id: rid, intervention_id: ivs[0].id });
            proof {
                assert(matched_iv_links(rid, *rg, ivs@) =~= Seq::<(i32, i32)>::empty()) by {
                    lemma_matched_empty(rid, *rg, ivs@);
                }
                assert(il_views(out@) =~= rg_iv_links(*rg, ivs@));
            }
        } else {
            proof {
                assert(matched_iv_links(rid, *rg, ivs@) =~= Seq::<(i32, i32)>::empty()) by {
                    lemma_matched_empty(rid, *rg, ivs@);
                }
                assert(il_views(out@) =~= rg_iv_links(*rg, ivs@));
            }
        }
    } else {
        proof {
            assert(il_views(out@) =~= rg_iv_links(*rg, ivs@));
        }
    }
    out
}

/// Without any name hit the matched-link sequence is empty.
proof fn lemma_matched_empty(rid: i32, rg: Group, ivs: Seq<Intervention>)
    requires
        !any_iv_match(rg, ivs),
    ensures
        matched_iv_links(rid, rg, ivs) == Seq::<(i32, i32)>::empty(),
    decreases ivs.len(),
{
    if ivs.len() > 0 {
        assert(!any_iv_match(rg, ivs.drop_last())) by {
            if any_iv_match(rg, ivs.drop_last()) {
                let k = choose|k: int|
                    0 <= k < ivs.drop_last().len() && iv_match(rg, #[trigger] ivs.drop_last()[k]);
                assert(iv_match(rg, ivs[k]));
            }
        }
        lemma_matched_empty(rid, rg, ivs.drop_last());
        assert(!iv_match(rg, ivs.last()));
        assert(matched_iv_links(rid, rg, ivs) =~= Seq::<(i32, i32)>::empty());
    }
}

/// The no-design-group branch: the first result group links to the explicit
/// placeholder; interventions attach directly by the rules of
/// `nodg_ilinks`.
#[verifier::rlimit(30)]
#[verifier::loop_isolation(false)]
fn link_nodg(study: &Vec<char>, rgs: &Vec<Group>, ivs: &Vec<Intervention>) -> (r: (
    Vec<LinkRecord>,
    Vec<InterventionLink>,
))
    ensures
        lr_views(r.0@) == nodg_links(study@, rgs@),
        il_views(r.1@) == nodg_ilinks(rgs@, ivs@),
{
    let mut links: Vec<LinkRecord> = Vec::new();
    let mut ilinks: Vec<InterventionLink> = Vec::new();
    if rgs.len() == 0 {
        proof {
            assert(lr_views(links@) =~= nodg_links(study@, rgs@));
            assert(il_views(ilinks@) =~= nodg_ilinks(rgs@, ivs@));
        }
        return (links, ilinks);
    }
    let record = link_no_dg(study, &rgs[0], chars_of("no design groups"));
    links.push(record);
    proof {
        assert(lr_views(links@) =~= nodg_links(study@, rgs@));
    }
    if rgs.len() == 1 {
        let ghost before = ilinks@;
        let mut all = attach_all_exec(&rgs[0], ivs);
        let ghost added = all@;
        ilinks.append(&mut all);
        proof {
            lemma_il_views_concat(before, added);
            assert(il_views(ilinks@) =~= nodg_ilinks(rgs@, ivs@));
        }
        return (links, ilinks);
    }
    if ivs.len() == 0 {
        proof {
            assert(il_views(ilinks@) =~= nodg_ilinks(rgs@, ivs@));
        }
        return (links, ilinks);
    }
    let mut r: usize = 0;
    proof {
        assert(rgs@.subrange(0, 0) =~= Seq::<Group>::empty());
    }
    while r < rgs.len()
        invariant
            r <= rgs@.len(),
            il_views(ilinks@) == nodg_multi_ilinks(rgs@.subrange(0, r as int), ivs@),
        decreases rgs@.len() - r,
    {
        let ghost pre = rgs@.subrange(0, r as int);
        let ghost pre1 = rgs@.subrange(0, r + 1);
        proof {
            assert(pre1.drop_last() =~= pre);
            assert(pre1.last() == rgs@[r as int]);
        }
        let ghost before = ilinks@;
        let mut add = rg_iv_links_exec(&rgs[r], ivs);
        let ghost added = add@;
        ilinks.append(&mut add);
        proof {
            lemma_il_views_concat(before, added);
            assert(il_views(ilinks@) =~= nodg_multi_ilinks(pre1, ivs@));
        }
        r = r + 1;
    }
    proof {
        assert(rgs@.subrange(0, rgs@.len() as int) =~= rgs@);
    }
    (links, ilinks)
}

/// The name of a design group's first intervention, or empty.
pub open spec fn first_iv_name(dg: Group) -> Seq<char> {
    match dg.intervention {
        Some(v) => if v@.len() > 0 {
            v@[0].name@
        } else {
            ""@
        },
        None => ""@,
    }
}

/// A direct hit in the equal-count branch: the titles agree up to case, or
/// the result group's title equals the design group's first intervention
/// name.
pub open spec fn cond_direct(rg: Group, dg: Group) -> bool {
    spec_eq_ci(gtitle(rg), gtitle(dg)) || spec_eq_ci(gtitle(rg), first_iv_name(dg))
}

/// Some design group is a direct hit.
pub open spec fn found_direct(rg: Group, dgs: Seq<Group>) -> bool {
    exists|k: int| 0 <= k < dgs.len() && cond_direct(rg, #[trigger] dgs[k])
}

/// The direct-hit links of one result group, in design-group order.
pub open spec fn direct_links(study: Seq<char>, rg: Group, dgs: Seq<Group>) -> Seq<LinkView>
    decreases dgs.len(),
{
    if dgs.len() == 0 {
        Seq::empty()
    } else {
        direct_links(study, rg, dgs.drop_last()) + (if cond_direct(rg, dgs.last()) {
            seq![(study, Some(g_view(dgs.last())), g_view(rg), "direct hit"@)]
        } else {
            Seq::<LinkView>::empty()
        })
    }
}

/// The intervention links of those direct hits.
pub open spec fn direct_ilinks(rg: Group, dgs: Seq<Group>) -> Seq<(i32, i32)>
    decreases dgs.len(),
{
    if dgs.len() == 0 {
        Seq::empty()
    } else {
        direct_ilinks(rg, dgs.drop_last()) + (if cond_direct(rg, dgs.last()) {
            dg_ilinks(rg, dgs.last())
        } else {
            Seq::<(i32, i32)>::empty()
        })
    }
}

/// One title contains the other, up to case.
pub open spec fn cond_contain(rg: Group, dg: Group) -> bool {
    spec_contains_ci(gtitle(rg), gtitle(dg)) || spec_contains_ci(gtitle(dg), gtitle(rg))
}

/// How many design groups the containment test accepts.
pub open spec fn count_contain(rg: Group, dgs: Seq<Group>) -> int
    decreases dgs.len(),
{
    if dgs.len() == 0 {
        0
    } else {
        count_contain(rg, dgs.drop_last()) + (if cond_contain(rg, dgs.last()) {
            1int
        } else {
            0int
        })
    }
}

/// The last design group the containment test accepts (-1 if none).
pub open spec fn last_contain(rg: Group, dgs: Seq<Group>) -> int
    decreases dgs.len(),
{
    if dgs.len() == 0 {
        -1
    } else if cond_contain(rg, dgs.last()) {
        dgs.len() - 1
    } else {
        last_contain(rg, dgs.drop_last())
    }
}

/// The edit-distance candidates of the equal-count fuzzy phase: design
/// groups with a usable title whose normalized distance is below 7.
pub open spec fn pm_cands_eq(rg: Group, dgs: Seq<Group>) -> Seq<(usize, usize)>
    decreases dgs.len(),
{
    if dgs.len() == 0 {
        Seq::empty()
    } else {
        pm_cands_eq(rg, dgs.drop_last()) + (if gtitle(dgs.last()).len() > 2 && damerau_dist(
            norm_eq(gtitle(dgs.last())),
            norm_eq(gtitle(rg)),
        ) < 7 {
            seq![
                (
                    (damerau_dist(norm_eq(gtitle(dgs.last())), norm_eq(gtitle(rg))) as usize),
                    (dgs.len() - 1) as usize,
                ),
            ]
        } else {
            Seq::<(usize, usize)>::empty()
        })
    }
}

/// The links one result group receives in the equal-count branch: every
/// direct hit; else the unique containment hit; else the best fuzzy
/// candidate under the distance threshold.
pub open spec fn rg_links_equal(study: Seq<char>, rg: Group, dgs: Seq<Group>) -> Seq<LinkView> {
    if found_direct(rg, dgs) {
        direct_links(study, rg, dgs)
    } else if count_contain(rg, dgs) == 1 {
        seq![(study, Some(g_view(dgs[last_contain(rg, dgs)])), g_view(rg), "direct hit"@)]
    } else if gtitle(rg).len() > 2 && pm_cands_eq(rg, dgs).len() > 0 {
        let c = pm_cands_eq(rg, dgs);
        seq![
            (study, Some(g_view(dgs[c[first_min_idx(c)].1 as int])), g_view(rg), "pattern match"@),
        ]
    } else {
        Seq::empty()
    }
}

/// The intervention links of the equal-count branch for one result group.
pub open spec fn rg_ilinks_equal(rg: Group, dgs: Seq<Group>) -> Seq<(i32, i32)> {
    if found_direct(rg, dgs) {
        direct_ilinks(rg, dgs)
    } else if count_contain(rg, dgs) == 1 {
        dg_ilinks(rg, dgs[last_contain(rg, dgs)])
    } else if gtitle(rg).len() > 2 && pm_cands_eq(rg, dgs).len() > 0 {
        let c = pm_cands_eq(rg, dgs);
        dg_ilinks(rg, dgs[c[first_min_idx(c)].1 as int])
    } else {
        Seq::empty()
    }
}

/// All links of the equal-count branch.
pub open spec fn equal_links(study: Seq<char>, rgs: Seq<Group>, dgs: Seq<Group>) -> Seq<LinkView>
    decreases rgs.len(),
{
    if rgs.len() == 0 {
        Seq::empty()
    } else {
        equal_links(study, rgs.drop_last(), dgs) + rg_links_equal(study, rgs.last(), dgs)
    }
}

/// All intervention links of the equal-count branch.
pub open spec fn equal_ilinks(rgs: Seq<Group>, dgs: Seq<Group>) -> Seq<(i32, i32)>
    decreases rgs.len(),
{
    if rgs.len() == 0 {
        Seq::empty()
    } else {
        equal_ilinks(rgs.drop_last(), dgs) + rg_ilinks_equal(rgs.last(), dgs)
    }
}

/// The first intervention name of a design group, as executable code.
fn first_iv_name_exec(dg: &Group) -> (r: Vec<char>)
    ensures
        r@ == first_iv_name(*dg),
{
    proof {
        reveal_strlit("");
    }
    match &dg.intervention {
        Some(v) => if v.len() > 0 {
            copy_chars(&v[0].name)
        } else {
            let r: Vec<char> = Vec::new();
            proof {
                assert(r@ =~= ""@);
            }
            r
        },
        None => {
            let r: Vec<char> = Vec::new();
            proof {
                assert(r@ =~= ""@);
            }
            r
        },
    }
}

/// Match one result group in the equal-count branch.
#[verifier::rlimit(30)]
#[verifier::loop_isolation(false)]
fn rg_link_equal(study: &Vec<char>, rg: &Group, dgs: &Vec<Group>) -> (r: (
    Vec<LinkRecord>,
    Vec<InterventionLink>,
))
    ensures
        lr_views(r.0@) == rg_links_equal(study@, *rg, dgs@),
        il_views(r.1@) == rg_ilinks_equal(*rg, dgs@),
{
    let mut links: Vec<LinkRecord> = Vec::new();
    let mut ilinks: Vec<InterventionLink> = Vec::new();
    let t_rg = title_of(&rg.title, "no title");
    let mut found = false;
    let mut d: usize = 0;
    proof {
        assert(dgs@.subrange(0, 0) =~= Seq::<Group>::empty());
    }
    while d < dgs.len()
        invariant
            d <= dgs@.len(),
            t_rg@ == gtitle(*rg),
            found == found_direct(*rg, dgs@.subrange(0, d as int)),
            lr_views(links@) == direct_links(study@, *rg, dgs@.subrange(0, d as int)),
            il_views(ilinks@) == direct_ilinks(*rg, dgs@.subrange(0, d as int)),
        decreases dgs@.len() - d,
    {
        let ghost pre = dgs@.subrange(0, d as int);
        let ghost pre1 = dgs@.subrange(0, d + 1);
        proof {
            assert(pre1.drop_last() =~= pre);
            assert(pre1.last() == dgs@[d as int]);
        }
        let dg = &dgs[d];
        let t_dg = title_of(&dg.title, "no title");
        let ivname = first_iv_name_exec(dg);
        let hit = eq_ci(&t_rg, &t_dg) || eq_ci(&t_rg, &ivname);
        if hit {
            found = true;
            let ghost lbefore = links@;
            let ghost ibefore = ilinks@;
            let (record, mut more) = link_with_dg(study, rg, dg, chars_of("direct hit"));
            links.push(record);
            let ghost added = more@;
            ilinks.append(&mut more);
            proof {
                lemma_lr_views_push(lbefore, record);
                assert(lr_views(lbefore).push(lr_view(record)) =~= direct_links(
                    study@,
                    *rg,
                    pre1,
                ));
                lemma_il_views_concat(ibefore, added);
                assert(il_views(ilinks@) =~= direct_ilinks(*rg, pre1));
                assert(found_direct(*rg, pre1));
            }
        } else {
            proof {
                assert(lr_views(links@) =~= direct_links(study@, *rg, pre1));
                assert(il_views(ilinks@) =~= direct_ilinks(*rg, pre1));
                assert(found_direct(*rg, pre1) == found_direct(*rg, pre)) by {
                    if found_direct(*rg, pre1) {
                        let k = choose|k: int|
                            0 <= k < pre1.len() && cond_direct(*rg, #[trigger] pre1[k]);
                        if k < pre.len() {
                            assert(cond_direct(*rg, pre[k]));
                        }
                    }
                    if found_direct(*rg, pre) {
                        let k = choose|k: int|
                            0 <= k < pre.len() && cond_direct(*rg, #[trigger] pre[k]);
                        assert(cond_direct(*rg, pre1[k]));
                    }
                }
            }
        }
        d = d + 1;
    }
    proof {
        assert(dgs@.subrange(0, dgs@.len() as int) =~= dgs@);
    }
    if found {
        return (links, ilinks);
    }
    // No direct hit: accept a containment hit only if it is unique.
    let mut cnt: usize = 0;
    let mut m_idx: usize = 0;
    let mut d: usize = 0;
    while d < dgs.len()
        invariant
            d <= dgs@.len(),
            t_rg@ == gtitle(*rg),
            cnt <= d,
            cnt == count_contain(*rg, dgs@.subrange(0, d as int)),
            cnt > 0 ==> m_idx == last_contain(*rg, dgs@.subrange(0, d as int)) && m_idx < d,
            cnt == 0 ==> last_contain(*rg, dgs@.subrange(0, d as int)) == -1,
        decreases dgs@.len() - d,
    {
        let ghost pre = dgs@.subrange(0, d as int);
        let ghost pre1 = dgs@.subrange(0, d + 1);
        proof {
            assert(pre1.drop_last() =~= pre);
            assert(pre1.last() == dgs@[d as int]);
            lemma_count_nonneg(*rg, pre);
        }
        let dg = &dgs[d];
        let t_dg = title_of(&dg.title, "no title");
        if contains_ci(&t_rg, &t_dg) || contains_ci(&t_dg, &t_rg) {
            cnt = cnt + 1;
            m_idx = d;
        }
        d = d + 1;
    }
    proof {
        assert(dgs@.subrange(0, dgs@.len() as int) =~= dgs@);
    }
    if cnt == 1 {
        let ghost lbefore = links@;
        let (record, mut more) = link_with_dg(study, rg, &dgs[m_idx], chars_of("direct hit"));
        links.push(record);
        ilinks.append(&mut more);
        proof {
            lemma_direct_empty(study@, *rg, dgs@);
            lemma_lr_views_push(lbefore, record);
            assert(lr_views(links@) =~= rg_links_equal(study@, *rg, dgs@));
            assert(il_views(ilinks@) =~= rg_ilinks_equal(*rg, dgs@));
        }
        return (links, ilinks);
    }
    // Still unmatched: fall back to edit distance, below a threshold of 7.
    if t_rg.len() > 2 {
        let nrg = norm_eq_exec(&t_rg);
        let mut cands: Vec<(usize, usize)> = Vec::new();
        let mut d: usize = 0;
        while d < dgs.len()
            invariant
                d <= dgs@.len(),
                t_rg@ == gtitle(*rg),
                nrg@ == norm_eq(gtitle(*rg)),
                cands@ == pm_cands_eq(*rg, dgs@.subrange(0, d as int)),
                forall|k: int| 0 <= k < cands@.len() ==> (#[trigger] cands@[k]).1 < d,
            decreases dgs@.len() - d,
        {
            let ghost pre = dgs@.subrange(0, d as int);
            let ghost pre1 = dgs@.subrange(0, d + 1);
            proof {
                assert(pre1.drop_last() =~= pre);
                assert(pre1.last() == dgs@[d as int]);
            }
            let dg = &dgs[d];
            let t_dg = title_of(&dg.title, "no title");
            if t_dg.len() > 2 {
                let ndg = norm_eq_exec(&t_dg);
                let dist = edit_distance(&ndg, &nrg);
                if dist < 7 {
                    cands.push((dist, d));
                    proof {
                        assert(cands@ =~= pm_cands_eq(*rg, pre1));
                    }
                } else {
                    proof {
                        assert(cands@ =~= pm_cands_eq(*rg, pre1));
                    }
                }
            } else {
                proof {
                    assert(cands@ =~= pm_cands_eq(*rg, pre1));
                }
            }
            d = d + 1;
        }
        proof {
            assert(dgs@.subrange(0, dgs@.len() as int) =~= dgs@);
        }
        match select_first_min(&cands) {
            Some(best) => {
                proof {
                    lemma_first_min(cands@);
                }
                let ghost lbefore = links@;
                let (record, mut more) = link_with_dg(
                    study,
                    rg,
                    &dgs[best.1],
                    chars_of("pattern match"),
                );
                links.push(record);
                ilinks.append(&mut more);
                proof {
                    lemma_direct_empty(study@, *rg, dgs@);
                    lemma_lr_views_push(lbefore, record);
                    assert(lr_views(links@) =~= rg_links_equal(study@, *rg, dgs@));
                    assert(il_views(ilinks@) =~= rg_ilinks_equal(*rg, dgs@));
                }
                (links, ilinks)
            },
            None => {
                proof {
                    lemma_direct_empty(study@, *rg, dgs@);
                    assert(lr_views(links@) =~= rg_links_equal(study@, *rg, dgs@));
                    assert(il_views(ilinks@) =~= rg_ilinks_equal(*rg, dgs@));
                }
                (links, ilinks)
            },
        }
    } else {
        proof {
            lemma_direct_empty(study@, *rg, dgs@);
            assert(lr_views(links@) =~= rg_links_equal(study@, *rg, dgs@));
            assert(il_views(ilinks@) =~= rg_ilinks_equal(*rg, dgs@));
        }
        (links, ilinks)
    }
}

/// Without any direct hit the direct-link sequences are empty.
proof fn lemma_direct_empty(study: Seq<char>, rg: Group, dgs: Seq<Group>)
    requires
        !found_direct(rg, dgs),
    ensures
        direct_links(study, rg, dgs) == Seq::<LinkView>::empty(),
        direct_ilinks(rg, dgs) == Seq::<(i32, i32)>::empty(),
    decreases dgs.len(),
{
    if dgs.len() > 0 {
        assert(!found_direct(rg, dgs.drop_last())) by {
            if found_direct(rg, dgs.drop_last()) {
                let k = choose|k: int|
                    0 <= k < dgs.drop_last().len() && cond_direct(rg, #[trigger] dgs.drop_last()[k]);
                assert(cond_direct(rg, dgs[k]));
            }
        }
        lemma_direct_empty(study, rg, dgs.drop_last());
        assert(!cond_direct(rg, dgs.last()));
        assert(direct_links(study, rg, dgs) =~= Seq::<LinkView>::empty());
        assert(direct_ilinks(rg, dgs) =~= Seq::<(i32, i32)>::empty());
    }
}

/// The containment count is never negative.
proof fn lemma_count_nonneg(rg: Group, dgs: Seq<Group>)
    ensures
        count_contain(rg, dgs) >= 0,
    decreases dgs.len(),
{
    if dgs.len() > 0 {
        lemma_count_nonneg(rg, dgs.drop_last());
    }
}

/// The equal-count branch over all result groups.
#[verifier::loop_isolation(false)]
fn link_equal(study: &Vec<char>, rgs: &Vec<Group>, dgs: &Vec<Group>) -> (r: (
    Vec<LinkRecord>,
    Vec<InterventionLink>,
))
    ensures
        lr_views(r.0@) == equal_links(study@, rgs@, dgs@),
        il_views(r.1@) == equal_ilinks(rgs@, dgs@),
{
    let mut links: Vec<LinkRecord> = Vec::new();
    let mut ilinks: Vec<InterventionLink> = Vec::new();
    let mut k: usize = 0;
    proof {
        assert(rgs@.subrange(0, 0) =~= Seq::<Group>::empty());
    }
    while k < rgs.len()
        invariant
            k <= rgs@.len(),
            lr_views(links@) == equal_links(study@, rgs@.subrange(0, k as int), dgs@),
            il_views(ilinks@) == equal_ilinks(rgs@.subrange(0, k as int), dgs@),
        decreases rgs@.len() - k,
    {
        let ghost pre = rgs@.subrange(0, k as int);
        let ghost pre1 = rgs@.subrange(0, k + 1);
        proof {
            assert(pre1.drop_last() =~= pre);
            assert(pre1.last() == rgs@[k as int]);
        }
        let ghost lbefore = links@;
        let ghost ibefore = ilinks@;
        let (mut ls, mut is) = rg_link_equal(study, &rgs[k], dgs);
        let ghost ladd = ls@;
        let ghost iadd = is@;
        links.append(&mut ls);
        ilinks.append(&mut is);
        proof {
            lemma_lr_views_concat(lbefore, ladd);
            lemma_il_views_concat(ibefore, iadd);
            assert(lr_views(links@) =~= equal_links(study@, pre1, dgs@));
            assert(il_views(ilinks@) =~= equal_ilinks(pre1, dgs@));
        }
        k = k + 1;
    }
    proof {
        assert(rgs@.subrange(0, rgs@.len() as int) =~= rgs@);
    }
    (links, ilinks)
}

/// Mapping to views distributes over concatenation.
pub proof fn lemma_lr_views_concat(a: Seq<LinkRecord>, b: Seq<LinkRecord>)
    ensures
        lr_views(a + b) == lr_views(a) + lr_views(b),
{
    assert(lr_views(a + b) =~= lr_views(a) + lr_views(b));
}

/// The direct-hit links of one result group in the fewer-result-groups
/// branch: every design group with a case-insensitively equal title.
pub open spec fn fewer_rg_links(study: Seq<char>, rg: Group, dgs: Seq<Group>) -> Seq<LinkView>
    decreases dgs.len(),
{
    if dgs.len() == 0 {
        Seq::empty()
    } else {
        fewer_rg_links(study, rg, dgs.drop_last()) + (if spec_eq_ci(
            gtitle(rg),
            gtitle(dgs.last()),
        ) {
            seq![(study, Some(g_view(dgs.last())), g_view(rg), "direct hit fewer result groups"@)]
        } else {
            Seq::<LinkView>::empty()
        })
    }
}

/// The intervention links of those hits.
pub open spec fn fewer_rg_ilinks(rg: Group, dgs: Seq<Group>) -> Seq<(i32, i32)>
    decreases dgs.len(),
{
    if dgs.len() == 0 {
        Seq::empty()
    } else {
        fewer_rg_ilinks(rg, dgs.drop_last()) + (if spec_eq_ci(gtitle(rg), gtitle(dgs.last())) {
            dg_ilinks(rg, dgs.last())
        } else {
            Seq::<(i32, i32)>::empty()
        })
    }
}

/// All links of the fewer-result-groups branch.
pub open spec fn fewer_links(study: Seq<char>, rgs: Seq<Group>, dgs: Seq<Group>) -> Seq<LinkView>
    decreases rgs.len(),
{
    if rgs.len() == 0 {
        Seq::empty()
    } else {
        fewer_links(study, rgs.drop_last(), dgs) + fewer_rg_links(study, rgs.last(), dgs)
    }
}

/// All intervention links of the fewer-result-groups branch.
pub open spec fn fewer_ilinks(rgs: Seq<Group>, dgs: Seq<Group>) -> Seq<(i32, i32)>
    decreases rgs.len(),
{
    if rgs.len() == 0 {
        Seq::empty()
    } else {
        fewer_ilinks(rgs.drop_last(), dgs) + fewer_rg_ilinks(rgs.last(), dgs)
    }
}

/// The fewer-result-groups branch: link every exactly-matching pair.
#[verifier::rlimit(30)]
#[verifier::loop_isolation(false)]
fn link_fewer(study: &Vec<char>, rgs: &Vec<Group>, dgs: &Vec<Group>) -> (r: (
    Vec<LinkRecord>,
    Vec<InterventionLink>,
))
    ensures
        lr_views(r.0@) == fewer_links(study@, rgs@, dgs@),
        il_views(r.1@) == fewer_ilinks(rgs@, dgs@),
{
    let mut links: Vec<LinkRecord> = Vec::new();
    let mut ilinks: Vec<InterventionLink> = Vec::new();
    let mut k: usize = 0;
    proof {
        assert(rgs@.subrange(0, 0) =~= Seq::<Group>::empty());
    }
    while k < rgs.len()
        invariant
            k <= rgs@.len(),
            lr_views(links@) == fewer_links(study@, rgs@.subrange(0, k as int), dgs@),
            il_views(ilinks@) == fewer_ilinks(rgs@.subrange(0, k as int), dgs@),
        decreases rgs@.len() - k,
    {
        let ghost rpre = rgs@.subrange(0, k as int);
        let ghost rpre1 = rgs@.subrange(0, k + 1);
        proof {
            assert(rpre1.drop_last() =~= rpre);
            assert(rpre1.last() == rgs@[k as int]);
            assert(dgs@.subrange(0, 0) =~= Seq::<Group>::empty());
        }
        let rg = &rgs[k];
        let t_rg = title_of(&rg.title, "no title");
        let mut d: usize = 0;
        while d < dgs.len()
            invariant
                d <= dgs@.len(),
                t_rg@ == gtitle(*rg),
                rg == &rgs[k as int],
                k < rgs@.len(),
                rpre == rgs@.subrange(0, k as int),
                lr_views(links@) == fewer_links(study@, rpre, dgs@) + fewer_rg_links(
                    study@,
                    *rg,
                    dgs@.subrange(0, d as int),
                ),
                il_views(ilinks@) == fewer_ilinks(rpre, dgs@) + fewer_rg_ilinks(
                    *rg,
                    dgs@.subrange(0, d as int),
                ),
            decreases dgs@.len() - d,
        {
            let ghost pre = dgs@.subrange(0, d as int);
            let ghost pre1 = dgs@.subrange(0, d + 1);
            proof {
                assert(pre1.drop_last() =~= pre);
                assert(pre1.last() == dgs@[d as int]);
            }
            let dg = &dgs[d];
            let t_dg = title_of(&dg.title, "no title");
            if eq_ci(&t_rg, &t_dg) {
                let ghost lbefore = links@;
                let ghost ibefore = ilinks@;
                let (record, mut more) = link_with_dg(
                    study,
                    rg,
                    dg,
                    chars_of("direct hit fewer result groups"),
                );
                links.push(record);
                let ghost added = more@;
                ilinks.append(&mut more);
                proof {
                    lemma_lr_views_push(lbefore, record);
                    lemma_il_views_concat(ibefore, added);
                    assert(lr_views(links@) =~= fewer_links(study@, rpre, dgs@) + fewer_rg_links(
                        study@,
                        *rg,
                        pre1,
                    ));
                    assert(il_views(ilinks@) =~= fewer_ilinks(rpre, dgs@) + fewer_rg_ilinks(
                        *rg,
                        pre1,
                    ));
                }
            } else {
                proof {
                    assert(lr_views(links@) =~= fewer_links(study@, rpre, dgs@) + fewer_rg_links(
                        study@,
                        *rg,
                        pre1,
                    ));
                    assert(il_views(ilinks@) =~= fewer_ilinks(rpre, dgs@) + fewer_rg_ilinks(
                        *rg,
                        pre1,
                    ));
                }
            }
            d = d + 1;
        }
        proof {
            assert(dgs@.subrange(0, dgs@.len() as int) =~= dgs@);
            assert(lr_views(links@) =~= fewer_links(study@, rpre1, dgs@));
            assert(il_views(ilinks@) =~= fewer_ilinks(rpre1, dgs@));
        }
        k = k + 1;
    }
    proof {
        assert(rgs@.subrange(0, rgs@.len() as int) =~= rgs@);
    }
    (links, ilinks)
}

/// In the one-to-many branch a pair with equal raw titles is skipped by the
/// containment count.
pub open spec fn otm_contain(rg: Group, dg: Group) -> bool {
    &&& !spec_eq_ci(title_or(dg.title, ""@), title_or(rg.title, ""@))
    &&& (spec_contains(title_or(rg.title, ""@), title_or(dg.title, ""@)) || spec_contains(
        title_or(dg.title, ""@),
        title_or(rg.title, ""@),
    ))
}

/// How many design groups the raw containment test accepts.
pub open spec fn count_otm(rg: Group, dgs: Seq<Group>) -> int
    decreases dgs.len(),
{
    if dgs.len() == 0 {
        0
    } else {
        count_otm(rg, dgs.drop_last()) + (if otm_contain(rg, dgs.last()) {
            1int
        } else {
            0int
        })
    }
}

/// The fuzzy candidates of the one-to-many branch: every design group whose
/// placebo status agrees with the result group's, scored by the edit
/// distance of the normalized titles (with the roman-numeral fold).
pub open spec fn pm_cands_otm(rg: Group, dgs: Seq<Group>) -> Seq<(usize, usize)>
    decreases dgs.len(),
{
    if dgs.len() == 0 {
        Seq::empty()
    } else {
        pm_cands_otm(rg, dgs.drop_last()) + (if !placebo_mismatch(
            norm_otm(gtitle(dgs.last())),
            norm_otm(gtitle(rg)),
        ) {
            seq![
                (
                    (damerau_dist(norm_otm(gtitle(dgs.last())), norm_otm(gtitle(rg))) as usize),
                    (dgs.len() - 1) as usize,
                ),
            ]
        } else {
            Seq::<(usize, usize)>::empty()
        })
    }
}

/// The links one result group receives in the one-to-many branch: nothing
/// when exactly one design group passes the containment test (the pair is
/// treated as resolved), else the best-scoring compatible design group.
pub open spec fn rg_links_otm(study: Seq<char>, rg: Group, dgs: Seq<Group>) -> Seq<LinkView> {
    if count_otm(rg, dgs) == 1 {
        Seq::empty()
    } else if pm_cands_otm(rg, dgs).len() > 0 {
        let c = pm_cands_otm(rg, dgs);
        seq![
            (
                study,
                Some(g_view(dgs[c[first_min_idx(c)].1 as int])),
                g_view(rg),
                "pattern match one to many"@,
            ),
        ]
    } else {
        Seq::empty()
    }
}

/// The intervention links of the one-to-many branch for one result group.
pub open spec fn rg_ilinks_otm(rg: Group, dgs: Seq<Group>) -> Seq<(i32, i32)> {
    if count_otm(rg, dgs) == 1 {
        Seq::empty()
    } else if pm_cands_otm(rg, dgs).len() > 0 {
        let c = pm_cands_otm(rg, dgs);
        dg_ilinks(rg, dgs[c[first_min_idx(c)].1 as int])
    } else {
        Seq::empty()
    }
}

/// All links of the one-to-many branch.
pub open spec fn otm_links(study: Seq<char>, rgs: Seq<Group>, dgs: Seq<Group>) -> Seq<LinkView>
    decreases rgs.len(),
{
    if rgs.len() == 0 {
        Seq::empty()
    } else {
        otm_links(study, rgs.drop_last(), dgs) + rg_links_otm(study, rgs.last(), dgs)
    }
}

/// All intervention links of the one-to-many branch.
pub open spec fn otm_ilinks(rgs: Seq<Group>, dgs: Seq<Group>) -> Seq<(i32, i32)>
    decreases rgs.len(),
{
    if rgs.len() == 0 {
        Seq::empty()
    } else {
        otm_ilinks(rgs.drop_last(), dgs) + rg_ilinks_otm(rgs.last(), dgs)
    }
}

/// Match one result group in the one-to-many branch.
#[verifier::rlimit(30)]
#[verifier::loop_isolation(false)]
fn rg_link_otm(study: &Vec<char>, rg: &Group, dgs: &Vec<Group>) -> (r: (
    Vec<LinkRecord>,
    Vec<InterventionLink>,
))
    ensures
        lr_views(r.0@) == rg_links_otm(study@, *rg, dgs@),
        il_views(r.1@) == rg_ilinks_otm(*rg, dgs@),
{
    let mut links: Vec<LinkRecord> = Vec::new();
    let mut ilinks: Vec<InterventionLink> = Vec::new();
    let t_raw = title_of(&rg.title, "");
    let mut cnt: usize = 0;
    let mut d: usize = 0;
    proof {
        assert(dgs@.subrange(0, 0) =~= Seq::<Group>::empty());
    }
    while d < dgs.len()
        invariant
            d <= dgs@.len(),
            t_raw@ == title_or(rg.title, ""@),
            cnt <= d,
            cnt == count_otm(*rg, dgs@.subrange(0, d as int)),
        decreases dgs@.len() - d,
    {
        let ghost pre = dgs@.subrange(0, d as int);
        let ghost pre1 = dgs@.subrange(0, d + 1);
        proof {
            assert(pre1.drop_last() =~= pre);
            assert(pre1.last() == dgs@[d as int]);
            lemma_count_otm_nonneg(*rg, pre);
        }
        let dg = &dgs[d];
        let d_raw = title_of(&dg.title, "");
        if !eq_ci(&d_raw, &t_raw) && (contains_chars(&t_raw, &d_raw) || contains_chars(
            &d_raw,
            &t_raw,
        )) {
            cnt = cnt + 1;
        }
        d = d + 1;
    }
    proof {
        assert(dgs@.subrange(0, dgs@.len() as int) =~= dgs@);
    }
    if cnt == 1 {
        proof {
            assert(lr_views(links@) =~= rg_links_otm(study@, *rg, dgs@));
            assert(il_views(ilinks@) =~= rg_ilinks_otm(*rg, dgs@));
        }
        return (links, ilinks);
    }
    let t_rg = title_of(&rg.title, "no title");
    let nrg = norm_otm_exec(&t_rg);
    let placebo = chars_of("placebo");
    let rg_placebo = contains_ci(&nrg, &placebo);
    let mut cands: Vec<(usize, usize)> = Vec::new();
    let mut d: usize = 0;
    while d < dgs.len()
        invariant
            d <= dgs@.len(),
            nrg@ == norm_otm(gtitle(*rg)),
            placebo@ == "placebo"@,
            rg_placebo == is_placebo(norm_otm(gtitle(*rg))),
            cands@ == pm_cands_otm(*rg, dgs@.subrange(0, d as int)),
            forall|k: int| 0 <= k < cands@.len() ==> (#[trigger] cands@[k]).1 < d,
        decreases dgs@.len() - d,
    {
        let ghost pre = dgs@.subrange(0, d as int);
        let ghost pre1 = dgs@.subrange(0, d + 1);
        proof {
            assert(pre1.drop_last() =~= pre);
            assert(pre1.last() == dgs@[d as int]);
        }
        let dg = &dgs[d];
        let t_dg = title_of(&dg.title, "no title");
        let ndg = norm_otm_exec(&t_dg);
        let dg_placebo = contains_ci(&ndg, &placebo);
        if dg_placebo == rg_placebo {
            let dist = edit_distance(&ndg, &nrg);
            cands.push((dist, d));
            proof {
                assert(cands@ =~= pm_cands_otm(*rg, pre1));
            }
        } else {
            proof {
                assert(cands@ =~= pm_cands_otm(*rg, pre1));
            }
        }
        d = d + 1;
    }
    proof {
        assert(dgs@.subrange(0, dgs@.len() as int) =~= dgs@);
    }
    match select_first_min(&cands) {
        Some(best) => {
            proof {
                lemma_first_min(cands@);
            }
            let ghost lbefore = links@;
            let (record, mut more) = link_with_dg(
                study,
                rg,
                &dgs[best.1],
                chars_of("pattern match one to many"),
            );
            links.push(record);
            ilinks.append(&mut more);
            proof {
                lemma_lr_views_push(lbefore, record);
                assert(lr_views(links@) =~= rg_links_otm(study@, *rg, dgs@));
                assert(il_views(ilinks@) =~= rg_ilinks_otm(*rg, dgs@));
            }
            (links, ilinks)
        },
        None => {
            proof {
                assert(lr_views(links@) =~= rg_links_otm(study@, *rg, dgs@));
                assert(il_views(ilinks@) =~= rg_ilinks_otm(*rg, dgs@));
            }
            (links, ilinks)
        },
    }
}

/// The raw containment count is never negative.
proof fn lemma_count_otm_nonneg(rg: Group, dgs: Seq<Group>)
    ensures
        count_otm(rg, dgs) >= 0,
    decreases dgs.len(),
{
    if dgs.len() > 0 {
        lemma_count_otm_nonneg(rg, dgs.drop_last());
    }
}

/// The one-to-many branch over all result groups.
#[verifier::loop_isolation(false)]
fn link_otm(study: &Vec<char>, rgs: &Vec<Group>, dgs: &Vec<Group>) -> (r: (
    Vec<LinkRecord>,
    Vec<InterventionLink>,
))
    ensures
        lr_views(r.0@) == otm_links(study@, rgs@, dgs@),
        il_views(r.1@) == otm_ilinks(rgs@, dgs@),
{
    let mut links: Vec<LinkRecord> = Vec::new();
    let mut ilinks: Vec<InterventionLink> = Vec::new();
    let mut k: usize = 0;
    proof {
        assert(rgs@.subrange(0, 0) =~= Seq::<Group>::empty());
    }
    while k < rgs.len()
        invariant
            k <= rgs@.len(),
            lr_views(links@) == otm_links(study@, rgs@.subrange(0, k as int), dgs@),
            il_views(ilinks@) == otm_ilinks(rgs@.subrange(0, k as int), dgs@),
        decreases rgs@.len() - k,
    {
        let ghost pre = rgs@.subrange(0, k as int);
        let ghost pre1 = rgs@.subrange(0, k + 1);
        proof {
            assert(pre1.drop_last() =~= pre);
            assert(pre1.last() == rgs@[k as int]);
        }
        let ghost lbefore = links@;
        let ghost ibefore = ilinks@;
        let (mut ls, mut is) = rg_link_otm(study, &rgs[k], dgs);
        let ghost ladd = ls@;
        let ghost iadd = is@;
        links.append(&mut ls);
        ilinks.append(&mut is);
        proof {
            lemma_lr_views_concat(lbefore, ladd);
            lemma_il_views_concat(ibefore, iadd);
            assert(lr_views(links@) =~= otm_links(study@, pre1, dgs@));
            assert(il_views(ilinks@) =~= otm_ilinks(pre1, dgs@));
        }
        k = k + 1;
    }
    proof {
        assert(rgs@.subrange(0, rgs@.len() as int) =~= rgs@);
    }
    (links, ilinks)
}

/// The intervention links of the single-group-assignment rule: every
/// intervention of the study attaches to every result group.
pub open spec fn sga_ilinks(rgs: Seq<Group>, ivs: Seq<Intervention>) -> Seq<(i32, i32)>
    decreases rgs.len(),
{
    if rgs.len() == 0 {
        Seq::empty()
    } else {
        sga_ilinks(rgs.drop_last(), ivs) + all_iv_links(rgs.last(), ivs)
    }
}

/// The study's design model reads "single group assignment", up to case; a
/// missing model reads as an unknown sentinel.
pub open spec fn model_is_sga(m: Option<Seq<char>>) -> bool {
    spec_eq_ci(
        match m {
            Some(t) => t,
            None => "unknown"@,
        },
        "single group assignment"@,
    )
}

/// All link records one study produces.
pub open spec fn study_links(study: Seq<char>, rgs: Seq<Group>, dgs: Seq<Group>) -> Seq<LinkView> {
    let kept = filter_rgs(rgs);
    if dgs.len() == 0 {
        nodg_links(study, kept)
    } else if dgs.len() == 1 {
        one_dg_links(study, kept, dgs[0])
    } else if kept.len() == dgs.len() {
        equal_links(study, kept, dgs)
    } else if kept.len() < dgs.len() {
        fewer_links(study, kept, dgs)
    } else {
        otm_links(study, kept, dgs)
    }
}

/// All intervention links one study produces, the single-group-assignment
/// rule first.
pub open spec fn study_ilinks(
    model: Option<Seq<char>>,
    rgs: Seq<Group>,
    dgs: Seq<Group>,
    ivs: Seq<Intervention>,
) -> Seq<(i32, i32)> {
    let kept = filter_rgs(rgs);
    (if model_is_sga(model) {
        sga_ilinks(kept, ivs)
    } else {
        Seq::<(i32, i32)>::empty()
    }) + (if dgs.len() == 0 {
        nodg_ilinks(kept, ivs)
    } else if dgs.len() == 1 {
        one_dg_ilinks(kept, dgs[0])
    } else if kept.len() == dgs.len() {
        equal_ilinks(kept, dgs)
    } else if kept.len() < dgs.len() {
        fewer_ilinks(kept, dgs)
    } else {
        otm_ilinks(kept, dgs)
    })
}

/// Link one study's result groups to its design groups and interventions.
/// Cumulative pseudo-groups are dropped first; the single-group-assignment
/// rule applies independently of the count-topology branch.
#[verifier::rlimit(30)]
#[verifier::loop_isolation(false)]
pub fn link_study(
    study: &Vec<char>,
    model: &Option<Vec<char>>,
    rgs: Vec<Group>,
    dgs: &Vec<Group>,
    ivs: &Vec<Intervention>,
) -> (r: (Vec<LinkRecord>, Vec<InterventionLink>))
    ensures
        lr_views(r.0@) == study_links(study@, rgs@, dgs@),
        il_views(r.1@) == study_ilinks(opt_view(*model), rgs@, dgs@, ivs@),
{
    let ghost rgs0 = rgs@;
    let kept = filter_cumulative(rgs);
    let mut ilinks: Vec<InterventionLink> = Vec::new();
    let model_t = title_of(model, "unknown");
    let sga_pat = chars_of("single group assignment");
    if eq_ci(&model_t, &sga_pat) {
        let mut k: usize = 0;
        proof {
            assert(kept@.subrange(0, 0) =~= Seq::<Group>::empty());
        }
        while k < kept.len()
            invariant
                k <= kept@.len(),
                il_views(ilinks@) == sga_ilinks(kept@.subrange(0, k as int), ivs@),
            decreases kept@.len() - k,
        {
            let ghost pre = kept@.subrange(0, k as int);
            let ghost pre1 = kept@.subrange(0, k + 1);
            proof {
                assert(pre1.drop_last() =~= pre);
                assert(pre1.last() == kept@[k as int]);
            }
            let ghost before = ilinks@;
            let mut add = attach_all_exec(&kept[k], ivs);
            let ghost added = add@;
            ilinks.append(&mut add);
            proof {
                lemma_il_views_concat(before, added);
                assert(il_views(ilinks@) =~= sga_ilinks(pre1, ivs@));
            }
            k = k + 1;
        }
        proof {
            assert(kept@.subrange(0, kept@.len() as int) =~= kept@);
        }
    }
    let ghost sga_part = ilinks@;
    let (mut links, mut branch_ilinks) = if dgs.len() == 0 {
        link_nodg(study, &kept, ivs)
    } else if dgs.len() == 1 {
        link_one_dg(study, &kept, &dgs[0])
    } else if kept.len() == dgs.len() {
        link_equal(study, &kept, dgs)
    } else if kept.len() < dgs.len() {
        link_fewer(study, &kept, dgs)
    } else {
        link_otm(study, &kept, dgs)
    };
    let ghost badd = branch_ilinks@;
    ilinks.append(&mut branch_ilinks);
    proof {
        lemma_il_views_concat(sga_part, badd);
        assert(il_views(ilinks@) =~= study_ilinks(opt_view(*model), rgs0, dgs@, ivs@));
    }
    (links, ilinks)
}

/// With no design groups and exactly one result group, every one of the
/// study's interventions is linked to that group, and no link record of the
/// study names a design group.
pub proof fn lemma_nodg_sole_arm(
    study: Seq<char>,
    model: Option<Seq<char>>,
    rgs: Seq<Group>,
    dgs: Seq<Group>,
    ivs: Seq<Intervention>,
    rid: i32,
)
    requires
        dgs.len() == 0,
        rgs.len() == 1,
        rgs[0].id == Some(rid),
    ensures
        forall|k: int|
            0 <= k < ivs.len() ==> study_ilinks(model, rgs, dgs, ivs).contains(
                (rid, #[trigger] ivs[k].id),
            ),
        forall|k: int|
            0 <= k < study_links(study, rgs, dgs).len() ==> (#[trigger] study_links(
                study,
                rgs,
                dgs,
            )[k]).1 is None,
{
    let kept = filter_rgs(rgs);
    assert(kept == rgs);
    let branch = nodg_ilinks(kept, ivs);
    assert(branch == all_iv_links(rgs[0], ivs));
    let sga = if model_is_sga(model) {
        sga_ilinks(kept, ivs)
    } else {
        Seq::<(i32, i32)>::empty()
    };
    let full = study_ilinks(model, rgs, dgs, ivs);
    assert(full == sga + branch);
    assert forall|k: int| 0 <= k < ivs.len() implies full.contains(
        (rid, #[trigger] ivs[k].id),
    ) by {
        assert(branch[k] == (rid, ivs[k].id));
        assert(full[sga.len() + k] == (rid, ivs[k].id));
    }
}

/// Every fuzzy candidate of the one-to-many branch names a design group in
/// range whose placebo status agrees with the result group's.
pub proof fn lemma_otm_cands_compatible(rg: Group, dgs: Seq<Group>)
    requires
        dgs.len() <= usize::MAX,
    ensures
        forall|k: int|
            0 <= k < pm_cands_otm(rg, dgs).len() ==> (#[trigger] pm_cands_otm(rg, dgs)[k]).1
                < dgs.len() && !placebo_mismatch(
                norm_otm(gtitle(dgs[pm_cands_otm(rg, dgs)[k].1 as int])),
                norm_otm(gtitle(rg)),
            ),
    decreases dgs.len(),
{
    if dgs.len() > 0 {
        lemma_otm_cands_compatible(rg, dgs.drop_last());
        let pre = pm_cands_otm(rg, dgs.drop_last());
        let cur = pm_cands_otm(rg, dgs);
        assert forall|k: int|
            0 <= k < cur.len() implies (#[trigger] cur[k]).1 < dgs.len() && !placebo_mismatch(
            norm_otm(gtitle(dgs[cur[k].1 as int])),
            norm_otm(gtitle(rg)),
        ) by {
            if k < pre.len() {
                assert(cur[k] == pre[k]);
                assert(dgs.drop_last()[pre[k].1 as int] == dgs[pre[k].1 as int]);
            } else {
                assert(cur[k].1 == dgs.len() - 1);
                assert(dgs.last() == dgs[dgs.len() - 1]);
            }
        }
    }
}

/// Placebo disqualification: a design group whose normalized title
/// disagrees with the result group's on mentioning placebo is never the
/// selected fuzzy match, however small its distance.
pub proof fn lemma_placebo_never_selected(study: Seq<char>, rg: Group, dgs: Seq<Group>, j: int)
    requires
        dgs.len() <= usize::MAX,
        0 <= j < dgs.len(),
        placebo_mismatch(norm_otm(gtitle(dgs[j])), norm_otm(gtitle(rg))),
    ensures
        rg_links_otm(study, rg, dgs).len() > 0 ==> exists|w: int|
            0 <= w < dgs.len() && w != j && (#[trigger] dgs[w]) == dgs[w] && rg_links_otm(
                study,
                rg,
                dgs,
            )[0].1 == Some(g_view(dgs[w])) && !placebo_mismatch(
                norm_otm(gtitle(dgs[w])),
                norm_otm(gtitle(rg)),
            ),
{
    let c = pm_cands_otm(rg, dgs);
    if rg_links_otm(study, rg, dgs).len() > 0 {
        lemma_first_min(c);
        lemma_otm_cands_compatible(rg, dgs);
        let w = c[first_min_idx(c)].1 as int;
        assert(0 <= w < dgs.len());
        assert(!placebo_mismatch(norm_otm(gtitle(dgs[w])), norm_otm(gtitle(rg))));
        assert(w != j);
        assert(rg_links_otm(study, rg, dgs)[0].1 == Some(g_view(dgs[w])));
    }
}

/// With exactly one design group, a result group whose title mentions
/// placebo links to the explicit placeholder, tagged accordingly.
pub proof fn lemma_one_dg_placebo(study: Seq<char>, rgs: Seq<Group>, dgs: Seq<Group>, k: int)
    requires
        dgs.len() == 1,
        0 <= k < filter_rgs(rgs).len(),
        is_placebo(gtitle(filter_rgs(rgs)[k])),
    ensures
        study_links(study, rgs, dgs).len() == filter_rgs(rgs).len(),
        (study_links(study, rgs, dgs)[k]).1 is None,
        (study_links(study, rgs, dgs)[k]).3 == "only dg but this is placebo"@,
{
    let kept = filter_rgs(rgs);
    assert(study_links(study, rgs, dgs) == one_dg_links(study, kept, dgs[0]));
}

/// With exactly one design group, a result group whose title does not
/// mention placebo links to that design group, tagged accordingly.
pub proof fn lemma_one_dg_plain(study: Seq<char>, rgs: Seq<Group>, dgs: Seq<Group>, k: int)
    requires
        dgs.len() == 1,
        0 <= k < filter_rgs(rgs).len(),
        !is_placebo(gtitle(filter_rgs(rgs)[k])),
    ensures
        study_links(study, rgs, dgs).len() == filter_rgs(rgs).len(),
        (study_links(study, rgs, dgs)[k]).1 == Some(g_view(dgs[0])),
        (study_links(study, rgs, dgs)[k]).3 == "only one dg"@,
{
    let kept = filter_rgs(rgs);
    assert(study_links(study, rgs, dgs) == one_dg_links(study, kept, dgs[0]));
}

} // verus!
