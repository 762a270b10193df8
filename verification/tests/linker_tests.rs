use trial_linkage::linker::link_study;
use trial_linkage::record::{Group, Intervention};
use trial_linkage::text::chars_of;

fn cv(s: &str) -> Vec<char> {
    chars_of(s)
}

fn group(id: Option<i32>, title: &str) -> Group {
    Group { id, title: Some(cv(title)), description: None, intervention: None }
}

fn iv(id: i32, name: &str) -> Intervention {
    Intervention { id, name: cv(name) }
}

#[test]
fn no_design_groups_sole_arm_takes_every_intervention() {
    let study = cv("NCT001");
    let rgs = vec![group(Some(10), "Treated")];
    let dgs: Vec<Group> = Vec::new();
    let ivs = vec![iv(1, "Aspirin"), iv(2, "Caffeine")];
    let (links, ilinks) = link_study(&study, &None, rgs, &dgs, &ivs);
    assert_eq!(links.len(), 1);
    assert!(links[0].design.is_none());
    assert_eq!(links[0].method, cv("no design groups"));
    assert_eq!(links[0].result.id, Some(10));
    let pairs: Vec<(i32, i32)> = ilinks.iter().map(|l| (l.rg_id, l.intervention_id)).collect();
    assert_eq!(pairs, vec![(10, 1), (10, 2)]);
}

#[test]
fn no_design_groups_matches_interventions_by_name() {
    let study = cv("NCT002");
    let rgs = vec![group(Some(1), "Aspirin arm"), group(Some(2), "Caffeine arm")];
    let dgs: Vec<Group> = Vec::new();
    let ivs = vec![iv(7, "Aspirin"), iv(8, "Caffeine")];
    let (links, ilinks) = link_study(&study, &None, rgs, &dgs, &ivs);
    assert_eq!(links.len(), 1);
    let pairs: Vec<(i32, i32)> = ilinks.iter().map(|l| (l.rg_id, l.intervention_id)).collect();
    assert_eq!(pairs, vec![(1, 7), (2, 8)]);
}

#[test]
fn only_dg_placebo_arm_links_to_the_placeholder() {
    let study = cv("NCT003");
    let rgs = vec![group(Some(5), "Placebo Arm")];
    let dgs = vec![group(Some(9), "Treatment")];
    let ivs: Vec<Intervention> = Vec::new();
    let (links, ilinks) = link_study(&study, &None, rgs, &dgs, &ivs);
    assert_eq!(links.len(), 1);
    assert!(links[0].design.is_none());
    assert_eq!(links[0].method, cv("only dg but this is placebo"));
    assert!(ilinks.is_empty());
}

#[test]
fn only_dg_plain_arm_links_to_it() {
    let study = cv("NCT004");
    let rgs = vec![group(Some(5), "Treated")];
    let dgs = vec![group(Some(9), "Treatment")];
    let ivs: Vec<Intervention> = Vec::new();
    let (links, _) = link_study(&study, &None, rgs, &dgs, &ivs);
    assert_eq!(links.len(), 1);
    assert_eq!(links[0].design.as_ref().unwrap().id, Some(9));
    assert_eq!(links[0].method, cv("only one dg"));
}

#[test]
fn equal_counts_pair_by_name() {
    let study = cv("NCT005");
    let rgs = vec![group(Some(1), "Drug A"), group(Some(2), "Placebo")];
    let dgs = vec![group(Some(11), "Drug A"), group(Some(12), "Placebo")];
    let ivs: Vec<Intervention> = Vec::new();
    let (links, _) = link_study(&study, &None, rgs, &dgs, &ivs);
    assert_eq!(links.len(), 2);
    assert_eq!(links[0].method, cv("direct hit"));
    assert_eq!(links[1].method, cv("direct hit"));
    assert_eq!(links[0].result.id, Some(1));
    assert_eq!(links[0].design.as_ref().unwrap().id, Some(11));
    assert_eq!(links[1].result.id, Some(2));
    assert_eq!(links[1].design.as_ref().unwrap().id, Some(12));
}

#[test]
fn equal_counts_fall_back_to_edit_distance() {
    let study = cv("NCT006");
    let rgs = vec![group(Some(1), "Dose 10mg"), group(Some(2), "Dose 20mg")];
    let dgs = vec![group(Some(11), "Dose 10 mg"), group(Some(12), "Dose 20 mg")];
    let ivs: Vec<Intervention> = Vec::new();
    let (links, _) = link_study(&study, &None, rgs, &dgs, &ivs);
    // Containment of the shorter title in the longer is not symmetric here,
    // so the fuzzy phase decides; both pairs are one edit apart.
    assert_eq!(links.len(), 2);
    assert_eq!(links[0].result.id, Some(1));
    assert_eq!(links[0].design.as_ref().unwrap().id, Some(11));
    assert_eq!(links[1].design.as_ref().unwrap().id, Some(12));
}

#[test]
fn cumulative_groups_are_dropped_from_matching() {
    let study = cv("NCT007");
    let rgs = vec![group(Some(1), "Total"), group(Some(2), "Treated")];
    let dgs = vec![group(Some(9), "Treatment")];
    let ivs: Vec<Intervention> = Vec::new();
    let (links, _) = link_study(&study, &None, rgs, &dgs, &ivs);
    assert_eq!(links.len(), 1);
    assert_eq!(links[0].result.id, Some(2));
}

#[test]
fn fewer_result_groups_link_every_exact_pair() {
    let study = cv("NCT008");
    let rgs = vec![group(Some(1), "Arm A")];
    let dgs = vec![group(Some(11), "arm a"), group(Some(12), "Arm B"), group(Some(13), "ARM A")];
    let ivs: Vec<Intervention> = Vec::new();
    let (links, _) = link_study(&study, &None, rgs, &dgs, &ivs);
    assert_eq!(links.len(), 2);
    assert_eq!(links[0].method, cv("direct hit fewer result groups"));
    assert_eq!(links[0].design.as_ref().unwrap().id, Some(11));
    assert_eq!(links[1].design.as_ref().unwrap().id, Some(13));
}

#[test]
fn placebo_mismatch_disqualifies_the_nearer_candidate() {
    let study = cv("NCT009");
    // More result groups than design groups: the one-to-many branch.
    let rgs = vec![
        group(Some(1), "placebo aa"),
        group(Some(2), "unrelated one"),
        group(Some(3), "unrelated two"),
    ];
    // "xlacebo aa" is one edit away but lacks "placebo"; "placebo zz" is
    // two edits away and keeps it.
    let dgs = vec![group(Some(11), "xlacebo aa"), group(Some(12), "placebo zz")];
    let ivs: Vec<Intervention> = Vec::new();
    let (links, _) = link_study(&study, &None, rgs, &dgs, &ivs);
    let first = links.iter().find(|l| l.result.id == Some(1)).unwrap();
    assert_eq!(first.method, cv("pattern match one to many"));
    assert_eq!(first.design.as_ref().unwrap().id, Some(12));
}

#[test]
fn single_group_assignment_attaches_all_interventions() {
    let study = cv("NCT010");
    let rgs = vec![group(Some(1), "Everyone")];
    let dgs = vec![group(Some(9), "Whole cohort")];
    let ivs = vec![iv(5, "Aspirin")];
    let model = Some(cv("Single Group Assignment"));
    let (_, ilinks) = link_study(&study, &model, rgs, &dgs, &ivs);
    let pairs: Vec<(i32, i32)> = ilinks.iter().map(|l| (l.rg_id, l.intervention_id)).collect();
    assert!(pairs.contains(&(1, 5)));
}

#[test]
fn design_group_interventions_follow_a_direct_hit() {
    let study = cv("NCT011");
    let rgs = vec![group(Some(1), "Arm A")];
    let mut dg = group(Some(11), "Arm A");
    dg.intervention = Some(vec![iv(70, "Aspirin"), iv(71, "Caffeine")]);
    let dgs = vec![dg];
    let ivs: Vec<Intervention> = Vec::new();
    let (links, ilinks) = link_study(&study, &None, rgs, &dgs, &ivs);
    assert_eq!(links.len(), 1);
    assert_eq!(links[0].method, cv("only one dg"));
    let pairs: Vec<(i32, i32)> = ilinks.iter().map(|l| (l.rg_id, l.intervention_id)).collect();
    assert_eq!(pairs, vec![(1, 70), (1, 71)]);
}

#[test]
fn empty_result_groups_produce_nothing() {
    let study = cv("NCT012");
    let rgs: Vec<Group> = Vec::new();
    let dgs: Vec<Group> = Vec::new();
    let ivs = vec![iv(1, "Aspirin")];
    let (links, ilinks) = link_study(&study, &None, rgs, &dgs, &ivs);
    assert!(links.is_empty());
    assert!(ilinks.is_empty());
}

#[test]
fn short_titles_skip_the_fuzzy_phase() {
    let study = cv("NCT013");
    // Equal counts; no exact or containment hit; the two-character titles
    // keep the result groups out of the edit-distance fallback.
    let rgs = vec![group(Some(1), "qq"), group(Some(2), "xx")];
    let dgs = vec![group(Some(11), "zzzz"), group(Some(12), "yyyy")];
    let ivs: Vec<Intervention> = Vec::new();
    let (links, _) = link_study(&study, &None, rgs, &dgs, &ivs);
    assert!(links.is_empty());
}

#[test]
fn groups_without_identifier_are_never_link_targets() {
    let study = cv("NCT014");
    let rgs = vec![group(None, "Treated")];
    let mut dg = group(Some(9), "Treated");
    dg.intervention = Some(vec![iv(70, "Aspirin")]);
    let dgs = vec![dg];
    let ivs: Vec<Intervention> = Vec::new();
    let (links, ilinks) = link_study(&study, &None, rgs, &dgs, &ivs);
    assert_eq!(links.len(), 1);
    assert!(ilinks.is_empty());
}
