use trial_linkage::ranker::select_first_min;
use trial_linkage::record::{parse_i32_chars, parse_intervention, parse_interventions, split_chars};
use trial_linkage::text::chars_of;

fn cv(s: &str) -> Vec<char> {
    chars_of(s)
}

#[test]
fn ranker_picks_first_of_minimal_distance() {
    let cands: Vec<(usize, usize)> = vec![(3, 0), (1, 1), (1, 2), (5, 3)];
    assert_eq!(select_first_min(&cands), Some((1, 1)));
}

#[test]
fn ranker_empty_yields_none() {
    let cands: Vec<(usize, usize)> = Vec::new();
    assert_eq!(select_first_min(&cands), None);
}

#[test]
fn ranker_minimum_is_never_beaten() {
    let cands: Vec<(usize, usize)> = vec![(9, 0), (4, 1), (7, 2), (4, 3), (6, 4)];
    let best = select_first_min(&cands).unwrap();
    assert_eq!(best, (4, 1));
    for c in &cands {
        assert!(best.0 <= c.0);
    }
}

#[test]
fn parse_i32_accepts_plain_numbers() {
    assert_eq!(parse_i32_chars(&cv("42")), 42);
    assert_eq!(parse_i32_chars(&cv("-7")), -7);
    assert_eq!(parse_i32_chars(&cv("+5")), 5);
    assert_eq!(parse_i32_chars(&cv("0")), 0);
}

#[test]
fn parse_i32_defaults_malformed_input_to_zero() {
    assert_eq!(parse_i32_chars(&cv("")), 0);
    assert_eq!(parse_i32_chars(&cv("abc")), 0);
    assert_eq!(parse_i32_chars(&cv("12x")), 0);
    assert_eq!(parse_i32_chars(&cv("-")), 0);
    assert_eq!(parse_i32_chars(&cv("2147483648")), 0);
    assert_eq!(parse_i32_chars(&cv("99999999999999999999")), 0);
}

#[test]
fn parse_i32_covers_the_32_bit_bounds() {
    assert_eq!(parse_i32_chars(&cv("2147483647")), 2147483647);
    assert_eq!(parse_i32_chars(&cv("-2147483648")), -2147483648);
    assert_eq!(parse_i32_chars(&cv("-2147483649")), 0);
}

#[test]
fn split_keeps_every_part() {
    let parts = split_chars(&cv("a || 1 ||| b || 2"), &cv(" ||| "));
    assert_eq!(parts.len(), 2);
    assert_eq!(parts[0], cv("a || 1"));
    assert_eq!(parts[1], cv("b || 2"));
    let single = split_chars(&cv("plain"), &cv(" ||| "));
    assert_eq!(single.len(), 1);
    assert_eq!(single[0], cv("plain"));
}

#[test]
fn parse_intervention_reads_name_and_id() {
    let iv = parse_intervention(&cv("Aspirin || 12"));
    assert_eq!(iv.name, cv("Aspirin"));
    assert_eq!(iv.id, 12);
}

#[test]
fn parse_intervention_defaults_on_malformed_entries() {
    let iv = parse_intervention(&cv("Aspirin"));
    assert_eq!(iv.name, cv("Aspirin"));
    assert_eq!(iv.id, 0);
    let iv2 = parse_intervention(&cv("Aspirin || twelve"));
    assert_eq!(iv2.id, 0);
}

#[test]
fn parse_interventions_reads_every_entry() {
    let src = Some(cv("Aspirin || 12 ||| Placebo || 3"));
    let ivs = parse_interventions(&src).unwrap();
    assert_eq!(ivs.len(), 2);
    assert_eq!(ivs[0].name, cv("Aspirin"));
    assert_eq!(ivs[0].id, 12);
    assert_eq!(ivs[1].name, cv("Placebo"));
    assert_eq!(ivs[1].id, 3);
}

#[test]
fn parse_interventions_rejects_empty_sources() {
    assert!(parse_interventions(&None).is_none());
    assert!(parse_interventions(&Some(cv(""))).is_none());
    assert!(parse_interventions(&Some(cv(" || 5"))).is_none());
}
