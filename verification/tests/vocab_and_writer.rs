use trial_linkage::text::chars_of;
use trial_linkage::vocab::{
    SourceRow, VocabTerm, apply_strip_exec, clean_ae_exec, get_ttys, map_reported_terms,
    map_terms, match_vocab, term_match,
};
use trial_linkage::writer::{
    description_insert_stmt, drug_insert_stmt, drug_strip_stmts_exec, escape_quotes, fmt_i64,
    intervention_insert_stmt, meddra_insert_stmt, values_clause,
};
use trial_linkage::report::{msg, print_end};

fn cv(s: &str) -> Vec<char> {
    chars_of(s)
}

fn term(name: &str, code: i64) -> VocabTerm {
    VocabTerm { name: cv(name), code }
}

fn row(id: i64, clean: &str) -> SourceRow {
    SourceRow { id, clean: cv(clean) }
}

fn cs(v: &Vec<char>) -> String {
    v.iter().collect()
}

#[test]
fn term_match_needs_the_padded_name() {
    let t = term("aspirin", 100);
    let rows = vec![row(1, " aspirin 100mg "), row(2, " tylenol "), row(3, "aspirin")];
    let (links, ids) = term_match(&t, &rows);
    assert_eq!(links, vec![(1, 100)]);
    assert_eq!(ids, vec![1]);
}

#[test]
fn match_vocab_collects_links_and_strips() {
    let vocab = vec![term("aspirin", 100), term("tylenol", 200)];
    let rows = vec![row(1, " aspirin x "), row(2, " tylenol y "), row(3, " aspirin z ")];
    let (links, strips) = match_vocab(&vocab, &rows);
    assert_eq!(links, vec![(1, 100), (3, 100), (2, 200)]);
    assert_eq!(strips.len(), 2);
    assert_eq!(strips[0].name, cv("aspirin"));
    assert_eq!(strips[0].ids, vec![1, 3]);
    assert_eq!(strips[1].name, cv("tylenol"));
    assert_eq!(strips[1].ids, vec![2]);
}

#[test]
fn apply_strip_removes_only_named_rows() {
    let rows = vec![row(1, " aspirin x "), row(2, " aspirin y ")];
    let out = apply_strip_exec(rows, &cv("aspirin"), &vec![1]);
    assert_eq!(out[0].clean, cv("  x "));
    assert_eq!(out[1].clean, cv(" aspirin y "));
}

#[test]
fn map_terms_finds_several_concepts_in_one_text() {
    let vocab = vec![term("aspirin", 100), term("caffeine", 300)];
    let rows = vec![row(1, " aspirin caffeine ")];
    let (links, left) = map_terms(&vocab, rows);
    assert_eq!(links, vec![(1, 100), (1, 300)]);
    assert_eq!(left[0].clean, cv("   "));
}

#[test]
fn converged_pass_stays_converged() {
    let vocab = vec![term("aspirin", 100)];
    let rows = vec![row(1, " tylenol ")];
    let (links, strips) = match_vocab(&vocab, &rows);
    assert!(links.is_empty());
    assert!(strips.is_empty());
    // Nothing was stripped, so an extra pass over the same rows yields
    // nothing again.
    let (links2, strips2) = match_vocab(&vocab, &rows);
    assert!(links2.is_empty());
    assert!(strips2.is_empty());
}

#[test]
fn clean_ae_strips_filler_tokens() {
    assert_eq!(clean_ae_exec(&cv("other pain nos")), cv(" pain"));
    assert_eq!(clean_ae_exec(&cv("rash  specify")), cv("rash "));
    assert_eq!(clean_ae_exec(&cv("headache")), cv("headache"));
}

#[test]
fn reported_terms_map_to_the_nearest_standard_term() {
    let terms = vec![cv("headach"), cv("zzzqqq")];
    let pts = vec![term("nausea", 7), term("headache", 9)];
    let mapped = map_reported_terms(&terms, &pts, 1);
    assert_eq!(mapped.len(), 1);
    assert_eq!(mapped[0].original, cv("headach"));
    assert_eq!(mapped[0].standard, cv("headache"));
    assert_eq!(mapped[0].pt_code, 9);
}

#[test]
fn ttys_run_from_most_precise_to_brand() {
    let t = get_ttys();
    assert_eq!(t.len(), 3);
    assert_eq!(t[0].0, cv("PIN"));
    assert_eq!(t[1].0, cv("IN"));
    assert_eq!(t[2].0, cv("BN"));
    assert_eq!(t[2].1, cv("Brand Names"));
}

#[test]
fn empty_accumulators_emit_nothing() {
    let pairs: Vec<(i64, i64)> = Vec::new();
    assert!(values_clause(&pairs).is_none());
    assert!(intervention_insert_stmt(&pairs).is_none());
    assert!(drug_insert_stmt(&pairs).is_none());
    assert!(description_insert_stmt(&pairs).is_none());
    assert!(meddra_insert_stmt(&Vec::new()).is_none());
}

#[test]
fn value_lists_never_end_in_a_separator() {
    let pairs: Vec<(i64, i64)> = vec![(1, 2), (3, 4), (5, 6)];
    let v = values_clause(&pairs).unwrap();
    assert_eq!(cs(&v), "(1,2),(3,4),(5,6)");
    assert_eq!(*v.last().unwrap(), ')');
}

#[test]
fn insert_statements_wrap_the_value_list() {
    let pairs: Vec<(i64, i64)> = vec![(10, 42)];
    let s = intervention_insert_stmt(&pairs).unwrap();
    assert_eq!(
        cs(&s),
        "INSERT INTO ctgov.result_group_intervention(rg_id,intervention_id) VALUES (10,42);"
    );
    let d = drug_insert_stmt(&pairs).unwrap();
    assert_eq!(cs(&d), "INSERT INTO ctgov.drug_mapping_rxcui(drug_mapping_id,rxcui) VALUES (10,42);");
}

#[test]
fn meddra_rows_escape_single_quotes() {
    let rows = vec![trial_linkage::vocab::MappedTerm {
        original: cv("crohn's flare"),
        standard: cv("crohn's disease"),
        pt_code: 5,
    }];
    let s = meddra_insert_stmt(&rows).unwrap();
    assert_eq!(
        cs(&s),
        "INSERT INTO ctgov.rg_meddra_map(original, standard, pt_code) VALUES ('crohn''s flare', 'crohn''s disease', 5);"
    );
}

#[test]
fn strip_statements_name_rows_by_id() {
    let groups = vec![trial_linkage::vocab::StripGroup { name: cv("aspirin"), ids: vec![1, 3] }];
    let s = drug_strip_stmts_exec(&groups);
    assert_eq!(
        cs(&s),
        "UPDATE ctgov.drug_mapping SET clean = replace(clean, 'aspirin', '') WHERE id IN (1,3);"
    );
}

#[test]
fn escaping_doubles_quotes() {
    assert_eq!(escape_quotes(&cv("don't")), cv("don''t"));
    assert_eq!(escape_quotes(&cv("plain")), cv("plain"));
}

#[test]
fn numbers_render_in_decimal() {
    assert_eq!(cs(&fmt_i64(0)), "0");
    assert_eq!(cs(&fmt_i64(-5)), "-5");
    assert_eq!(cs(&fmt_i64(1234567890123)), "1234567890123");
    assert_eq!(cs(&fmt_i64(i64::MIN)), "-9223372036854775808");
}

#[test]
fn msg_names_the_failed_statement() {
    assert_eq!(cs(&msg("create_table")), "Error executing create_table");
}

#[test]
fn run_summary_breaks_down_elapsed_time() {
    assert_eq!(
        cs(&print_end(3661)),
        "Having feasted for 1 hours 1 minutes 1 seconds, Dracula now goes back to sleep"
    );
    assert_eq!(
        cs(&print_end(0)),
        "Having feasted for 0 hours 0 minutes 0 seconds, Dracula now goes back to sleep"
    );
}
