use trial_linkage::text::{chars_of, contains_chars, contains_ci, eq_ci, replace_chars};
use trial_linkage::dist::{edit_distance, passes_fast_filter, sift3_doubled};

fn cv(s: &str) -> Vec<char> {
    chars_of(s)
}

#[test]
fn chars_of_collects() {
    assert_eq!(cv("abc"), vec!['a', 'b', 'c']);
    assert_eq!(cv(""), Vec::<char>::new());
}

#[test]
fn contains_finds_substrings() {
    assert!(contains_chars(&cv("single group assignment"), &cv("group")));
    assert!(!contains_chars(&cv("single group assignment"), &cv("Placebo")));
    assert!(contains_chars(&cv("anything"), &cv("")));
    assert!(!contains_chars(&cv("ab"), &cv("abc")));
}

#[test]
fn contains_ci_ignores_ascii_case() {
    assert!(contains_ci(&cv("Placebo Arm"), &cv("placebo")));
    assert!(contains_ci(&cv("PLACEBO"), &cv("placebo")));
    assert!(!contains_ci(&cv("lacebo"), &cv("placebo")));
}

#[test]
fn eq_ci_compares_up_to_case() {
    assert!(eq_ci(&cv("Drug A"), &cv("drug a")));
    assert!(!eq_ci(&cv("Drug A"), &cv("drug b")));
    assert!(!eq_ci(&cv("Drug"), &cv("Drug A")));
}

#[test]
fn replace_strips_every_occurrence() {
    assert_eq!(replace_chars(&cv("arm one arm"), &cv("arm"), &cv("")), cv(" one "));
    assert_eq!(replace_chars(&cv("phase ii study"), &cv("ii"), &cv("2")), cv("phase 2 study"));
    assert_eq!(replace_chars(&cv("abc"), &cv("x"), &cv("y")), cv("abc"));
}

#[test]
fn replace_can_reexpose_the_pattern() {
    // Stripping is not idempotent in general: one removal re-exposes "arm".
    let once = replace_chars(&cv("aarmrm"), &cv("arm"), &cv(""));
    assert_eq!(once, cv("arm"));
    let twice = replace_chars(&once, &cv("arm"), &cv(""));
    assert_eq!(twice, cv(""));
}

#[test]
fn normalization_settles_after_one_pass_on_plain_titles() {
    let norm = |t: &Vec<char>| {
        let s1 = replace_chars(t, &cv("arm"), &cv(""));
        replace_chars(&s1, &cv("group"), &cv(""))
    };
    let once = norm(&cv("test arm x group"));
    assert_eq!(once, cv("test  x "));
    assert_eq!(norm(&once), once);
}

#[test]
fn edit_distance_concrete_values() {
    assert_eq!(edit_distance(&cv("kitten"), &cv("sitting")), 3);
    assert_eq!(edit_distance(&cv("hannah"), &cv("hannha")), 1);
    assert_eq!(edit_distance(&cv(""), &cv("foo")), 3);
}

#[test]
fn edit_distance_symmetric_and_zero_on_equal() {
    let a = cv("damerau");
    let b = cv("iiqjau");
    assert_eq!(edit_distance(&a, &b), edit_distance(&b, &a));
    assert_eq!(edit_distance(&a, &a), 0);
    assert_ne!(edit_distance(&a, &b), 0);
}

#[test]
fn sift3_doubled_concrete_values() {
    // The undoubled linear distances are 0.5, 2.5, 2.0 and 4.0 for these pairs.
    assert_eq!(sift3_doubled(&cv("hannah"), &cv("hanna")), 1);
    assert_eq!(sift3_doubled(&cv("kitten"), &cv("sitting")), 5);
    assert_eq!(sift3_doubled(&cv("book"), &cv("back")), 4);
    assert_eq!(sift3_doubled(&cv("book"), &cv("")), 8);
    assert_eq!(sift3_doubled(&cv("kitten"), &cv("kitten")), 0);
}

#[test]
fn fast_filter_uses_the_scaled_threshold() {
    // kitten/sitting has a linear distance of 2.5: below 1.6 * 2, not 1.6 * 1.
    assert!(passes_fast_filter(&cv("kitten"), &cv("sitting"), 2));
    assert!(!passes_fast_filter(&cv("kitten"), &cv("sitting"), 1));
}
