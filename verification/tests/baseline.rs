use mordant::baseline::{
    count_keys, emit, flush, name_section, over_report, read_doc, rewrite, setup, suppressed,
    Baseline, Dir, Entry, Outcome, Section,
};
use mordant::report::Lint;

fn dir(has_file: bool, has_config: bool, text: Option<&str>) -> Dir {
    Dir { has_file, has_config, text: text.map(|t| t.to_string()) }
}

fn file(name: &str) -> Option<String> {
    Some(name.to_string())
}

fn entries(s: &Section) -> Vec<(&str, u64)> {
    s.entries.iter().map(|e| (e.key.as_str(), e.count)).collect()
}

const TEXT: &str = "[krate]\n\"runtime_typestate:src/a.rs\" = 2\n\"unit_mismatch:src/b.rs\" = 1\n";

#[test]
fn no_file_name_means_no_ratchet() {
    assert!(setup(&None, &vec![dir(true, true, Some(TEXT))], false).is_none());
}

#[test]
fn the_nearest_directory_with_the_file_wins() {
    let name = file("baseline.toml");
    let dirs = vec![dir(false, true, None), dir(true, true, Some(TEXT)), dir(true, true, None)];
    assert_eq!(setup(&name, &dirs, false).unwrap().dir, 1);
    assert_eq!(setup(&name, &dirs, true).unwrap().dir, 0);
    assert!(setup(&name, &vec![dir(false, true, None)], false).is_none());
    assert!(setup(&name, &vec![], true).is_none());
}

#[test]
fn a_run_suppresses_what_is_recorded_and_no_more() {
    let mut state = setup(&file("b"), &vec![dir(true, true, Some(TEXT))], false);
    let a = file("src/a.rs");
    assert!(matches!(emit(&mut state, Lint::GuardFlag, &a, false), Outcome::Silent));
    assert!(matches!(emit(&mut state, Lint::GuardFlag, &a, false), Outcome::Silent));
    match emit(&mut state, Lint::GuardFlag, &a, false) {
        Outcome::Over(t) => assert_eq!(
            t,
            "`runtime_typestate` over the mordant baseline (2 recorded for src/a.rs)"
        ),
        _ => panic!("the third finding is over"),
    }
    assert!(matches!(emit(&mut state, Lint::UnitMismatch, &a, false), Outcome::Over(_)));
    let b = file("src/b.rs");
    assert!(matches!(emit(&mut state, Lint::UnitMismatch, &b, false), Outcome::Silent));
    assert!(matches!(emit(&mut state, Lint::UnitMismatch, &b, true), Outcome::Report));
    let (warning, line) = over_report(&state.unwrap(), "krate").unwrap();
    assert_eq!(warning, "mordant: 2 finding(s) over the baseline in krate");
    assert_eq!(line, "krate 2");
}

#[test]
fn a_clean_run_says_nothing() {
    let state = setup(&file("b"), &vec![dir(true, true, Some(TEXT))], false);
    assert!(over_report(&state.unwrap(), "krate").is_none());
}

#[test]
fn without_a_baseline_or_a_file_findings_are_reported() {
    let mut none: Option<Baseline> = None;
    assert!(matches!(emit(&mut none, Lint::LockOrder, &file("x.rs"), false), Outcome::Report));
    assert!(!suppressed(&mut none, Lint::LockOrder, &file("x.rs"), false));
    let mut some = setup(&file("b"), &vec![dir(true, true, Some(TEXT))], false);
    assert!(matches!(emit(&mut some, Lint::GuardFlag, &None, false), Outcome::Report));
}

#[test]
fn a_baseline_recorded_under_an_old_name_still_holds() {
    let text = "[krate]\n\"guard_flag:src/a.rs\" = 1\n";
    let mut state = setup(&file("b"), &vec![dir(true, true, Some(text))], false);
    assert!(suppressed(&mut state, Lint::GuardFlag, &file("src/a.rs"), false));
    assert!(!suppressed(&mut state, Lint::GuardFlag, &file("src/a.rs"), false));
}

#[test]
fn sections_add_up() {
    let text = "[a]\n\"lock_order:x.rs\" = 1\n[b]\n\"lock_order:x.rs\" = 1\n";
    let mut state = setup(&file("b"), &vec![dir(true, true, Some(text))], false);
    let x = file("x.rs");
    assert!(suppressed(&mut state, Lint::LockOrder, &x, false));
    assert!(suppressed(&mut state, Lint::LockOrder, &x, false));
    assert!(!suppressed(&mut state, Lint::LockOrder, &x, false));
}

#[test]
fn a_text_that_is_no_baseline_accepts_nothing() {
    assert!(read_doc("not toml at all [").is_empty());
    assert!(read_doc("a = 1\n").is_empty());
    assert!(read_doc("[a]\nk = \"text\"\n").is_empty());
    let doc = read_doc("[b]\nk = 1\n[a]\n\"z:1\" = 3\n\"y:1\" = 2\n");
    assert_eq!(doc.len(), 2);
    assert_eq!(doc[0].name, "a");
    assert_eq!(entries(&doc[0]), vec![("y:1", 2), ("z:1", 3)]);
    assert_eq!(entries(&doc[1]), vec![("k", 1)]);
}

#[test]
fn keys_are_counted_in_order() {
    let keys: Vec<String> = ["b:x", "a:x", "b:x"].iter().map(|k| k.to_string()).collect();
    let counted: Vec<(String, u64)> =
        count_keys(&keys).into_iter().map(|e: Entry| (e.key, e.count)).collect();
    assert_eq!(counted, vec![("a:x".to_string(), 1), ("b:x".to_string(), 2)]);
    assert!(count_keys(&vec![]).is_empty());
}

#[test]
fn binaries_have_sections_of_their_own() {
    assert_eq!(name_section("krate", &None), "krate");
    assert_eq!(name_section("krate", &file("tool")), "krate (bin tool)");
}

#[test]
fn rewriting_touches_one_section() {
    let keys = vec!["lock_order:x.rs".to_string()];
    let doc = rewrite(read_doc("[a]\nk = 1\n[c]\nk = 3\n"), "b", &keys);
    let names: Vec<&str> = doc.iter().map(|s| s.name.as_str()).collect();
    assert_eq!(names, vec!["a", "b", "c"]);
    assert_eq!(entries(&doc[1]), vec![("lock_order:x.rs", 1)]);
    let replaced = rewrite(doc, "a", &keys);
    assert_eq!(entries(&replaced[0]), vec![("lock_order:x.rs", 1)]);
    let gone = rewrite(replaced, "b", &vec![]);
    let left: Vec<&str> = gone.iter().map(|s| s.name.as_str()).collect();
    assert_eq!(left, vec!["a", "c"]);
}

#[test]
fn what_a_write_records_the_next_run_suppresses() {
    let dirs = vec![dir(false, true, None)];
    let mut state = setup(&file("b"), &dirs, true);
    let odd = file("src/\"odd\" name\\\n\u{1}é.rs");
    assert!(matches!(emit(&mut state, Lint::LockOrder, &odd, false), Outcome::Silent));
    assert!(matches!(emit(&mut state, Lint::LockOrder, &odd, false), Outcome::Silent));
    assert!(matches!(emit(&mut state, Lint::LockOrder, &odd, true), Outcome::Report));
    let mut written = state.unwrap();
    assert_eq!(written.recorded.len(), 2);
    assert!(over_report(&written, "krate").is_none());
    let text = flush(&mut written, "krate", &None, "[other]\n\"lock_order:o.rs\" = 1\n").unwrap();
    assert!(written.recorded.is_empty());
    let mut next = setup(&file("b"), &vec![dir(true, true, Some(&text))], false);
    assert!(suppressed(&mut next, Lint::LockOrder, &odd, false));
    assert!(suppressed(&mut next, Lint::LockOrder, &odd, false));
    assert!(!suppressed(&mut next, Lint::LockOrder, &odd, false));
    assert!(suppressed(&mut next, Lint::LockOrder, &file("o.rs"), false));
}

#[test]
fn a_crate_with_nothing_to_record_loses_its_section() {
    let mut state = setup(&file("b"), &vec![dir(true, true, Some(TEXT))], true).unwrap();
    assert_eq!(flush(&mut state, "krate", &None, TEXT).unwrap(), "");
}

#[test]
fn the_file_is_pretty_toml() {
    let mut state = setup(&file("b"), &vec![dir(true, true, None)], true);
    emit(&mut state, Lint::GuardFlag, &file("src/a.rs"), false);
    let text = flush(&mut state.unwrap(), "krate", &file("tool"), "").unwrap();
    assert_eq!(text, "[\"krate (bin tool)\"]\n\"runtime_typestate:src/a.rs\" = 1\n");
}

#[test]
fn written_sections_read_back() {
    let keys: Vec<String> =
        ["a:\u{7f}", "a:'", "a:\"'", "", "plain-key", "é:ü"].iter().map(|k| k.to_string()).collect();
    let mut state = Baseline::new(0, true, &vec![]);
    state.recorded = keys;
    let text = flush(&mut state, "krate \"quoted\"", &None, "[empty]\n[big]\nk = 18446744073709551615\n")
        .unwrap();
    let doc = read_doc(&text);
    let names: Vec<&str> = doc.iter().map(|s| s.name.as_str()).collect();
    assert_eq!(names, vec!["big", "empty", "krate \"quoted\""]);
    assert_eq!(entries(&doc[0]), vec![("k", u64::MAX)]);
    assert!(doc[1].entries.is_empty());
    assert_eq!(
        entries(&doc[2]),
        vec![("", 1), ("a:\"'", 1), ("a:'", 1), ("a:\u{7f}", 1), ("plain-key", 1), ("é:ü", 1)]
    );
}

#[test]
fn a_finding_under_an_allow_leaves_the_ratchet_alone() {
    let a = file("src/a.rs");
    let mut state = setup(&file("b"), &vec![dir(true, true, Some(TEXT))], false);
    assert!(!suppressed(&mut state, Lint::GuardFlag, &a, true));
    assert!(suppressed(&mut state, Lint::GuardFlag, &a, false));
    assert!(suppressed(&mut state, Lint::GuardFlag, &a, false));
    assert!(!suppressed(&mut state, Lint::GuardFlag, &a, false));
    let mut writing = setup(&file("b"), &vec![dir(true, true, Some(TEXT))], true);
    assert!(!suppressed(&mut writing, Lint::GuardFlag, &a, true));
    assert!(writing.unwrap().recorded.is_empty());
}

#[test]
fn outside_write_mode_nothing_is_written() {
    let mut state = setup(&file("b"), &vec![dir(true, true, Some(TEXT))], false).unwrap();
    state.recorded = vec!["lock_order:x.rs".to_string()];
    assert!(flush(&mut state, "krate", &None, TEXT).is_none());
    assert_eq!(state.recorded, vec!["lock_order:x.rs"]);
}
