use mordant::config::{MordantConfig, ReachRule};
use mordant::registry::{enabled, enabled_passes, passes, unknown_disabled};
use mordant::report::Lint;

/// A threshold that defaulted to 0 would turn `wildcard_local_enum` off
/// (`n > 0` for every enum) and make `exclusive_options` consider every
/// struct.
#[test]
fn config_default_thresholds_match_docs() {
    let c = MordantConfig::default();
    assert_eq!(c.exclusive_options_min_fields, 2);
    assert_eq!(c.wildcard_local_enum_max_variants, 12);
    assert_eq!(c.flag_cluster_min_bools, 3);
    assert_eq!(c.stored_projection_min_sites, 2);
    assert_eq!(c.reimplemented_helper_min_nodes, 12);
    assert!(!c.flag_cluster_enabled);
    assert!(!c.stale_safety_comment_enabled);
    assert!(!c.unchecked_input_len_enabled);
    assert!(!c.parallel_params_enabled);
    assert_eq!(c.parallel_params_min_fns, 3);
}

#[test]
fn surveys_run_only_when_asked_for() {
    let mut c = MordantConfig::default();
    assert!(!enabled(&c, Lint::StaleSafetyComment));
    assert!(enabled(&c, Lint::UnitMismatch));
    assert_eq!(enabled_passes(&c).len(), passes().len() - 4);
    c.stale_safety_comment_enabled = true;
    assert!(enabled(&c, Lint::StaleSafetyComment));
    assert_eq!(enabled_passes(&c).len(), passes().len() - 3);
}

#[test]
fn disabled_takes_old_names_and_families() {
    let mut c = MordantConfig::default();
    c.disabled = vec!["guard_flag".to_string(), "group:duplication".to_string()];
    assert!(!enabled(&c, Lint::GuardFlag));
    assert!(!enabled(&c, Lint::SameMatchTwice));
    assert!(!enabled(&c, Lint::ReimplementedHelper));
    assert!(enabled(&c, Lint::UnitMismatch));
    assert!(unknown_disabled(&c).is_empty());
}

#[test]
fn a_name_nobody_goes_by_is_warned_of() {
    let mut c = MordantConfig::default();
    c.disabled = vec![
        "runtime_typestate".to_string(),
        "no_such_lint".to_string(),
        "group:nobody".to_string(),
    ];
    assert_eq!(unknown_disabled(&c), vec!["no_such_lint", "group:nobody"]);
}

#[test]
fn a_rule_defaults_to_nothing_and_copies_whole() {
    let empty = ReachRule::default();
    assert!(empty.from.is_empty() && empty.never.is_empty());
    let rule = ReachRule { from: "hot".to_string(), never: vec!["Vec::push".to_string()] };
    let copy = rule.copied();
    assert_eq!(copy.from, "hot");
    assert_eq!(copy.never, vec!["Vec::push"]);
}
