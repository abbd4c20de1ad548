//! What a project configures, under `[mordant]` in `dylint.toml`.

use crate::text::{copy_texts, texts};
use vstd::prelude::*;
use vstd::string::*;

verus! {

/// One reachability ban:
///
/// ```toml
/// [[mordant.forbidden-reach]]
/// from = "sched::pick"
/// never = ["core::panicking", "std::vec::Vec::push"]
/// ```
#[derive(Debug)]
pub struct ReachRule {
    pub from: String,
    pub never: Vec<String>,
}

/// A rule as a value.
pub struct RuleView {
    pub from: Seq<char>,
    pub never: Seq<Seq<char>>,
}

impl View for ReachRule {
    type V = RuleView;

    open spec fn view(&self) -> RuleView {
        RuleView { from: self.from@, never: texts(self.never@) }
    }
}

impl ReachRule {
    /// A rule of its own that says the same.
    pub fn copied(&self) -> (r: Self)
        ensures
            r@ == self@,
    {
        ReachRule { from: String::from_str(self.from.as_str()), never: copy_texts(&self.never) }
    }
}

impl Default for ReachRule {
    fn default() -> (r: Self)
        ensures
            r.from@.len() == 0,
            r.never@.len() == 0,
    {
        ReachRule { from: String::new(), never: Vec::new() }
    }
}

/// Read from `dylint.toml` under `[mordant]` in the linted workspace root.
/// A workspace without that file, and every omitted key, has the default.
#[derive(Debug)]
pub struct MordantConfig {
    /// Lints this project does not want, by name, or a whole family as
    /// `group:<family>`.
    pub disabled: Vec<String>,
    /// Fully qualified paths of types that are never a valid map key in this
    /// project (e.g. a span type with no file identity). Empty means silent.
    pub nonidentity_key_types: Vec<String>,
    /// Opt-in key-expression forms: "to-bits", "ptr-cast". Both are legitimate
    /// in interning code, so neither is on by default.
    pub nonidentity_key_forms: Vec<String>,
    /// Also flag `Box<dyn Error>` as a stringly error type.
    pub stringly_error_include_box_dyn: bool,
    /// Fully qualified method paths that never produce a valid map key (e.g. a
    /// NaN-boxing `Value::to_bits`). Checked in key position of `insert`/`entry`.
    pub nonidentity_key_methods: Vec<String>,
    /// Opt-in: also flag composite keys (tuples, structs one level deep) that
    /// carry a denied type without one of the fixing types beside it.
    pub nonidentity_key_composite: bool,
    /// Types whose presence in a composite key restores identity (e.g. the
    /// file id that gives a span a coordinate space).
    pub nonidentity_key_fixes: Vec<String>,
    /// Error types that mean "the environment refused" (allocation, IO,
    /// syscall), added to the built-in std list. A constructor exit failing
    /// with one of these is never treated as validating a field.
    pub validator_resource_errors: Vec<String>,
    /// Minimum Option fields for `exclusive_options` to consider a struct.
    pub exclusive_options_min_fields: usize,
    /// `wildcard_local_enum` stays silent above this many variants.
    pub wildcard_local_enum_max_variants: usize,
    /// Bool fields at which `flag_cluster` fires.
    pub flag_cluster_min_bools: usize,
    /// Construction sites at which `stored_projection` will read a
    /// correspondence between two fields.
    pub stored_projection_min_sites: usize,
    /// Expression nodes below which `reimplemented_helper` does not compare
    /// a body, so one-line accessors and constructors never pair up.
    pub reimplemented_helper_min_nodes: usize,
    /// Ratchet file name, resolved upward from each crate's manifest dir. Runs
    /// suppress up to the recorded count per (lint, file) and surface only new
    /// findings. Regenerate with `MORDANT_BASELINE_WRITE=1`.
    pub baseline: Option<String>,
    /// Reachability bans: from each matching root, no call path may reach a
    /// banned definition. Findings carry the witness path.
    pub forbidden_reach: Vec<ReachRule>,
    /// This project's own re-entry points, for `stale_across_reentry`.
    pub stale_across_reentry_callees: Vec<String>,
    /// Callees `defaulted_failure` takes as rejecting their argument without
    /// reading their body.
    pub defaulted_failure_callees: Vec<String>,
    /// Opt-in: run `flag_cluster`. Off by default because most structs it
    /// names are option bags.
    pub flag_cluster_enabled: bool,
    /// Opt-in: run `stale_safety_comment`. Off by default because a name a
    /// crate cannot see is usually defined elsewhere.
    pub stale_safety_comment_enabled: bool,
    /// Error types whose failure `defaulted_failure` does not count, on top
    /// of `validator-resource-errors`.
    pub defaulted_failure_ignored_errors: Vec<String>,
    /// Opt-in: run `unchecked_input_len`.
    pub unchecked_input_len_enabled: bool,
    /// Opt-in: run `parallel_params`.
    pub parallel_params_enabled: bool,
    /// Functions a parameter group must pass between, unchanged, before
    /// `parallel_params` names it.
    pub parallel_params_min_fns: usize,
    /// Opt-in: run `some_still_unchecked`.
    pub some_still_unchecked_enabled: bool,
}

/// The thresholds, switches and lists a project that configures nothing has.
pub open spec fn is_default(c: MordantConfig) -> bool {
    &&& c.disabled@.len() == 0
    &&& c.nonidentity_key_types@.len() == 0
    &&& c.nonidentity_key_forms@.len() == 0
    &&& !c.stringly_error_include_box_dyn
    &&& c.nonidentity_key_methods@.len() == 0
    &&& !c.nonidentity_key_composite
    &&& c.nonidentity_key_fixes@.len() == 0
    &&& c.validator_resource_errors@.len() == 0
    &&& c.exclusive_options_min_fields == 2
    &&& c.wildcard_local_enum_max_variants == 12
    &&& c.flag_cluster_min_bools == 3
    &&& c.stored_projection_min_sites == 2
    &&& c.reimplemented_helper_min_nodes == 12
    &&& c.baseline is None
    &&& c.forbidden_reach@.len() == 0
    &&& c.stale_across_reentry_callees@.len() == 0
    &&& c.defaulted_failure_callees@.len() == 0
    &&& !c.flag_cluster_enabled
    &&& !c.stale_safety_comment_enabled
    &&& c.defaulted_failure_ignored_errors@.len() == 0
    &&& !c.unchecked_input_len_enabled
    &&& !c.parallel_params_enabled
    &&& c.parallel_params_min_fns == 3
    &&& !c.some_still_unchecked_enabled
}

impl Default for MordantConfig {
    fn default() -> (r: Self)
        ensures
            is_default(r),
    {
        MordantConfig {
            disabled: Vec::new(),
            nonidentity_key_types: Vec::new(),
            nonidentity_key_forms: Vec::new(),
            stringly_error_include_box_dyn: false,
            nonidentity_key_methods: Vec::new(),
            nonidentity_key_composite: false,
            nonidentity_key_fixes: Vec::new(),
            validator_resource_errors: Vec::new(),
            exclusive_options_min_fields: 2,
            wildcard_local_enum_max_variants: 12,
            flag_cluster_min_bools: 3,
            stored_projection_min_sites: 2,
            reimplemented_helper_min_nodes: 12,
            baseline: None,
            forbidden_reach: Vec::new(),
            stale_across_reentry_callees: Vec::new(),
            defaulted_failure_callees: Vec::new(),
            flag_cluster_enabled: false,
            stale_safety_comment_enabled: false,
            defaulted_failure_ignored_errors: Vec::new(),
            unchecked_input_len_enabled: false,
            parallel_params_enabled: false,
            parallel_params_min_fns: 3,
            some_still_unchecked_enabled: false,
        }
    }
}

/// Without configuration nothing is disabled, denied or banned, no opt-in pass
/// runs, no baseline is kept, and the thresholds are these.
pub proof fn lemma_defaults(c: MordantConfig)
    requires
        is_default(c),
    ensures
        c.disabled@.len() == 0 && c.nonidentity_key_types@.len() == 0
            && c.nonidentity_key_forms@.len() == 0 && c.nonidentity_key_methods@.len() == 0
            && c.nonidentity_key_fixes@.len() == 0 && c.forbidden_reach@.len() == 0,
        !c.flag_cluster_enabled && !c.stale_safety_comment_enabled
            && !c.unchecked_input_len_enabled && !c.parallel_params_enabled
            && !c.some_still_unchecked_enabled,
        !c.stringly_error_include_box_dyn && !c.nonidentity_key_composite,
        c.baseline is None,
        c.exclusive_options_min_fields == 2 && c.wildcard_local_enum_max_variants == 12
            && c.flag_cluster_min_bools == 3 && c.stored_projection_min_sites == 2
            && c.reimplemented_helper_min_nodes == 12 && c.parallel_params_min_fns == 3,
{
}

} // verus!
