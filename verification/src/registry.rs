//! Which passes run: the lints by name and family, and what a configuration
//! turns on and off.

use crate::config::MordantConfig;
use crate::names::{current, current_name, lemma_lint_name_is_current, lemma_lint_names_differ};
use crate::report::Lint;
use crate::text::{same, texts};
use vstd::prelude::*;
use vstd::string::*;

verus! {

/// The families of lints.
#[derive(Clone, Copy, Debug, PartialEq, Eq, Structural)]
pub enum Family {
    State,
    Checks,
    Errors,
    Enums,
    Duplication,
    Naming,
    KeysLocks,
    Comments,
    Custom,
}

/// What a lint is called.
pub open spec fn lint_name(l: Lint) -> Seq<char> {
    match l {
        Lint::AsymmetricGuard => "guard_blind_to_action"@,
        Lint::BoolBesideOption => "bool_beside_option"@,
        Lint::BoolParams => "bare_bool_args"@,
        Lint::BypassedConversion => "cast_bypasses_from"@,
        Lint::BypassedValidator => "unchecked_construction"@,
        Lint::CollapsedError => "error_collapsed_to_bool"@,
        Lint::CrossedAlias => "interchangeable_aliases"@,
        Lint::CrossedIndex => "index_of_other_kind"@,
        Lint::DefaultedFailure => "defaulted_failure"@,
        Lint::DependentField => "field_valid_only_when"@,
        Lint::DiscardedError => "discarded_error"@,
        Lint::ExclusiveOptions => "options_as_enum"@,
        Lint::FlagCluster => "bool_cluster"@,
        Lint::ForbiddenReach => "forbidden_reach"@,
        Lint::GuardFlag => "runtime_typestate"@,
        Lint::InsertThenUnwrap => "insert_then_unwrap"@,
        Lint::LockOrder => "lock_order"@,
        Lint::MisboundArg => "arg_named_like_other_param"@,
        Lint::NarrowedReturn => "return_wider_than_body"@,
        Lint::NonidentityKey => "key_not_identity"@,
        Lint::OverwideParameter => "param_wider_than_callers"@,
        Lint::ParallelBools => "parallel_bools"@,
        Lint::ParallelParams => "parallel_params"@,
        Lint::ParallelVecs => "parallel_vecs"@,
        Lint::PubInvariantFields => "pub_invariant_fields"@,
        Lint::ReimplementedHelper => "reimplemented_helper"@,
        Lint::SameMatchTwice => "same_match_twice"@,
        Lint::SentinelInt => "sentinel_integer"@,
        Lint::SomeIf => "some_still_unchecked"@,
        Lint::StaleAcrossReentry => "stale_across_reentry"@,
        Lint::StalePanicMessage => "stale_panic_message"@,
        Lint::StaleSafetyComment => "stale_safety_comment"@,
        Lint::StoredProjection => "derived_field"@,
        Lint::StringifiedError => "stringified_error"@,
        Lint::StringlyError => "stringly_error"@,
        Lint::StringlyState => "stringly_state"@,
        Lint::UncheckedInputLen => "unchecked_input_len"@,
        Lint::UnevenNarrowing => "narrowed_two_ways"@,
        Lint::UnitMismatch => "unit_mismatch"@,
        Lint::UnnamedTuple => "tuple_wants_struct"@,
        Lint::UnreadErrorVariant => "unread_error_variant"@,
        Lint::UnreadNone => "always_unwrapped_option"@,
        Lint::WildcardLocalEnum => "wildcard_over_own_enum"@,
    }
}

/// The family a lint belongs to.
pub open spec fn family_of(l: Lint) -> Family {
    match l {
        Lint::AsymmetricGuard => Family::Checks,
        Lint::BoolBesideOption => Family::State,
        Lint::BoolParams => Family::Naming,
        Lint::BypassedConversion => Family::Checks,
        Lint::BypassedValidator => Family::Checks,
        Lint::CollapsedError => Family::Checks,
        Lint::CrossedAlias => Family::Naming,
        Lint::CrossedIndex => Family::Naming,
        Lint::DefaultedFailure => Family::Checks,
        Lint::DependentField => Family::State,
        Lint::DiscardedError => Family::Errors,
        Lint::ExclusiveOptions => Family::State,
        Lint::FlagCluster => Family::State,
        Lint::ForbiddenReach => Family::Custom,
        Lint::GuardFlag => Family::State,
        Lint::InsertThenUnwrap => Family::KeysLocks,
        Lint::LockOrder => Family::KeysLocks,
        Lint::MisboundArg => Family::Naming,
        Lint::NarrowedReturn => Family::Enums,
        Lint::NonidentityKey => Family::KeysLocks,
        Lint::OverwideParameter => Family::Enums,
        Lint::ParallelBools => Family::State,
        Lint::ParallelParams => Family::State,
        Lint::ParallelVecs => Family::State,
        Lint::PubInvariantFields => Family::Checks,
        Lint::ReimplementedHelper => Family::Duplication,
        Lint::SameMatchTwice => Family::Duplication,
        Lint::SentinelInt => Family::Checks,
        Lint::SomeIf => Family::State,
        Lint::StaleAcrossReentry => Family::Checks,
        Lint::StalePanicMessage => Family::Comments,
        Lint::StaleSafetyComment => Family::Comments,
        Lint::StoredProjection => Family::State,
        Lint::StringifiedError => Family::Errors,
        Lint::StringlyError => Family::Errors,
        Lint::StringlyState => Family::State,
        Lint::UncheckedInputLen => Family::Checks,
        Lint::UnevenNarrowing => Family::Checks,
        Lint::UnitMismatch => Family::Naming,
        Lint::UnnamedTuple => Family::State,
        Lint::UnreadErrorVariant => Family::Errors,
        Lint::UnreadNone => Family::State,
        Lint::WildcardLocalEnum => Family::Enums,
    }
}

/// What a family is called.
pub open spec fn family_name(f: Family) -> Seq<char> {
    match f {
        Family::State => "state"@,
        Family::Checks => "checks"@,
        Family::Errors => "errors"@,
        Family::Enums => "enums"@,
        Family::Duplication => "duplication"@,
        Family::Naming => "naming"@,
        Family::KeysLocks => "keys_locks"@,
        Family::Comments => "comments"@,
        Family::Custom => "custom"@,
    }
}

impl Lint {
    /// What the lint is called.
    pub fn name(self) -> (r: &'static str)
        ensures
            r@ == lint_name(self),
    {
        match self {
            Lint::AsymmetricGuard => "guard_blind_to_action",
            Lint::BoolBesideOption => "bool_beside_option",
            Lint::BoolParams => "bare_bool_args",
            Lint::BypassedConversion => "cast_bypasses_from",
            Lint::BypassedValidator => "unchecked_construction",
            Lint::CollapsedError => "error_collapsed_to_bool",
            Lint::CrossedAlias => "interchangeable_aliases",
            Lint::CrossedIndex => "index_of_other_kind",
            Lint::DefaultedFailure => "defaulted_failure",
            Lint::DependentField => "field_valid_only_when",
            Lint::DiscardedError => "discarded_error",
            Lint::ExclusiveOptions => "options_as_enum",
            Lint::FlagCluster => "bool_cluster",
            Lint::ForbiddenReach => "forbidden_reach",
            Lint::GuardFlag => "runtime_typestate",
            Lint::InsertThenUnwrap => "insert_then_unwrap",
            Lint::LockOrder => "lock_order",
            Lint::MisboundArg => "arg_named_like_other_param",
            Lint::NarrowedReturn => "return_wider_than_body",
            Lint::NonidentityKey => "key_not_identity",
            Lint::OverwideParameter => "param_wider_than_callers",
            Lint::ParallelBools => "parallel_bools",
            Lint::ParallelParams => "parallel_params",
            Lint::ParallelVecs => "parallel_vecs",
            Lint::PubInvariantFields => "pub_invariant_fields",
            Lint::ReimplementedHelper => "reimplemented_helper",
            Lint::SameMatchTwice => "same_match_twice",
            Lint::SentinelInt => "sentinel_integer",
            Lint::SomeIf => "some_still_unchecked",
            Lint::StaleAcrossReentry => "stale_across_reentry",
            Lint::StalePanicMessage => "stale_panic_message",
            Lint::StaleSafetyComment => "stale_safety_comment",
            Lint::StoredProjection => "derived_field",
            Lint::StringifiedError => "stringified_error",
            Lint::StringlyError => "stringly_error",
            Lint::StringlyState => "stringly_state",
            Lint::UncheckedInputLen => "unchecked_input_len",
            Lint::UnevenNarrowing => "narrowed_two_ways",
            Lint::UnitMismatch => "unit_mismatch",
            Lint::UnnamedTuple => "tuple_wants_struct",
            Lint::UnreadErrorVariant => "unread_error_variant",
            Lint::UnreadNone => "always_unwrapped_option",
            Lint::WildcardLocalEnum => "wildcard_over_own_enum",
        }
    }

    /// The family the lint belongs to.
    pub fn family(self) -> (r: Family)
        ensures
            r == family_of(self),
    {
        match self {
            Lint::AsymmetricGuard => Family::Checks,
            Lint::BoolBesideOption => Family::State,
            Lint::BoolParams => Family::Naming,
            Lint::BypassedConversion => Family::Checks,
            Lint::BypassedValidator => Family::Checks,
            Lint::CollapsedError => Family::Checks,
            Lint::CrossedAlias => Family::Naming,
            Lint::CrossedIndex => Family::Naming,
            Lint::DefaultedFailure => Family::Checks,
            Lint::DependentField => Family::State,
            Lint::DiscardedError => Family::Errors,
            Lint::ExclusiveOptions => Family::State,
            Lint::FlagCluster => Family::State,
            Lint::ForbiddenReach => Family::Custom,
            Lint::GuardFlag => Family::State,
            Lint::InsertThenUnwrap => Family::KeysLocks,
            Lint::LockOrder => Family::KeysLocks,
            Lint::MisboundArg => Family::Naming,
            Lint::NarrowedReturn => Family::Enums,
            Lint::NonidentityKey => Family::KeysLocks,
            Lint::OverwideParameter => Family::Enums,
            Lint::ParallelBools => Family::State,
            Lint::ParallelParams => Family::State,
            Lint::ParallelVecs => Family::State,
            Lint::PubInvariantFields => Family::Checks,
            Lint::ReimplementedHelper => Family::Duplication,
            Lint::SameMatchTwice => Family::Duplication,
            Lint::SentinelInt => Family::Checks,
            Lint::SomeIf => Family::State,
            Lint::StaleAcrossReentry => Family::Checks,
            Lint::StalePanicMessage => Family::Comments,
            Lint::StaleSafetyComment => Family::Comments,
            Lint::StoredProjection => Family::State,
            Lint::StringifiedError => Family::Errors,
            Lint::StringlyError => Family::Errors,
            Lint::StringlyState => Family::State,
            Lint::UncheckedInputLen => Family::Checks,
            Lint::UnevenNarrowing => Family::Checks,
            Lint::UnitMismatch => Family::Naming,
            Lint::UnnamedTuple => Family::State,
            Lint::UnreadErrorVariant => Family::Errors,
            Lint::UnreadNone => Family::State,
            Lint::WildcardLocalEnum => Family::Enums,
        }
    }
}

impl Family {
    /// What the family is called.
    pub fn name(self) -> (r: &'static str)
        ensures
            r@ == family_name(self),
    {
        match self {
            Family::State => "state",
            Family::Checks => "checks",
            Family::Errors => "errors",
            Family::Enums => "enums",
            Family::Duplication => "duplication",
            Family::Naming => "naming",
            Family::KeysLocks => "keys_locks",
            Family::Comments => "comments",
            Family::Custom => "custom",
        }
    }
}

/// The passes in the order they are registered.
pub open spec fn pass_order() -> Seq<Lint> {
    seq![
        Lint::StringlyError,
        Lint::NonidentityKey,
        Lint::StringifiedError,
        Lint::ExclusiveOptions,
        Lint::ParallelBools,
        Lint::FlagCluster,
        Lint::BypassedValidator,
        Lint::UnreadErrorVariant,
        Lint::AsymmetricGuard,
        Lint::StaleSafetyComment,
        Lint::UnitMismatch,
        Lint::StalePanicMessage,
        Lint::LockOrder,
        Lint::ForbiddenReach,
        Lint::GuardFlag,
        Lint::UnreadNone,
        Lint::InsertThenUnwrap,
        Lint::OverwideParameter,
        Lint::NarrowedReturn,
        Lint::WildcardLocalEnum,
        Lint::DiscardedError,
        Lint::StoredProjection,
        Lint::StaleAcrossReentry,
        Lint::DefaultedFailure,
        Lint::UncheckedInputLen,
        Lint::MisboundArg,
        Lint::BypassedConversion,
        Lint::SameMatchTwice,
        Lint::ReimplementedHelper,
        Lint::DependentField,
        Lint::CollapsedError,
        Lint::UnevenNarrowing,
        Lint::CrossedIndex,
        Lint::ParallelVecs,
        Lint::BoolBesideOption,
        Lint::SentinelInt,
        Lint::StringlyState,
        Lint::ParallelParams,
        Lint::BoolParams,
        Lint::UnnamedTuple,
        Lint::CrossedAlias,
    ]
}

/// The passes in the order they are registered.
pub fn passes() -> (r: Vec<Lint>)
    ensures
        r@ == pass_order(),
{
    let v: Vec<Lint> = vec![
        Lint::StringlyError,
        Lint::NonidentityKey,
        Lint::StringifiedError,
        Lint::ExclusiveOptions,
        Lint::ParallelBools,
        Lint::FlagCluster,
        Lint::BypassedValidator,
        Lint::UnreadErrorVariant,
        Lint::AsymmetricGuard,
        Lint::StaleSafetyComment,
        Lint::UnitMismatch,
        Lint::StalePanicMessage,
        Lint::LockOrder,
        Lint::ForbiddenReach,
        Lint::GuardFlag,
        Lint::UnreadNone,
        Lint::InsertThenUnwrap,
        Lint::OverwideParameter,
        Lint::NarrowedReturn,
        Lint::WildcardLocalEnum,
        Lint::DiscardedError,
        Lint::StoredProjection,
        Lint::StaleAcrossReentry,
        Lint::DefaultedFailure,
        Lint::UncheckedInputLen,
        Lint::MisboundArg,
        Lint::BypassedConversion,
        Lint::SameMatchTwice,
        Lint::ReimplementedHelper,
        Lint::DependentField,
        Lint::CollapsedError,
        Lint::UnevenNarrowing,
        Lint::CrossedIndex,
        Lint::ParallelVecs,
        Lint::BoolBesideOption,
        Lint::SentinelInt,
        Lint::StringlyState,
        Lint::ParallelParams,
        Lint::BoolParams,
        Lint::UnnamedTuple,
        Lint::CrossedAlias,
    ];
    assert(v@ =~= pass_order());
    v
}

/// A pass that runs only when its key asks for it does not run by default.
pub open spec fn opted_in(config: MordantConfig, l: Lint) -> bool {
    match l {
        Lint::FlagCluster => config.flag_cluster_enabled,
        Lint::StaleSafetyComment => config.stale_safety_comment_enabled,
        Lint::UncheckedInputLen => config.unchecked_input_len_enabled,
        Lint::ParallelParams => config.parallel_params_enabled,
        Lint::SomeIf => config.some_still_unchecked_enabled,
        _ => true,
    }
}

/// An entry of the `disabled` list turns the lint off: it is the lint's name,
/// an old name of it, or `group:` and the name of its family.
pub open spec fn turns_off(entry: Seq<char>, l: Lint) -> bool {
    current_name(entry) == lint_name(l) || entry == "group:"@ + family_name(family_of(l))
}

/// Some entry of the `disabled` list turns the lint off.
pub open spec fn turned_off(config: MordantConfig, l: Lint) -> bool {
    exists|i: int|
        0 <= i < config.disabled@.len() && turns_off((#[trigger] config.disabled@[i])@, l)
}

/// The pass of the lint runs.
pub open spec fn runs(config: MordantConfig, l: Lint) -> bool {
    opted_in(config, l) && !turned_off(config, l)
}

fn entry_turns_off(entry: &str, l: Lint) -> (r: bool)
    ensures
        r == turns_off(entry@, l),
{
    let mut group = String::from_str("group:");
    group.append(l.family().name());
    same(current(entry), l.name()) || same(entry, group.as_str())
}

/// Whether the pass of the lint runs.
pub fn enabled(config: &MordantConfig, l: Lint) -> (r: bool)
    ensures
        r == runs(*config, l),
{
    let wanted = match l {
        Lint::FlagCluster => config.flag_cluster_enabled,
        Lint::StaleSafetyComment => config.stale_safety_comment_enabled,
        Lint::UncheckedInputLen => config.unchecked_input_len_enabled,
        Lint::ParallelParams => config.parallel_params_enabled,
        Lint::SomeIf => config.some_still_unchecked_enabled,
        _ => true,
    };
    let mut i: usize = 0;
    while i < config.disabled.len()
        invariant
            i <= config.disabled@.len(),
            forall|k: int| 0 <= k < i ==> !turns_off((#[trigger] config.disabled@[k])@, l),
        decreases config.disabled.len() - i,
    {
        if entry_turns_off(config.disabled[i].as_str(), l) {
            return false;
        }
        i = i + 1;
    }
    wanted
}

/// The passes of a list that run, in its order.
pub open spec fn running(config: MordantConfig, all: Seq<Lint>) -> Seq<Lint>
    decreases all.len(),
{
    if all.len() == 0 {
        Seq::empty()
    } else {
        let rest = running(config, all.drop_last());
        if runs(config, all.last()) {
            rest.push(all.last())
        } else {
            rest
        }
    }
}

/// The passes that run, in the order they are registered.
pub fn enabled_passes(config: &MordantConfig) -> (r: Vec<Lint>)
    ensures
        r@ == running(*config, pass_order()),
{
    let all = passes();
    let mut out: Vec<Lint> = Vec::new();
    let mut i: usize = 0;
    while i < all.len()
        invariant
            i <= all@.len(),
            out@ == running(*config, all@.take(i as int)),
        decreases all.len() - i,
    {
        assert(all@.take(i + 1).drop_last() =~= all@.take(i as int));
        if enabled(config, all[i]) {
            out.push(all[i]);
        }
        i = i + 1;
    }
    assert(all@.take(all@.len() as int) =~= all@);
    out
}

/// Every lint, registered or not: those that were renamed in the order of their
/// renames, and the others behind them.
pub open spec fn every_lint() -> Seq<Lint> {
    seq![
        Lint::ExclusiveOptions,
        Lint::FlagCluster,
        Lint::GuardFlag,
        Lint::UnreadNone,
        Lint::StoredProjection,
        Lint::DependentField,
        Lint::UnnamedTuple,
        Lint::SomeIf,
        Lint::BypassedValidator,
        Lint::AsymmetricGuard,
        Lint::CollapsedError,
        Lint::UnevenNarrowing,
        Lint::BypassedConversion,
        Lint::SentinelInt,
        Lint::WildcardLocalEnum,
        Lint::OverwideParameter,
        Lint::NarrowedReturn,
        Lint::BoolParams,
        Lint::MisboundArg,
        Lint::CrossedAlias,
        Lint::CrossedIndex,
        Lint::NonidentityKey,
        Lint::BoolBesideOption,
        Lint::DefaultedFailure,
        Lint::DiscardedError,
        Lint::ForbiddenReach,
        Lint::InsertThenUnwrap,
        Lint::LockOrder,
        Lint::ParallelBools,
        Lint::ParallelParams,
        Lint::ParallelVecs,
        Lint::PubInvariantFields,
        Lint::ReimplementedHelper,
        Lint::SameMatchTwice,
        Lint::StaleAcrossReentry,
        Lint::StalePanicMessage,
        Lint::StaleSafetyComment,
        Lint::StringifiedError,
        Lint::StringlyError,
        Lint::StringlyState,
        Lint::UncheckedInputLen,
        Lint::UnitMismatch,
        Lint::UnreadErrorVariant,
    ]
}

fn all_lints() -> (r: Vec<Lint>)
    ensures
        r@ == every_lint(),
{
    let v: Vec<Lint> = vec![
        Lint::ExclusiveOptions,
        Lint::FlagCluster,
        Lint::GuardFlag,
        Lint::UnreadNone,
        Lint::StoredProjection,
        Lint::DependentField,
        Lint::UnnamedTuple,
        Lint::SomeIf,
        Lint::BypassedValidator,
        Lint::AsymmetricGuard,
        Lint::CollapsedError,
        Lint::UnevenNarrowing,
        Lint::BypassedConversion,
        Lint::SentinelInt,
        Lint::WildcardLocalEnum,
        Lint::OverwideParameter,
        Lint::NarrowedReturn,
        Lint::BoolParams,
        Lint::MisboundArg,
        Lint::CrossedAlias,
        Lint::CrossedIndex,
        Lint::NonidentityKey,
        Lint::BoolBesideOption,
        Lint::DefaultedFailure,
        Lint::DiscardedError,
        Lint::ForbiddenReach,
        Lint::InsertThenUnwrap,
        Lint::LockOrder,
        Lint::ParallelBools,
        Lint::ParallelParams,
        Lint::ParallelVecs,
        Lint::PubInvariantFields,
        Lint::ReimplementedHelper,
        Lint::SameMatchTwice,
        Lint::StaleAcrossReentry,
        Lint::StalePanicMessage,
        Lint::StaleSafetyComment,
        Lint::StringifiedError,
        Lint::StringlyError,
        Lint::StringlyState,
        Lint::UncheckedInputLen,
        Lint::UnitMismatch,
        Lint::UnreadErrorVariant,
    ];
    assert(v@ =~= every_lint());
    v
}

/// The entry turns some lint off.
pub open spec fn recognized(entry: Seq<char>) -> bool {
    exists|l: Lint| #[trigger] turns_off(entry, l)
}

/// Whether an entry of the `disabled` list matches some lint or family.
pub fn is_recognized(entry: &str) -> (r: bool)
    ensures
        r == recognized(entry@),
{
    let all = all_lints();
    let mut i: usize = 0;
    while i < all.len()
        invariant
            i <= all@.len(),
            all@ == every_lint(),
            forall|k: int| 0 <= k < i ==> !turns_off(entry@, #[trigger] all@[k]),
        decreases all.len() - i,
    {
        if entry_turns_off(entry, all[i]) {
            assert(turns_off(entry@, all@[i as int]));
            return true;
        }
        i = i + 1;
    }
    proof {
        assert forall|l: Lint| !#[trigger] turns_off(entry@, l) by {
            let k = position(l);
            lemma_position(l);
            assert(!turns_off(entry@, all@[k]));
        }
    }
    false
}

/// Where a lint stands in the list of all.
pub open spec fn position(l: Lint) -> int {
    match l {
        Lint::ExclusiveOptions => 0,
        Lint::FlagCluster => 1,
        Lint::GuardFlag => 2,
        Lint::UnreadNone => 3,
        Lint::StoredProjection => 4,
        Lint::DependentField => 5,
        Lint::UnnamedTuple => 6,
        Lint::SomeIf => 7,
        Lint::BypassedValidator => 8,
        Lint::AsymmetricGuard => 9,
        Lint::CollapsedError => 10,
        Lint::UnevenNarrowing => 11,
        Lint::BypassedConversion => 12,
        Lint::SentinelInt => 13,
        Lint::WildcardLocalEnum => 14,
        Lint::OverwideParameter => 15,
        Lint::NarrowedReturn => 16,
        Lint::BoolParams => 17,
        Lint::MisboundArg => 18,
        Lint::CrossedAlias => 19,
        Lint::CrossedIndex => 20,
        Lint::NonidentityKey => 21,
        Lint::BoolBesideOption => 22,
        Lint::DefaultedFailure => 23,
        Lint::DiscardedError => 24,
        Lint::ForbiddenReach => 25,
        Lint::InsertThenUnwrap => 26,
        Lint::LockOrder => 27,
        Lint::ParallelBools => 28,
        Lint::ParallelParams => 29,
        Lint::ParallelVecs => 30,
        Lint::PubInvariantFields => 31,
        Lint::ReimplementedHelper => 32,
        Lint::SameMatchTwice => 33,
        Lint::StaleAcrossReentry => 34,
        Lint::StalePanicMessage => 35,
        Lint::StaleSafetyComment => 36,
        Lint::StringifiedError => 37,
        Lint::StringlyError => 38,
        Lint::StringlyState => 39,
        Lint::UncheckedInputLen => 40,
        Lint::UnitMismatch => 41,
        Lint::UnreadErrorVariant => 42,
    }
}

proof fn lemma_position(l: Lint)
    ensures
        0 <= position(l) < every_lint().len(),
        every_lint()[position(l)] == l,
{
}

/// The entries of the `disabled` list that match no lint and no family, in
/// order.
pub open spec fn unrecognized(entries: Seq<Seq<char>>) -> Seq<Seq<char>>
    decreases entries.len(),
{
    if entries.len() == 0 {
        Seq::empty()
    } else {
        let rest = unrecognized(entries.drop_last());
        if recognized(entries.last()) {
            rest
        } else {
            rest.push(entries.last())
        }
    }
}

/// The entries of the `disabled` list to warn of.
pub fn unknown_disabled(config: &MordantConfig) -> (r: Vec<String>)
    ensures
        texts(r@) == unrecognized(texts(config.disabled@)),
{
    let mut out: Vec<String> = Vec::new();
    let ghost all = texts(config.disabled@);
    let mut i: usize = 0;
    assert(texts(out@) =~= unrecognized(all.take(0)));
    while i < config.disabled.len()
        invariant
            i <= config.disabled@.len(),
            all == texts(config.disabled@),
            texts(out@) == unrecognized(all.take(i as int)),
        decreases config.disabled.len() - i,
    {
        assert(all.take(i + 1).drop_last() =~= all.take(i as int));
        assert(all.take(i + 1).last() == config.disabled@[i as int]@);
        if !is_recognized(config.disabled[i].as_str()) {
            let ghost before = out@;
            let s = config.disabled[i].clone();
            out.push(s);
            assert(texts(out@) =~= texts(before).push(all[i as int]));
        }
        i = i + 1;
    }
    assert(all.take(all.len() as int) =~= all);
    out
}

/// A lint disabled by an old name is disabled: both names mean the same.
pub proof fn lemma_old_name_disables(entry: Seq<char>, l: Lint)
    requires
        current_name(entry) == lint_name(l),
    ensures
        turns_off(entry, l),
{
}

/// `group:` and a family's name disables every lint of the family.
pub proof fn lemma_family_disables(l: Lint)
    ensures
        turns_off("group:"@ + family_name(family_of(l)), l),
{
}

/// A pass runs exactly if it is registered, opted into where it has to be, and
/// disabled by no entry.
pub proof fn lemma_running(config: MordantConfig, all: Seq<Lint>, l: Lint)
    ensures
        running(config, all).contains(l) <==> all.contains(l) && runs(config, l),
    decreases all.len(),
{
    if all.len() > 0 {
        let front = all.drop_last();
        let rest = running(config, front);
        let out = running(config, all);
        lemma_running(config, front, l);
        assert(all[all.len() - 1] == all.last());
        if front.contains(l) {
            let i = choose|i: int| 0 <= i < front.len() && front[i] == l;
            assert(all[i] == l);
        }
        if all.contains(l) {
            let i = choose|i: int| 0 <= i < all.len() && all[i] == l;
            if i < front.len() {
                assert(front[i] == l);
            }
        }
        if rest.contains(l) {
            let i = choose|i: int| 0 <= i < rest.len() && rest[i] == l;
            assert(out[i] == l);
        }
        if out.contains(l) {
            let i = choose|i: int| 0 <= i < out.len() && out[i] == l;
            if i < rest.len() {
                assert(rest[i] == l);
            }
        }
        if runs(config, all.last()) {
            assert(out[out.len() - 1] == all.last());
        }
    }
}

/// A disabled lint never runs, by whichever of its names or its family's it
/// was disabled.
pub proof fn lemma_disabled_never_runs(config: MordantConfig, l: Lint, i: int)
    requires
        0 <= i < config.disabled@.len(),
        turns_off(config.disabled@[i]@, l),
    ensures
        !running(config, pass_order()).contains(l),
{
    lemma_running(config, pass_order(), l);
}

/// The surveys are off unless their key turns them on, and nothing else is.
pub proof fn lemma_opt_in_passes_off_by_default(config: MordantConfig, l: Lint)
    requires
        !config.flag_cluster_enabled,
        !config.stale_safety_comment_enabled,
        !config.unchecked_input_len_enabled,
        !config.parallel_params_enabled,
        !config.some_still_unchecked_enabled,
        config.disabled@.len() == 0,
    ensures
        runs(config, l) <==> !(l == Lint::FlagCluster || l == Lint::StaleSafetyComment || l
            == Lint::UncheckedInputLen || l == Lint::ParallelParams || l == Lint::SomeIf),
{
}

/// A lint's own name disables that lint and no other.
pub proof fn lemma_name_disables_one(l: Lint, other: Lint)
    ensures
        turns_off(lint_name(l), other) <==> other == l,
{
    lemma_lint_name_is_current(l);
    if current_name(lint_name(l)) == lint_name(other) {
        lemma_lint_names_differ(l, other);
    }
    let group = "group:"@ + family_name(family_of(other));
    reveal_strlit("group:");
    assert(group[5] == ':');
    assert(group.contains(':'));
}

/// Which lint belongs to which family.
pub proof fn lemma_families(l: Lint)
    ensures
        family_of(l) == Family::State <==> (l == Lint::BoolBesideOption || l
            == Lint::DependentField || l == Lint::ExclusiveOptions || l == Lint::FlagCluster || l
            == Lint::GuardFlag || l == Lint::ParallelBools || l == Lint::ParallelParams || l
            == Lint::ParallelVecs || l == Lint::SomeIf || l == Lint::StoredProjection || l
            == Lint::StringlyState || l == Lint::UnnamedTuple || l == Lint::UnreadNone),
        family_of(l) == Family::Checks <==> (l == Lint::AsymmetricGuard || l
            == Lint::BypassedConversion || l == Lint::BypassedValidator || l == Lint::CollapsedError
            || l == Lint::DefaultedFailure || l == Lint::PubInvariantFields || l == Lint::SentinelInt
            || l == Lint::StaleAcrossReentry || l == Lint::UncheckedInputLen || l
            == Lint::UnevenNarrowing),
        family_of(l) == Family::Errors <==> (l == Lint::DiscardedError || l
            == Lint::StringifiedError || l == Lint::StringlyError || l == Lint::UnreadErrorVariant),
        family_of(l) == Family::Enums <==> (l == Lint::NarrowedReturn || l
            == Lint::OverwideParameter || l == Lint::WildcardLocalEnum),
        family_of(l) == Family::Duplication <==> (l == Lint::ReimplementedHelper || l
            == Lint::SameMatchTwice),
        family_of(l) == Family::Naming <==> (l == Lint::BoolParams || l == Lint::CrossedAlias || l
            == Lint::CrossedIndex || l == Lint::MisboundArg || l == Lint::UnitMismatch),
        family_of(l) == Family::KeysLocks <==> (l == Lint::InsertThenUnwrap || l == Lint::LockOrder
            || l == Lint::NonidentityKey),
        family_of(l) == Family::Comments <==> (l == Lint::StalePanicMessage || l
            == Lint::StaleSafetyComment),
        family_of(l) == Family::Custom <==> l == Lint::ForbiddenReach,
{
}

/// The passes that run only when asked for: the others always do, unless they
/// are disabled.
pub proof fn lemma_opt_in_passes(config: MordantConfig, l: Lint)
    ensures
        opted_in(config, Lint::FlagCluster) == config.flag_cluster_enabled,
        opted_in(config, Lint::StaleSafetyComment) == config.stale_safety_comment_enabled,
        opted_in(config, Lint::UncheckedInputLen) == config.unchecked_input_len_enabled,
        opted_in(config, Lint::ParallelParams) == config.parallel_params_enabled,
        opted_in(config, Lint::SomeIf) == config.some_still_unchecked_enabled,
        l != Lint::FlagCluster && l != Lint::StaleSafetyComment && l != Lint::UncheckedInputLen && l
            != Lint::ParallelParams && l != Lint::SomeIf ==> opted_in(config, l),
        config.disabled@.len() == 0 ==> runs(config, l) == opted_in(config, l),
{
}

/// An entry disables a lint by its name of today, by an old one, or by its
/// family; it disables nothing else.
pub proof fn lemma_entry_disables(config: MordantConfig, l: Lint, i: int, old_name: Seq<char>)
    requires
        0 <= i < config.disabled@.len(),
    ensures
        config.disabled@[i]@ == lint_name(l) ==> !runs(config, l),
        config.disabled@[i]@ == old_name && current_name(old_name) == lint_name(l) ==> !runs(
            config,
            l,
        ),
        config.disabled@[i]@ == "group:"@ + family_name(family_of(l)) ==> !runs(config, l),
{
    crate::names::lemma_lint_name_is_current(l);
    assert(turns_off(config.disabled@[i]@, l) ==> turned_off(config, l));
}

} // verus!
