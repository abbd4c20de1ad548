//! Names lints of this pack used to go by. One table drives every place an
//! old name can still appear: `#[allow(..)]` in linted code, the `disabled`
//! list in `dylint.toml`, and the `lint:file` keys of a baseline written
//! before the rename.

use crate::registry::{every_lint, lint_name, position};
use crate::report::Lint;
use crate::text::same;
use vstd::prelude::*;

verus! {

/// (old, new) for every renamed lint.
pub open spec fn renames() -> Seq<(Seq<char>, Seq<char>)> {
    seq![
        ("exclusive_options"@, "options_as_enum"@),
        ("flag_cluster"@, "bool_cluster"@),
        ("guard_flag"@, "runtime_typestate"@),
        ("unread_none"@, "always_unwrapped_option"@),
        ("stored_projection"@, "derived_field"@),
        ("dependent_field"@, "field_valid_only_when"@),
        ("unnamed_tuple"@, "tuple_wants_struct"@),
        ("some_if"@, "some_still_unchecked"@),
        ("bypassed_validator"@, "unchecked_construction"@),
        ("asymmetric_guard"@, "guard_blind_to_action"@),
        ("collapsed_error"@, "error_collapsed_to_bool"@),
        ("uneven_narrowing"@, "narrowed_two_ways"@),
        ("bypassed_conversion"@, "cast_bypasses_from"@),
        ("sentinel_int"@, "sentinel_integer"@),
        ("wildcard_local_enum"@, "wildcard_over_own_enum"@),
        ("overwide_parameter"@, "param_wider_than_callers"@),
        ("narrowed_return"@, "return_wider_than_body"@),
        ("bool_params"@, "bare_bool_args"@),
        ("misbound_arg"@, "arg_named_like_other_param"@),
        ("crossed_alias"@, "interchangeable_aliases"@),
        ("crossed_index"@, "index_of_other_kind"@),
        ("nonidentity_key"@, "key_not_identity"@),
    ]
}

/// (old, new) for every renamed lint.
pub fn renamed() -> (r: Vec<(&'static str, &'static str)>)
    ensures
        r@.len() == renames().len(),
        forall|i: int|
            0 <= i < r@.len() ==> (#[trigger] r@[i]).0@ == renames()[i].0 && r@[i].1@
                == renames()[i].1,
{
    let table: Vec<(&'static str, &'static str)> = vec![
        ("exclusive_options", "options_as_enum"),
        ("flag_cluster", "bool_cluster"),
        ("guard_flag", "runtime_typestate"),
        ("unread_none", "always_unwrapped_option"),
        ("stored_projection", "derived_field"),
        ("dependent_field", "field_valid_only_when"),
        ("unnamed_tuple", "tuple_wants_struct"),
        ("some_if", "some_still_unchecked"),
        ("bypassed_validator", "unchecked_construction"),
        ("asymmetric_guard", "guard_blind_to_action"),
        ("collapsed_error", "error_collapsed_to_bool"),
        ("uneven_narrowing", "narrowed_two_ways"),
        ("bypassed_conversion", "cast_bypasses_from"),
        ("sentinel_int", "sentinel_integer"),
        ("wildcard_local_enum", "wildcard_over_own_enum"),
        ("overwide_parameter", "param_wider_than_callers"),
        ("narrowed_return", "return_wider_than_body"),
        ("bool_params", "bare_bool_args"),
        ("misbound_arg", "arg_named_like_other_param"),
        ("crossed_alias", "interchangeable_aliases"),
        ("crossed_index", "index_of_other_kind"),
        ("nonidentity_key", "key_not_identity"),
    ];
    table
}

/// The position from `i` on of the rename of `name`, or the end.
pub open spec fn rename_from(name: Seq<char>, i: int) -> int
    decreases renames().len() - i,
{
    if i >= renames().len() || renames()[i].0 == name {
        i
    } else {
        rename_from(name, i + 1)
    }
}

/// The name `name` goes by now: itself, unless it is an old name.
pub open spec fn current_name(name: Seq<char>) -> Seq<char> {
    let i = rename_from(name, 0);
    if 0 <= i < renames().len() {
        renames()[i].1
    } else {
        name
    }
}

/// The name `name` goes by now: itself, unless it is an old name.
pub fn current(name: &str) -> (r: &str)
    ensures
        r@ == current_name(name@),
{
    let table = renamed();
    let mut i: usize = 0;
    while i < table.len()
        invariant
            i <= table@.len(),
            table@.len() == renames().len(),
            forall|k: int|
                0 <= k < table@.len() ==> (#[trigger] table@[k]).0@ == renames()[k].0
                    && table@[k].1@ == renames()[k].1,
            rename_from(name@, 0) == rename_from(name@, i as int),
        decreases table.len() - i,
    {
        let (old_name, new_name) = table[i];
        if same(old_name, name) {
            return new_name;
        }
        i = i + 1;
    }
    name
}

/// What tells the names of lints apart: how long they are, and their ends.
spec fn mark(s: Seq<char>) -> (nat, char, char) {
    (s.len(), s[0], s.last())
}

/// Where the name with the mark stands, the old names in the order of their
/// renames and the lints behind them; -1 for any other name.
spec fn rank(m: (nat, char, char)) -> int {
    if m == (17nat, 'e', 's') {
        0
    } else if m == (12nat, 'f', 'r') {
        1
    } else if m == (10nat, 'g', 'g') {
        2
    } else if m == (11nat, 'u', 'e') {
        3
    } else if m == (17nat, 's', 'n') {
        4
    } else if m == (15nat, 'd', 'd') {
        5
    } else if m == (13nat, 'u', 'e') {
        6
    } else if m == (7nat, 's', 'f') {
        7
    } else if m == (18nat, 'b', 'r') {
        8
    } else if m == (16nat, 'a', 'd') {
        9
    } else if m == (15nat, 'c', 'r') {
        10
    } else if m == (16nat, 'u', 'g') {
        11
    } else if m == (19nat, 'b', 'n') {
        12
    } else if m == (12nat, 's', 't') {
        13
    } else if m == (19nat, 'w', 'm') {
        14
    } else if m == (18nat, 'o', 'r') {
        15
    } else if m == (15nat, 'n', 'n') {
        16
    } else if m == (11nat, 'b', 's') {
        17
    } else if m == (12nat, 'm', 'g') {
        18
    } else if m == (13nat, 'c', 's') {
        19
    } else if m == (13nat, 'c', 'x') {
        20
    } else if m == (15nat, 'n', 'y') {
        21
    } else if m == (15nat, 'o', 'm') {
        22
    } else if m == (12nat, 'b', 'r') {
        23
    } else if m == (17nat, 'r', 'e') {
        24
    } else if m == (23nat, 'a', 'n') {
        25
    } else if m == (13nat, 'd', 'd') {
        26
    } else if m == (21nat, 'f', 'n') {
        27
    } else if m == (18nat, 't', 't') {
        28
    } else if m == (20nat, 's', 'd') {
        29
    } else if m == (22nat, 'u', 'n') {
        30
    } else if m == (21nat, 'g', 'n') {
        31
    } else if m == (23nat, 'e', 'l') {
        32
    } else if m == (17nat, 'n', 's') {
        33
    } else if m == (18nat, 'c', 'm') {
        34
    } else if m == (16nat, 's', 'r') {
        35
    } else if m == (22nat, 'w', 'm') {
        36
    } else if m == (24nat, 'p', 's') {
        37
    } else if m == (22nat, 'r', 'y') {
        38
    } else if m == (14nat, 'b', 's') {
        39
    } else if m == (26nat, 'a', 'm') {
        40
    } else if m == (23nat, 'i', 's') {
        41
    } else if m == (19nat, 'i', 'd') {
        42
    } else if m == (16nat, 'k', 'y') {
        43
    } else if m == (18nat, 'b', 'n') {
        44
    } else if m == (17nat, 'd', 'e') {
        45
    } else if m == (15nat, 'd', 'r') {
        46
    } else if m == (15nat, 'f', 'h') {
        47
    } else if m == (18nat, 'i', 'p') {
        48
    } else if m == (10nat, 'l', 'r') {
        49
    } else if m == (14nat, 'p', 's') {
        50
    } else if m == (15nat, 'p', 's') {
        51
    } else if m == (13nat, 'p', 's') {
        52
    } else if m == (20nat, 'p', 's') {
        53
    } else if m == (20nat, 'r', 'r') {
        54
    } else if m == (16nat, 's', 'e') {
        55
    } else if m == (20nat, 's', 'y') {
        56
    } else if m == (19nat, 's', 'e') {
        57
    } else if m == (20nat, 's', 't') {
        58
    } else if m == (17nat, 's', 'r') {
        59
    } else if m == (14nat, 's', 'r') {
        60
    } else if m == (14nat, 's', 'e') {
        61
    } else if m == (19nat, 'u', 'n') {
        62
    } else if m == (13nat, 'u', 'h') {
        63
    } else if m == (20nat, 'u', 't') {
        64
    } else {
        -1
    }
}

proof fn lemma_old_rank(i: int)
    requires
        0 <= i < renames().len(),
    ensures
        rank(mark(renames()[i].0)) == i,
{
    if i == 0 {
        reveal_strlit("exclusive_options");
    } else if i == 1 {
        reveal_strlit("flag_cluster");
    } else if i == 2 {
        reveal_strlit("guard_flag");
    } else if i == 3 {
        reveal_strlit("unread_none");
    } else if i == 4 {
        reveal_strlit("stored_projection");
    } else if i == 5 {
        reveal_strlit("dependent_field");
    } else if i == 6 {
        reveal_strlit("unnamed_tuple");
    } else if i == 7 {
        reveal_strlit("some_if");
    } else if i == 8 {
        reveal_strlit("bypassed_validator");
    } else if i == 9 {
        reveal_strlit("asymmetric_guard");
    } else if i == 10 {
        reveal_strlit("collapsed_error");
    } else if i == 11 {
        reveal_strlit("uneven_narrowing");
    } else if i == 12 {
        reveal_strlit("bypassed_conversion");
    } else if i == 13 {
        reveal_strlit("sentinel_int");
    } else if i == 14 {
        reveal_strlit("wildcard_local_enum");
    } else if i == 15 {
        reveal_strlit("overwide_parameter");
    } else if i == 16 {
        reveal_strlit("narrowed_return");
    } else if i == 17 {
        reveal_strlit("bool_params");
    } else if i == 18 {
        reveal_strlit("misbound_arg");
    } else if i == 19 {
        reveal_strlit("crossed_alias");
    } else if i == 20 {
        reveal_strlit("crossed_index");
    } else if i == 21 {
        reveal_strlit("nonidentity_key");
    }
}

proof fn lemma_lint_rank(l: Lint)
    ensures
        rank(mark(lint_name(l))) == renames().len() + position(l),
        !lint_name(l).contains(':'),
{
    match l {
        Lint::ExclusiveOptions => reveal_strlit("options_as_enum"),
        Lint::FlagCluster => reveal_strlit("bool_cluster"),
        Lint::GuardFlag => reveal_strlit("runtime_typestate"),
        Lint::UnreadNone => reveal_strlit("always_unwrapped_option"),
        Lint::StoredProjection => reveal_strlit("derived_field"),
        Lint::DependentField => reveal_strlit("field_valid_only_when"),
        Lint::UnnamedTuple => reveal_strlit("tuple_wants_struct"),
        Lint::SomeIf => reveal_strlit("some_still_unchecked"),
        Lint::BypassedValidator => reveal_strlit("unchecked_construction"),
        Lint::AsymmetricGuard => reveal_strlit("guard_blind_to_action"),
        Lint::CollapsedError => reveal_strlit("error_collapsed_to_bool"),
        Lint::UnevenNarrowing => reveal_strlit("narrowed_two_ways"),
        Lint::BypassedConversion => reveal_strlit("cast_bypasses_from"),
        Lint::SentinelInt => reveal_strlit("sentinel_integer"),
        Lint::WildcardLocalEnum => reveal_strlit("wildcard_over_own_enum"),
        Lint::OverwideParameter => reveal_strlit("param_wider_than_callers"),
        Lint::NarrowedReturn => reveal_strlit("return_wider_than_body"),
        Lint::BoolParams => reveal_strlit("bare_bool_args"),
        Lint::MisboundArg => reveal_strlit("arg_named_like_other_param"),
        Lint::CrossedAlias => reveal_strlit("interchangeable_aliases"),
        Lint::CrossedIndex => reveal_strlit("index_of_other_kind"),
        Lint::NonidentityKey => reveal_strlit("key_not_identity"),
        Lint::BoolBesideOption => reveal_strlit("bool_beside_option"),
        Lint::DefaultedFailure => reveal_strlit("defaulted_failure"),
        Lint::DiscardedError => reveal_strlit("discarded_error"),
        Lint::ForbiddenReach => reveal_strlit("forbidden_reach"),
        Lint::InsertThenUnwrap => reveal_strlit("insert_then_unwrap"),
        Lint::LockOrder => reveal_strlit("lock_order"),
        Lint::ParallelBools => reveal_strlit("parallel_bools"),
        Lint::ParallelParams => reveal_strlit("parallel_params"),
        Lint::ParallelVecs => reveal_strlit("parallel_vecs"),
        Lint::PubInvariantFields => reveal_strlit("pub_invariant_fields"),
        Lint::ReimplementedHelper => reveal_strlit("reimplemented_helper"),
        Lint::SameMatchTwice => reveal_strlit("same_match_twice"),
        Lint::StaleAcrossReentry => reveal_strlit("stale_across_reentry"),
        Lint::StalePanicMessage => reveal_strlit("stale_panic_message"),
        Lint::StaleSafetyComment => reveal_strlit("stale_safety_comment"),
        Lint::StringifiedError => reveal_strlit("stringified_error"),
        Lint::StringlyError => reveal_strlit("stringly_error"),
        Lint::StringlyState => reveal_strlit("stringly_state"),
        Lint::UncheckedInputLen => reveal_strlit("unchecked_input_len"),
        Lint::UnitMismatch => reveal_strlit("unit_mismatch"),
        Lint::UnreadErrorVariant => reveal_strlit("unread_error_variant"),
    }
}

proof fn lemma_new_rank(i: int)
    requires
        0 <= i < renames().len(),
    ensures
        rank(mark(renames()[i].1)) == renames().len() + i,
{
    lemma_lint_rank(every_lint()[i]);
}

/// No two lints go by one name.
pub proof fn lemma_lint_names_differ(a: Lint, b: Lint)
    requires
        lint_name(a) == lint_name(b),
    ensures
        a == b,
{
    lemma_lint_rank(a);
    lemma_lint_rank(b);
}

/// The name a lint goes by is no old name, and holds no colon.
pub proof fn lemma_lint_name_is_current(l: Lint)
    ensures
        current_name(lint_name(l)) == lint_name(l),
        !lint_name(l).contains(':'),
{
    lemma_lint_rank(l);
    assert forall|i: int| 0 <= i < renames().len() implies (#[trigger] renames()[i]).0
        != lint_name(l) by {
        lemma_old_rank(i);
    }
    lemma_current_passes_others_through(lint_name(l));
}

/// Every name, old or new, stands in the table once: no rename is of a name
/// another rename gives.
pub proof fn lemma_renames_are_unique_and_never_chain()
    ensures
        forall|i: int, j: int|
            0 <= i < j < renames().len() ==> (#[trigger] renames()[i]).0 != (
            #[trigger] renames()[j]).0 && renames()[i].1 != renames()[j].1,
        forall|i: int, j: int|
            0 <= i < renames().len() && 0 <= j < renames().len() ==> (#[trigger] renames()[i]).1
                != (#[trigger] renames()[j]).0,
{
    assert forall|i: int, j: int| 0 <= i < j < renames().len() implies (#[trigger] renames()[i]).0
        != (#[trigger] renames()[j]).0 && renames()[i].1 != renames()[j].1 by {
        lemma_old_rank(i);
        lemma_old_rank(j);
        lemma_new_rank(i);
        lemma_new_rank(j);
    }
    assert forall|i: int, j: int|
        0 <= i < renames().len() && 0 <= j < renames().len() implies (#[trigger] renames()[i]).1
        != (#[trigger] renames()[j]).0 by {
        lemma_old_rank(i);
        lemma_old_rank(j);
        lemma_new_rank(i);
        lemma_new_rank(j);
    }
}

proof fn lemma_rename_from(name: Seq<char>, i: int)
    requires
        0 <= i <= renames().len(),
    ensures
        i <= rename_from(name, i) <= renames().len(),
        rename_from(name, i) < renames().len() ==> renames()[rename_from(name, i)].0 == name,
        forall|k: int| i <= k < rename_from(name, i) ==> (#[trigger] renames()[k]).0 != name,
    decreases renames().len() - i,
{
    if i < renames().len() && renames()[i].0 != name {
        lemma_rename_from(name, i + 1);
    }
}

/// A name that is not an old one is its own name of today.
pub proof fn lemma_current_passes_others_through(name: Seq<char>)
    requires
        forall|i: int| 0 <= i < renames().len() ==> (#[trigger] renames()[i]).0 != name,
    ensures
        current_name(name) == name,
{
    lemma_rename_from(name, 0);
}

/// An old name goes by the name it was renamed to.
pub proof fn lemma_current_maps_old_names(i: int)
    requires
        0 <= i < renames().len(),
    ensures
        current_name(renames()[i].0) == renames()[i].1,
{
    let name = renames()[i].0;
    lemma_rename_from(name, 0);
    lemma_renames_are_unique_and_never_chain();
    let k = rename_from(name, 0);
    if k < i {
        assert(renames()[k].0 != renames()[i].0);
    }
    assert(k <= i) by {
        if k > i {
            assert(renames()[i].0 != name);
        }
    }
}

/// A name of today stays as it is.
pub proof fn lemma_current_is_final(name: Seq<char>)
    ensures
        current_name(current_name(name)) == current_name(name),
{
    lemma_rename_from(name, 0);
    lemma_renames_are_unique_and_never_chain();
    let i = rename_from(name, 0);
    if i < renames().len() {
        let now = renames()[i].1;
        assert forall|k: int| 0 <= k < renames().len() implies (#[trigger] renames()[k]).0
            != now by {}
        lemma_current_passes_others_through(now);
    }
}

/// What each old name became.
pub proof fn lemma_old_names_today()
    ensures
        current_name("exclusive_options"@) == "options_as_enum"@,
        current_name("flag_cluster"@) == "bool_cluster"@,
        current_name("guard_flag"@) == "runtime_typestate"@,
        current_name("unread_none"@) == "always_unwrapped_option"@,
        current_name("stored_projection"@) == "derived_field"@,
        current_name("dependent_field"@) == "field_valid_only_when"@,
        current_name("unnamed_tuple"@) == "tuple_wants_struct"@,
        current_name("some_if"@) == "some_still_unchecked"@,
        current_name("bypassed_validator"@) == "unchecked_construction"@,
        current_name("asymmetric_guard"@) == "guard_blind_to_action"@,
        current_name("collapsed_error"@) == "error_collapsed_to_bool"@,
        current_name("uneven_narrowing"@) == "narrowed_two_ways"@,
        current_name("bypassed_conversion"@) == "cast_bypasses_from"@,
        current_name("sentinel_int"@) == "sentinel_integer"@,
        current_name("wildcard_local_enum"@) == "wildcard_over_own_enum"@,
        current_name("overwide_parameter"@) == "param_wider_than_callers"@,
        current_name("narrowed_return"@) == "return_wider_than_body"@,
        current_name("bool_params"@) == "bare_bool_args"@,
        current_name("misbound_arg"@) == "arg_named_like_other_param"@,
        current_name("crossed_alias"@) == "interchangeable_aliases"@,
        current_name("crossed_index"@) == "index_of_other_kind"@,
        current_name("nonidentity_key"@) == "key_not_identity"@,
{
    let n = renames().len() as int;
    assert forall|i: int| 0 <= i < n implies current_name((#[trigger] renames()[i]).0)
        == renames()[i].1 by {
        lemma_current_maps_old_names(i);
    }
    let r = renames();
    assert(r[0].0 == "exclusive_options"@ && r[1].0 == "flag_cluster"@ && r[2].0 == "guard_flag"@);
    assert(r[3].0 == "unread_none"@ && r[4].0 == "stored_projection"@);
    assert(r[5].0 == "dependent_field"@ && r[6].0 == "unnamed_tuple"@ && r[7].0 == "some_if"@);
    assert(r[8].0 == "bypassed_validator"@ && r[9].0 == "asymmetric_guard"@);
    assert(r[10].0 == "collapsed_error"@ && r[11].0 == "uneven_narrowing"@);
    assert(r[12].0 == "bypassed_conversion"@ && r[13].0 == "sentinel_int"@);
    assert(r[14].0 == "wildcard_local_enum"@ && r[15].0 == "overwide_parameter"@);
    assert(r[16].0 == "narrowed_return"@ && r[17].0 == "bool_params"@);
    assert(r[18].0 == "misbound_arg"@ && r[19].0 == "crossed_alias"@);
    assert(r[20].0 == "crossed_index"@ && r[21].0 == "nonidentity_key"@);
}

} // verus!
