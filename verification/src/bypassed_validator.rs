//! Struct literals that bypass a validating constructor, and fields a
//! validating constructor checks that are assignable outside their module.
//!
//! A validating constructor is a receiver-less function of an inherent impl
//! that returns `Result<Self, _>` or `Option<Self>` and whose body rejects
//! some value it then stores in a field.

use crate::adt_facts::{home_module, impl_adt, impl_self_adt, in_own_code_of, module_of, own_code};
use crate::bypassed_conversion::{gives_target, target_given};
use crate::config::MordantConfig;
use crate::ctor_verdict::{checked_fields, constructor_checks, listed_checks, FieldCheck, Program};
use crate::defs::{DefKind, Definitions, FieldDef};
use crate::enum_facts::{parent_def, parent_of};
use crate::hir::{Expr, ExprKind};
use crate::ids::{DefId, Span, Symbol};
use crate::report::{
    emit_with_note, list_names, listed_names, noted, views, Finding, FindingView, Lint,
};
use crate::table::{add_new, by_key, is_in, sort_by_key, with_added};
use crate::text::{copy_texts, texts};
use crate::ty::adt_id;
use vstd::prelude::*;
use vstd::string::*;

verus! {

/// A constructor and the fields it checks.
#[derive(Debug)]
pub struct Validator {
    pub adt: DefId,
    pub ctor: Symbol,
    pub checks: Vec<FieldCheck>,
}

pub struct ValidatorView {
    pub adt: DefId,
    pub ctor: Symbol,
    pub checks: Seq<FieldCheck>,
}

impl View for Validator {
    type V = ValidatorView;

    open spec fn view(&self) -> ValidatorView {
        ValidatorView { adt: self.adt, ctor: self.ctor, checks: self.checks@ }
    }
}

#[derive(Debug)]
pub struct BypassedValidator {
    pub extra_resource_errors: Vec<String>,
    /// The constructors that check at least one stored field.
    pub validators: Vec<Validator>,
    /// Literal constructions outside the struct's own module and impls.
    pub literals: Vec<(DefId, Span)>,
}

#[verifier::ext_equal]
pub struct BypassedView {
    pub extra: Seq<Seq<char>>,
    pub validators: Seq<ValidatorView>,
    pub literals: Seq<(DefId, Span)>,
}

impl View for BypassedValidator {
    type V = BypassedView;

    open spec fn view(&self) -> BypassedView {
        BypassedView {
            extra: texts(self.extra_resource_errors@),
            validators: self.validators@.map_values(|v: Validator| v@),
            literals: self.literals@,
        }
    }
}

/// Every validator checks something.
pub open spec fn validators_check(s: BypassedView) -> bool {
    forall|i: int| 0 <= i < s.validators.len() ==> (#[trigger] s.validators[i]).checks.len() > 0
}

/// The struct of the crate an impl block is for.
pub open spec fn impl_struct(defs: Definitions, imp: DefId) -> Option<DefId> {
    match impl_adt(defs, imp) {
        Some(d) => if defs.is_struct(d) && defs.local(d) {
            Some(d)
        } else {
            None
        },
        None => None,
    }
}

fn impl_self_struct(defs: &Definitions, imp: DefId) -> (r: Option<DefId>)
    ensures
        r == impl_struct(*defs, imp),
{
    match impl_self_adt(defs, imp) {
        Some(d) => if defs.struct_here(d) && defs.is_local(d) {
            Some(d)
        } else {
            None
        },
        None => None,
    }
}

/// The struct a function may be a validating constructor of. A trait impl's
/// signature is the trait's idea, not the type's promise; a function with a
/// receiver copies or navigates a value that already passed whatever check
/// there is.
pub open spec fn candidate(defs: Definitions, item: DefId) -> Option<DefId> {
    match (parent_of(defs, item), defs.sig(item)) {
        (Some(imp), Some(sig)) => match impl_struct(defs, imp) {
            Some(did) => if defs.kind(imp) == DefKind::Impl(false) && defs.is_fn(item)
                && !sig.is_method && gives_target(defs, sig.output, did) == Some(true) {
                Some(did)
            } else {
                None
            },
            None => None,
        },
        _ => None,
    }
}

fn candidate_for(defs: &Definitions, item: DefId) -> (r: Option<DefId>)
    ensures
        r == candidate(*defs, item),
{
    match (parent_def(defs, item), defs.sig_of(item)) {
        (Some(imp), Some(sig)) => match impl_self_struct(defs, imp) {
            Some(did) => {
                let inherent = match defs.kind_of(imp) {
                    DefKind::Impl(of_trait) => !of_trait,
                    _ => false,
                };
                let wraps = match target_given(defs, &sig.output, did) {
                    Some(w) => w,
                    None => false,
                };
                if inherent && defs.function_here(item) && !sig.is_method && wraps {
                    Some(did)
                } else {
                    None
                }
            },
            None => None,
        },
        _ => None,
    }
}

/// What is known once a function of an impl has been visited.
pub open spec fn after_impl_item(prog: Program, s: BypassedView, item: DefId) -> BypassedView {
    match candidate(prog.defs, item) {
        Some(did) => {
            let checks = listed_checks(constructor_checks(prog, item, did, s.extra));
            if checks.len() > 0 {
                BypassedView {
                    validators: s.validators.push(
                        ValidatorView { adt: did, ctor: prog.defs.at(item)->Some_0.name, checks },
                    ),
                    ..s
                }
            } else {
                s
            }
        },
        None => s,
    }
}

/// What is known once an expression in `owner` has been visited. The type's
/// own module can write the literal whatever the field visibility, and its
/// impls are the implementation even from another module.
pub open spec fn after_expr(
    defs: Definitions,
    s: BypassedView,
    owner: DefId,
    e: Expr,
) -> BypassedView {
    match (e.kind, adt_id(e.ty)) {
        (ExprKind::Struct(_, _, _), Some(did)) => if defs.local(did) && defs.is_struct(did)
            && !own_code(defs, owner, did) {
            BypassedView { literals: s.literals.push((did, e.span)), ..s }
        } else {
            s
        },
        _ => s,
    }
}

// ---------------------------------------------------------------- fields

pub open spec fn field_at(defs: Definitions, did: DefId, i: usize) -> Option<FieldDef> {
    if (i as int) < defs.fields(did).len() {
        Some(defs.fields(did)[i as int])
    } else {
        None
    }
}

fn get_field(defs: &Definitions, did: DefId, i: usize) -> (r: Option<&FieldDef>)
    ensures
        match r {
            Some(f) => field_at(*defs, did, i) == Some(*f),
            None => field_at(*defs, did, i) is None,
        },
{
    match defs.fields_of(did) {
        Some(fields) => if i < fields.len() {
            Some(&fields[i])
        } else {
            None
        },
        None => None,
    }
}

/// A private field is visible in exactly the struct's module; anything else
/// widens the write surface past the check.
pub open spec fn is_open(defs: Definitions, did: DefId, f: FieldDef) -> bool {
    f.visible_in is None || f.visible_in != home_module(defs, did)
}

/// What has been said of a struct's fields: which, and what.
pub struct Exposed {
    pub reported: Seq<usize>,
    pub findings: Seq<FindingView>,
}

pub open spec fn exposure(
    defs: Definitions,
    did: DefId,
    ctor: Symbol,
    c: FieldCheck,
    f: FieldDef,
) -> FindingView {
    noted(
        Lint::PubInvariantFields,
        f.span,
        "`"@ + defs.name_text(did) + "::"@ + defs.text(ctor) + "` rejects some values of `"@
            + defs.text(f.name)
            + "` before storing it, but the field is assignable outside its module"@,
        c.check,
        "the check a direct write skips"@,
        "make the field private; the checked invariant otherwise holds only until the first outside write"@,
    )
}

/// With one more check.
pub open spec fn expose(
    defs: Definitions,
    did: DefId,
    ctor: Symbol,
    c: FieldCheck,
    x: Exposed,
) -> Exposed {
    match field_at(defs, did, c.field) {
        Some(f) => if !x.reported.contains(c.field) && is_open(defs, did, f) {
            Exposed {
                reported: x.reported.push(c.field),
                findings: x.findings.push(exposure(defs, did, ctor, c, f)),
            }
        } else {
            x
        },
        None => x,
    }
}

/// With the first `k` checks of a constructor.
pub open spec fn expose_checks(
    defs: Definitions,
    did: DefId,
    ctor: Symbol,
    checks: Seq<FieldCheck>,
    k: int,
    x: Exposed,
) -> Exposed
    decreases k,
{
    if k <= 0 {
        x
    } else {
        expose(
            defs,
            did,
            ctor,
            checks[k - 1],
            expose_checks(defs, did, ctor, checks, k - 1, x),
        )
    }
}

/// What is said of a struct's fields by the first `k` validators.
pub open spec fn exposed_fields(
    defs: Definitions,
    did: DefId,
    vs: Seq<ValidatorView>,
    k: int,
) -> Exposed
    decreases k,
{
    if k <= 0 {
        Exposed { reported: Seq::empty(), findings: Seq::empty() }
    } else {
        let before = exposed_fields(defs, did, vs, k - 1);
        if vs[k - 1].adt == did {
            expose_checks(
                defs,
                did,
                vs[k - 1].ctor,
                vs[k - 1].checks,
                vs[k - 1].checks.len() as int,
                before,
            )
        } else {
            before
        }
    }
}

/// The structs of the first `k` validators, each once.
pub open spec fn validated(vs: Seq<ValidatorView>, k: int) -> Seq<DefId>
    decreases k,
{
    if k <= 0 {
        Seq::empty()
    } else {
        with_added(validated(vs, k - 1), vs[k - 1].adt)
    }
}

/// The structs with where they start.
pub open spec fn with_starts(defs: Definitions, ids: Seq<DefId>) -> Seq<(u64, DefId)> {
    ids.map_values(|d: DefId| (defs.span(d).lo as u64, d))
}

/// What is said of the fields of the first `k` structs.
pub open spec fn field_findings(
    defs: Definitions,
    vs: Seq<ValidatorView>,
    structs: Seq<(u64, DefId)>,
    k: int,
) -> Seq<FindingView>
    decreases k,
{
    if k <= 0 {
        Seq::empty()
    } else {
        field_findings(defs, vs, structs, k - 1) + exposed_fields(
            defs,
            structs[k - 1].1,
            vs,
            vs.len() as int,
        ).findings
    }
}

// ---------------------------------------------------------------- literals

/// The first validator of the struct, from `k` on.
pub open spec fn first_validator(
    vs: Seq<ValidatorView>,
    did: DefId,
    k: int,
) -> Option<ValidatorView>
    decreases vs.len() - k,
{
    if k >= vs.len() {
        None
    } else if vs[k].adt == did {
        Some(vs[k])
    } else {
        first_validator(vs, did, k + 1)
    }
}

pub open spec fn field_text(defs: Definitions, did: DefId, i: usize) -> Seq<char> {
    match field_at(defs, did, i) {
        Some(f) => defs.text(f.name),
        None => ""@,
    }
}

pub open spec fn checked_names(
    defs: Definitions,
    did: DefId,
    checks: Seq<FieldCheck>,
) -> Seq<Seq<char>> {
    checks.map_values(|c: FieldCheck| field_text(defs, did, c.field))
}

pub open spec fn literal_finding(
    defs: Definitions,
    did: DefId,
    span: Span,
    v: ValidatorView,
) -> FindingView {
    noted(
        Lint::BypassedValidator,
        span,
        "`"@ + defs.path_text(did) + "` is constructed by literal here, but `"@
            + defs.name_text(did) + "::"@ + defs.text(v.ctor) + "` checks "@ + listed_names(
            checked_names(defs, did, v.checks),
        ) + " before constructing one"@,
        v.checks[0].check,
        "the check this literal never runs"@,
        "construct through the validating function, or move this literal into the type's module"@,
    )
}

/// What is said of the first `k` literals.
pub open spec fn literal_findings(defs: Definitions, s: BypassedView, k: int) -> Seq<FindingView>
    decreases k,
{
    if k <= 0 {
        Seq::empty()
    } else {
        let before = literal_findings(defs, s, k - 1);
        let (did, span) = s.literals[k - 1];
        match first_validator(s.validators, did, 0) {
            Some(v) => before.push(literal_finding(defs, did, span, v)),
            None => before,
        }
    }
}

/// What the lints say of the crate: the exposed fields struct by struct in
/// source order, then the literals.
pub open spec fn validator_findings(defs: Definitions, s: BypassedView) -> Seq<FindingView> {
    let structs = by_key(
        with_starts(defs, validated(s.validators, s.validators.len() as int)),
    );
    field_findings(defs, s.validators, structs, structs.len() as int) + literal_findings(
        defs,
        s,
        s.literals.len() as int,
    )
}

impl BypassedValidator {
    pub fn new(config: &MordantConfig) -> (r: Self)
        ensures
            r@ == (BypassedView {
                extra: texts(config.validator_resource_errors@),
                validators: Seq::empty(),
                literals: Seq::empty(),
            }),
            validators_check(r@),
    {
        let r = BypassedValidator {
            extra_resource_errors: copy_texts(&config.validator_resource_errors),
            validators: Vec::new(),
            literals: Vec::new(),
        };
        assert(r@.validators =~= Seq::<ValidatorView>::empty());
        r
    }

    /// Visits a function of an impl.
    pub fn check_impl_item(&mut self, prog: &Program, item: DefId)
        requires
            prog.valid(),
            validators_check(old(self)@),
        ensures
            final(self)@ == after_impl_item(*prog, old(self)@, item),
            validators_check(final(self)@),
    {
        let ghost before = self@;
        match candidate_for(&prog.defs, item) {
            Some(did) => {
                let checks = checked_fields(prog, item, did, &self.extra_resource_errors);
                if checks.len() > 0 {
                    match prog.defs.get(item) {
                        Some(d) => {
                            let v = Validator { adt: did, ctor: d.name, checks };
                            let ghost was = self.validators@;
                            self.validators.push(v);
                            assert(self@.validators =~= before.validators.push(v@));
                            assert(self@ =~= after_impl_item(*prog, before, item));
                            assert forall|i: int| 0 <= i < self@.validators.len() implies (
                            #[trigger] self@.validators[i]).checks.len() > 0 by {
                                if i < before.validators.len() {
                                    assert(before.validators[i].checks.len() > 0);
                                }
                            }
                        },
                        None => {},
                    }
                }
            },
            None => {},
        }
    }

    /// Visits an expression in `owner`.
    pub fn check_expr(&mut self, defs: &Definitions, owner: DefId, e: &Expr)
        ensures
            final(self)@ == after_expr(*defs, old(self)@, owner, *e),
            validators_check(old(self)@) ==> validators_check(final(self)@),
    {
        let ghost before = self@;
        match (&e.kind, e.ty.adt()) {
            (ExprKind::Struct(_, _, _), Some(did)) => {
                if defs.is_local(did) && defs.struct_here(did) && !in_own_code_of(
                    defs,
                    owner,
                    did,
                ) {
                    self.literals.push((did, e.span));
                    assert(self@ =~= after_expr(*defs, before, owner, *e));
                }
            },
            _ => {},
        }
    }

    fn add_exposed(&self, defs: &Definitions, did: DefId, out: &mut Vec<Finding>)
        ensures
            views(final(out)@) == views(old(out)@) + exposed_fields(
                *defs,
                did,
                self@.validators,
                self@.validators.len() as int,
            ).findings,
    {
        let ghost vs = self@.validators;
        let ghost start = views(out@);
        let module = module_of(defs, did);
        let mut reported: Vec<usize> = Vec::new();
        let mut i: usize = 0;
        assert(views(out@) =~= start + exposed_fields(*defs, did, vs, 0).findings);
        while i < self.validators.len()
            invariant
                i <= self.validators@.len(),
                vs == self@.validators,
                module == home_module(*defs, did),
                reported@ == exposed_fields(*defs, did, vs, i as int).reported,
                views(out@) == start + exposed_fields(*defs, did, vs, i as int).findings,
            decreases self.validators.len() - i,
        {
            let v = &self.validators[i];
            assert(vs[i as int] == v@);
            if v.adt == did {
                let ghost x = exposed_fields(*defs, did, vs, i as int);
                let mut k: usize = 0;
                while k < v.checks.len()
                    invariant
                        k <= v.checks@.len(),
                        module == home_module(*defs, did),
                        reported@ == expose_checks(
                            *defs,
                            did,
                            v.ctor,
                            v.checks@,
                            k as int,
                            x,
                        ).reported,
                        views(out@) == start + expose_checks(
                            *defs,
                            did,
                            v.ctor,
                            v.checks@,
                            k as int,
                            x,
                        ).findings,
                    decreases v.checks.len() - k,
                {
                    let c: FieldCheck = v.checks[k];
                    match get_field(defs, did, c.field) {
                        Some(f) => {
                            let open_field = match (f.visible_in, module) {
                                (None, _) => true,
                                (Some(m), Some(n)) => m != n,
                                (Some(_), None) => true,
                            };
                            if !is_in(&reported, &c.field) && open_field {
                                reported.push(c.field);
                                let mut msg = String::from_str("`");
                                msg.append(defs.name_of(did));
                                msg.append("::");
                                msg.append(defs.text_of(v.ctor));
                                msg.append("` rejects some values of `");
                                msg.append(defs.text_of(f.name));
                                msg.append(
                                    "` before storing it, but the field is assignable outside its module",
                                );
                                emit_with_note(
                                    out,
                                    Lint::PubInvariantFields,
                                    f.span,
                                    msg,
                                    c.check,
                                    "the check a direct write skips",
                                    "make the field private; the checked invariant otherwise holds only until the first outside write",
                                );
                            }
                        },
                        None => {},
                    }
                    k = k + 1;
                    assert(views(out@) =~= start + expose_checks(
                        *defs,
                        did,
                        v.ctor,
                        v.checks@,
                        k as int,
                        x,
                    ).findings);
                }
            }
            i = i + 1;
        }
    }

    fn validator_for(&self, did: DefId) -> (r: Option<&Validator>)
        ensures
            match r {
                Some(v) => first_validator(self@.validators, did, 0) == Some(v@) && exists|i: int|
                    0 <= i < self@.validators.len() && self@.validators[i] == v@,
                None => first_validator(self@.validators, did, 0) is None,
            },
    {
        let ghost vs = self@.validators;
        let mut k: usize = 0;
        while k < self.validators.len()
            invariant
                k <= self.validators@.len(),
                vs == self@.validators,
                first_validator(vs, did, 0) == first_validator(vs, did, k as int),
            decreases self.validators.len() - k,
        {
            assert(vs[k as int] == self.validators@[k as int]@);
            if self.validators[k].adt == did {
                return Some(&self.validators[k]);
            }
            k = k + 1;
        }
        None
    }

    /// What the lints say of the crate.
    pub fn check_crate_post(&self, defs: &Definitions) -> (r: Vec<Finding>)
        requires
            validators_check(self@),
        ensures
            views(r@) == validator_findings(*defs, self@),
    {
        let ghost vs = self@.validators;
        let mut ids: Vec<DefId> = Vec::new();
        let mut i: usize = 0;
        while i < self.validators.len()
            invariant
                i <= self.validators@.len(),
                vs == self@.validators,
                ids@ == validated(vs, i as int),
            decreases self.validators.len() - i,
        {
            assert(vs[i as int] == self.validators@[i as int]@);
            add_new(&mut ids, self.validators[i].adt);
            i = i + 1;
        }
        let ghost want = with_starts(*defs, ids@);
        let mut starts: Vec<(u64, DefId)> = Vec::new();
        let mut j: usize = 0;
        while j < ids.len()
            invariant
                j <= ids@.len(),
                want == with_starts(*defs, ids@),
                starts@ == want.take(j as int),
            decreases ids.len() - j,
        {
            starts.push((defs.span_of(ids[j]).lo as u64, ids[j]));
            j = j + 1;
            assert(starts@ =~= want.take(j as int));
        }
        assert(starts@ =~= want);
        let structs = sort_by_key(&starts);
        let mut out: Vec<Finding> = Vec::new();
        let mut k: usize = 0;
        assert(views(out@) =~= Seq::<FindingView>::empty());
        while k < structs.len()
            invariant
                k <= structs@.len(),
                vs == self@.validators,
                views(out@) == field_findings(*defs, vs, structs@, k as int),
            decreases structs.len() - k,
        {
            self.add_exposed(defs, structs[k].1, &mut out);
            k = k + 1;
        }
        let ghost start = views(out@);
        let mut l: usize = 0;
        assert(views(out@) =~= start + literal_findings(*defs, self@, 0));
        while l < self.literals.len()
            invariant
                l <= self.literals@.len(),
                validators_check(self@),
                views(out@) == start + literal_findings(*defs, self@, l as int),
            decreases self.literals.len() - l,
        {
            let (did, span) = self.literals[l];
            match self.validator_for(did) {
                Some(v) => {
                    assert(v@.checks.len() > 0);
                    let names = names_of_checks(defs, did, &v.checks);
                    let mut msg = String::from_str("`");
                    msg.append(defs.path_of(did));
                    msg.append("` is constructed by literal here, but `");
                    msg.append(defs.name_of(did));
                    msg.append("::");
                    msg.append(defs.text_of(v.ctor));
                    msg.append("` checks ");
                    msg.append(list_names(&names).as_str());
                    msg.append(" before constructing one");
                    emit_with_note(
                        &mut out,
                        Lint::BypassedValidator,
                        span,
                        msg,
                        v.checks[0].check,
                        "the check this literal never runs",
                        "construct through the validating function, or move this literal into the type's module",
                    );
                },
                None => {},
            }
            l = l + 1;
            assert(views(out@) =~= start + literal_findings(*defs, self@, l as int));
        }
        out
    }
}

fn names_of_checks(defs: &Definitions, did: DefId, checks: &Vec<FieldCheck>) -> (r: Vec<String>)
    ensures
        texts(r@) == checked_names(*defs, did, checks@),
{
    let ghost want = checked_names(*defs, did, checks@);
    let mut out: Vec<String> = Vec::new();
    let mut i: usize = 0;
    while i < checks.len()
        invariant
            i <= checks@.len(),
            want == checked_names(*defs, did, checks@),
            texts(out@) == want.take(i as int),
        decreases checks.len() - i,
    {
        let ghost before = out@;
        let name = match get_field(defs, did, checks[i].field) {
            Some(f) => String::from_str(defs.text_of(f.name)),
            None => String::from_str(""),
        };
        out.push(name);
        assert(texts(out@) =~= texts(before).push(want[i as int]));
        i = i + 1;
        assert(texts(out@) =~= want.take(i as int));
    }
    assert(texts(out@) =~= want);
    out
}

/// A literal in the type's own module, or in an impl of it, is never held
/// against anything.
pub proof fn lemma_own_literal_is_ignored(
    defs: Definitions,
    s: BypassedView,
    owner: DefId,
    e: Expr,
    did: DefId,
)
    requires
        adt_id(e.ty) == Some(did),
        own_code(defs, owner, did),
    ensures
        after_expr(defs, s, owner, e) == s,
{
}

/// Each field of a struct is reported at most once, however many constructors
/// check it.
pub proof fn lemma_field_exposed_once(
    defs: Definitions,
    did: DefId,
    vs: Seq<ValidatorView>,
    k: int,
)
    ensures
        ({
            let x = exposed_fields(defs, did, vs, k);
            x.reported.no_duplicates() && x.reported.len() == x.findings.len()
        }),
    decreases k,
{
    if k > 0 {
        lemma_field_exposed_once(defs, did, vs, k - 1);
        if vs[k - 1].adt == did {
            lemma_checks_exposed_once(
                defs,
                did,
                vs[k - 1].ctor,
                vs[k - 1].checks,
                vs[k - 1].checks.len() as int,
                exposed_fields(defs, did, vs, k - 1),
            );
        }
    }
}

proof fn lemma_checks_exposed_once(
    defs: Definitions,
    did: DefId,
    ctor: Symbol,
    checks: Seq<FieldCheck>,
    k: int,
    x: Exposed,
)
    requires
        x.reported.no_duplicates(),
        x.reported.len() == x.findings.len(),
    ensures
        ({
            let y = expose_checks(defs, did, ctor, checks, k, x);
            y.reported.no_duplicates() && y.reported.len() == y.findings.len()
        }),
    decreases k,
{
    if k > 0 {
        lemma_checks_exposed_once(defs, did, ctor, checks, k - 1, x);
        let y = expose_checks(defs, did, ctor, checks, k - 1, x);
        crate::table::lemma_added(y.reported, checks[k - 1].field);
    }
}

/// The function is an associated one of an inherent impl of the struct, has no
/// receiver, and gives the struct in an `Option` or a `Result`.
pub open spec fn fallible_constructor(defs: Definitions, item: DefId, did: DefId) -> bool {
    &&& defs.is_struct(did) && defs.local(did)
    &&& defs.kind(item) == DefKind::AssocFn || defs.kind(item) == DefKind::Function
    &&& defs.at(item) matches Some(f) && (f.parent matches Some(imp) && defs.kind(imp)
        == DefKind::Impl(false) && (defs.at(imp) matches Some(i) && (
    i.self_ty matches Some(crate::ty::Ty::Adt(d, _)) && d == did)))
    &&& defs.sig(item) matches Some(sig) && !sig.is_method && (
    sig.output matches crate::ty::Ty::Adt(o, args) && o != did && (defs.known(o)
        == crate::defs::Known::OptionType || defs.known(o) == crate::defs::Known::ResultType)
        && args@.len() > 0 && (args@[0] matches crate::ty::Ty::Adt(d, _) && d == did))
}

/// Exactly the functions that can refuse to give their struct are taken for
/// constructors that may validate it, whether they refuse with `None` or with
/// an error.
pub proof fn lemma_fallible_constructors_are_candidates(
    defs: Definitions,
    item: DefId,
    did: DefId,
)
    ensures
        candidate(defs, item) == Some(did) <==> fallible_constructor(defs, item, did),
{
}

/// Such a function whose body checks a stored field is a validator of its
/// struct from the moment it is visited; one that checks nothing is none.
pub proof fn lemma_checking_constructor_is_a_validator(
    prog: Program,
    s: BypassedView,
    item: DefId,
    did: DefId,
)
    requires
        fallible_constructor(prog.defs, item, did),
    ensures
        listed_checks(constructor_checks(prog, item, did, s.extra)).len() > 0 ==> ({
            let vs = after_impl_item(prog, s, item).validators;
            &&& vs.len() == s.validators.len() + 1
            &&& vs.last().adt == did
            &&& vs.last().ctor == prog.defs.at(item)->Some_0.name
            &&& vs.last().checks == listed_checks(constructor_checks(prog, item, did, s.extra))
            &&& forall|i: int| 0 <= i < s.validators.len() ==> #[trigger] vs[i] == s.validators[i]
        }),
        listed_checks(constructor_checks(prog, item, did, s.extra)).len() == 0 ==> after_impl_item(
            prog,
            s,
            item,
        ) == s,
{
    lemma_fallible_constructors_are_candidates(prog.defs, item, did);
}

/// Every struct literal outside the struct's own code is on record.
pub proof fn lemma_outside_literal_is_recorded(
    defs: Definitions,
    s: BypassedView,
    owner: DefId,
    e: Expr,
    did: DefId,
)
    requires
        e.kind is Struct,
        e.ty matches crate::ty::Ty::Adt(d, _) && d == did,
        defs.local(did),
        defs.is_struct(did),
        !own_code(defs, owner, did),
    ensures
        after_expr(defs, s, owner, e).literals == s.literals.push((did, e.span)),
        after_expr(defs, s, owner, e).validators == s.validators,
{
}

proof fn lemma_validator_found(vs: Seq<ValidatorView>, did: DefId, k: int, i: int)
    requires
        0 <= k <= i < vs.len(),
        vs[i].adt == did,
    ensures
        first_validator(vs, did, k) matches Some(v) && v.adt == did && vs.contains(v),
    decreases vs.len() - k,
{
    if vs[k].adt == did {
        assert(vs.contains(vs[k]));
    } else {
        lemma_validator_found(vs, did, k + 1, i);
    }
}

proof fn lemma_validator_is_one(vs: Seq<ValidatorView>, did: DefId, k: int)
    requires
        0 <= k,
    ensures
        first_validator(vs, did, k) matches Some(v) ==> v.adt == did && vs.contains(v),
    decreases vs.len() - k,
{
    if k < vs.len() {
        assert(vs.contains(vs[k]));
        lemma_validator_is_one(vs, did, k + 1);
    }
}

proof fn lemma_literal_listed(defs: Definitions, s: BypassedView, k: int, l: int)
    requires
        0 <= l < k <= s.literals.len(),
        first_validator(s.validators, s.literals[l].0, 0) is Some,
    ensures
        literal_findings(defs, s, k).contains(
            literal_finding(
                defs,
                s.literals[l].0,
                s.literals[l].1,
                first_validator(s.validators, s.literals[l].0, 0)->Some_0,
            ),
        ),
    decreases k,
{
    let x = literal_finding(
        defs,
        s.literals[l].0,
        s.literals[l].1,
        first_validator(s.validators, s.literals[l].0, 0)->Some_0,
    );
    let all = literal_findings(defs, s, k);
    let before = literal_findings(defs, s, k - 1);
    if l == k - 1 {
        assert(all[all.len() - 1] == x);
    } else {
        lemma_literal_listed(defs, s, k - 1, l);
        let i = choose|i: int| 0 <= i < before.len() && before[i] == x;
        assert(all[i] == x);
    }
}

/// A literal of a struct that some validator makes is reported where it
/// stands, with a note at a check it goes around.
pub proof fn lemma_bypassing_literal_is_reported(
    defs: Definitions,
    s: BypassedView,
    l: int,
    i: int,
)
    requires
        0 <= l < s.literals.len(),
        0 <= i < s.validators.len(),
        s.validators[i].adt == s.literals[l].0,
    ensures
        exists|j: int|
            0 <= j < validator_findings(defs, s).len() && ({
                let f = #[trigger] validator_findings(defs, s)[j];
                f.lint == Lint::BypassedValidator && f.at == s.literals[l].1
                    && exists|v: ValidatorView| #[trigger]
                    s.validators.contains(v) && v.adt == s.literals[l].0 && (f.note matches Some(n)
                        && n.0 == v.checks[0].check)
            }),
{
    let did = s.literals[l].0;
    lemma_validator_found(s.validators, did, 0, i);
    let n = s.literals.len() as int;
    lemma_literal_listed(defs, s, n, l);
    let v = first_validator(s.validators, did, 0)->Some_0;
    let x = literal_finding(defs, did, s.literals[l].1, v);
    let b = literal_findings(defs, s, n);
    let structs = by_key(with_starts(defs, validated(s.validators, s.validators.len() as int)));
    let a = field_findings(defs, s.validators, structs, structs.len() as int);
    let m = choose|m: int| 0 <= m < b.len() && b[m] == x;
    assert((a + b)[a.len() + m] == x);
    assert(validator_findings(defs, s)[a.len() + m] == x);
    assert(s.validators.contains(v));
}

/// A struct with no validator has no literal reported.
pub proof fn lemma_unvalidated_literals_are_quiet(defs: Definitions, s: BypassedView, k: int)
    requires
        0 <= k <= s.literals.len(),
        forall|l: int, i: int|
            0 <= l < s.literals.len() && 0 <= i < s.validators.len() ==> (
            #[trigger] s.validators[i]).adt != (#[trigger] s.literals[l]).0,
    ensures
        literal_findings(defs, s, k).len() == 0,
    decreases k,
{
    if k > 0 {
        lemma_unvalidated_literals_are_quiet(defs, s, k - 1);
        let did = s.literals[k - 1].0;
        lemma_validator_is_one(s.validators, did, 0);
        match first_validator(s.validators, did, 0) {
            Some(v) => {
                let i = choose|i: int| 0 <= i < s.validators.len() && s.validators[i] == v;
                assert(s.validators[i].adt != s.literals[k - 1].0);
            },
            None => {},
        }
    }
}

/// The field can be written from outside the module its struct stands in.
pub open spec fn writable_outside(defs: Definitions, did: DefId, f: FieldDef) -> bool {
    match f.visible_in {
        None => true,
        Some(m) => home_module(defs, did) != Some(m),
    }
}

proof fn lemma_expose_keeps(
    defs: Definitions,
    did: DefId,
    ctor: Symbol,
    checks: Seq<FieldCheck>,
    k: int,
    x: Exposed,
)
    requires
        0 <= k <= checks.len(),
    ensures
        ({
            let y = expose_checks(defs, did, ctor, checks, k, x);
            &&& forall|f: FindingView| #[trigger]
                x.findings.contains(f) ==> y.findings.contains(f)
            &&& forall|i: usize| #[trigger] x.reported.contains(i) ==> y.reported.contains(i)
        }),
    decreases k,
{
    if k > 0 {
        lemma_expose_keeps(defs, did, ctor, checks, k - 1, x);
        let y = expose_checks(defs, did, ctor, checks, k - 1, x);
        lemma_expose_step(defs, did, ctor, checks[k - 1], y);
    }
}

proof fn lemma_expose_step(
    defs: Definitions,
    did: DefId,
    ctor: Symbol,
    c: FieldCheck,
    y: Exposed,
)
    ensures
        ({
            let z = expose(defs, did, ctor, c, y);
            &&& forall|f: FindingView| #[trigger]
                y.findings.contains(f) ==> z.findings.contains(f)
            &&& forall|i: usize| #[trigger] y.reported.contains(i) ==> z.reported.contains(i)
            &&& field_at(defs, did, c.field) matches Some(f) ==> (writable_outside(defs, did, f)
                && !y.reported.contains(c.field) ==> z.reported.contains(c.field)
                && z.findings.contains(exposure(defs, did, ctor, c, f)))
        }),
{
    let z = expose(defs, did, ctor, c, y);
    assert forall|f: FindingView| #[trigger] y.findings.contains(f) implies z.findings.contains(
        f,
    ) by {
        let i = choose|i: int| 0 <= i < y.findings.len() && y.findings[i] == f;
        assert(z.findings[i] == f);
    }
    assert forall|i: usize| #[trigger] y.reported.contains(i) implies z.reported.contains(i) by {
        let j = choose|j: int| 0 <= j < y.reported.len() && y.reported[j] == i;
        assert(z.reported[j] == i);
    }
    match field_at(defs, did, c.field) {
        Some(f) => if writable_outside(defs, did, f) && !y.reported.contains(c.field) {
            assert(z.reported[z.reported.len() - 1] == c.field);
            assert(z.findings[z.findings.len() - 1] == exposure(defs, did, ctor, c, f));
        },
        None => {},
    }
}

/// Each field reported so far has its finding, and each is checked and open.
spec fn exposed_ok(defs: Definitions, did: DefId, x: Exposed) -> bool {
    &&& x.reported.len() == x.findings.len()
    &&& forall|j: int|
        0 <= j < x.reported.len() ==> (field_at(defs, did, #[trigger] x.reported[j]) matches Some(f)
            && writable_outside(defs, did, f) && x.findings[j].at == f.span && x.findings[j].lint
            == Lint::PubInvariantFields)
}

proof fn lemma_checks_ok(
    defs: Definitions,
    did: DefId,
    ctor: Symbol,
    checks: Seq<FieldCheck>,
    k: int,
    x: Exposed,
)
    requires
        0 <= k <= checks.len(),
        exposed_ok(defs, did, x),
    ensures
        exposed_ok(defs, did, expose_checks(defs, did, ctor, checks, k, x)),
        forall|m: int|
            0 <= m < k ==> (field_at(defs, did, (#[trigger] checks[m]).field) matches Some(f) ==> (
            writable_outside(defs, did, f) ==> expose_checks(
                defs,
                did,
                ctor,
                checks,
                k,
                x,
            ).reported.contains(checks[m].field))),
    decreases k,
{
    if k > 0 {
        lemma_checks_ok(defs, did, ctor, checks, k - 1, x);
        let y = expose_checks(defs, did, ctor, checks, k - 1, x);
        lemma_expose_step(defs, did, ctor, checks[k - 1], y);
        let z = expose_checks(defs, did, ctor, checks, k, x);
        assert forall|j: int| 0 <= j < z.reported.len() implies (field_at(
            defs,
            did,
            #[trigger] z.reported[j],
        ) matches Some(f) && writable_outside(defs, did, f) && z.findings[j].at == f.span
            && z.findings[j].lint == Lint::PubInvariantFields) by {
            if j < y.reported.len() {
                assert(field_at(defs, did, y.reported[j]) is Some);
            }
        }
    }
}

proof fn lemma_fields_ok(defs: Definitions, did: DefId, vs: Seq<ValidatorView>, k: int)
    requires
        0 <= k <= vs.len(),
    ensures
        exposed_ok(defs, did, exposed_fields(defs, did, vs, k)),
        forall|i: int, m: int|
            0 <= i < k && (#[trigger] vs[i]).adt == did && 0 <= m < vs[i].checks.len() ==> (
            field_at(defs, did, (#[trigger] vs[i].checks[m]).field) matches Some(f) ==> (
            writable_outside(defs, did, f) ==> exposed_fields(
                defs,
                did,
                vs,
                k,
            ).reported.contains(vs[i].checks[m].field))),
    decreases k,
{
    if k > 0 {
        lemma_fields_ok(defs, did, vs, k - 1);
        let x = exposed_fields(defs, did, vs, k - 1);
        if vs[k - 1].adt == did {
            let n = vs[k - 1].checks.len() as int;
            lemma_checks_ok(defs, did, vs[k - 1].ctor, vs[k - 1].checks, n, x);
            lemma_expose_keeps(defs, did, vs[k - 1].ctor, vs[k - 1].checks, n, x);
        }
    }
}

proof fn lemma_struct_listed(
    defs: Definitions,
    vs: Seq<ValidatorView>,
    structs: Seq<(u64, DefId)>,
    k: int,
    m: int,
    f: FindingView,
)
    requires
        0 <= m < k <= structs.len(),
        exposed_fields(defs, structs[m].1, vs, vs.len() as int).findings.contains(f),
    ensures
        field_findings(defs, vs, structs, k).contains(f),
    decreases k,
{
    let before = field_findings(defs, vs, structs, k - 1);
    let here = exposed_fields(defs, structs[k - 1].1, vs, vs.len() as int).findings;
    let all = before + here;
    if m == k - 1 {
        let i = choose|i: int| 0 <= i < here.len() && here[i] == f;
        assert(all[before.len() + i] == f);
    } else {
        lemma_struct_listed(defs, vs, structs, k - 1, m, f);
        let i = choose|i: int| 0 <= i < before.len() && before[i] == f;
        assert(all[i] == f);
    }
}

proof fn lemma_validated_listed(vs: Seq<ValidatorView>, k: int, i: int)
    requires
        0 <= i < k <= vs.len(),
    ensures
        validated(vs, k).contains(vs[i].adt),
    decreases k,
{
    crate::table::lemma_added(validated(vs, k - 1), vs[k - 1].adt);
    if i < k - 1 {
        lemma_validated_listed(vs, k - 1, i);
    }
}

/// A field that a validator checks and that can be written from outside the
/// struct's module is reported at its declaration.
pub proof fn lemma_open_checked_field_is_reported(
    defs: Definitions,
    s: BypassedView,
    i: int,
    m: int,
    f: FieldDef,
)
    requires
        0 <= i < s.validators.len(),
        0 <= m < s.validators[i].checks.len(),
        (s.validators[i].checks[m].field as int) < defs.fields(s.validators[i].adt).len(),
        f == defs.fields(s.validators[i].adt)[s.validators[i].checks[m].field as int],
        writable_outside(defs, s.validators[i].adt, f),
    ensures
        exists|j: int|
            0 <= j < validator_findings(defs, s).len() && (#[trigger] validator_findings(
                defs,
                s,
            )[j]).lint == Lint::PubInvariantFields && validator_findings(defs, s)[j].at == f.span,
{
    let vs = s.validators;
    let did = vs[i].adt;
    let c = vs[i].checks[m];
    let n = vs.len() as int;
    lemma_fields_ok(defs, did, vs, n);
    let x = exposed_fields(defs, did, vs, n);
    assert(field_at(defs, did, c.field) == Some(f));
    assert(x.reported.contains(c.field));
    let p = choose|p: int| 0 <= p < x.reported.len() && x.reported[p] == c.field;
    assert(field_at(defs, did, x.reported[p]) == Some(f));
    let found = x.findings[p];
    assert(x.findings.contains(found));
    let ids = validated(vs, n);
    lemma_validated_listed(vs, n, i);
    let q = choose|q: int| 0 <= q < ids.len() && ids[q] == did;
    let starts = with_starts(defs, ids);
    let key = (defs.span(did).lo as u64, did);
    assert(starts[q] == key);
    assert(starts.contains(key));
    crate::table::lemma_by_key(starts);
    let structs = by_key(starts);
    let r = choose|r: int| 0 <= r < structs.len() && structs[r] == key;
    lemma_struct_listed(defs, vs, structs, structs.len() as int, r, found);
    let a = field_findings(defs, vs, structs, structs.len() as int);
    let b = literal_findings(defs, s, s.literals.len() as int);
    let j = choose|j: int| 0 <= j < a.len() && a[j] == found;
    assert((a + b)[j] == found);
    assert(validator_findings(defs, s)[j] == found);
}

/// A field visible in its struct's module alone is never reported, and neither
/// is one no constructor checks.
pub proof fn lemma_reported_field_is_open_and_checked(
    defs: Definitions,
    did: DefId,
    vs: Seq<ValidatorView>,
    j: int,
)
    requires
        0 <= j < exposed_fields(defs, did, vs, vs.len() as int).findings.len(),
    ensures
        exists|i: int, m: int|
            0 <= i < vs.len() && (#[trigger] vs[i]).adt == did && 0 <= m < vs[i].checks.len() && (
            field_at(defs, did, (#[trigger] vs[i].checks[m]).field) matches Some(f)
                && writable_outside(defs, did, f) && exposed_fields(
                defs,
                did,
                vs,
                vs.len() as int,
            ).findings[j].at == f.span),
{
    let n = vs.len() as int;
    lemma_fields_ok(defs, did, vs, n);
    lemma_field_exposed_once(defs, did, vs, n);
    let x = exposed_fields(defs, did, vs, n);
    assert(field_at(defs, did, x.reported[j]) is Some);
    lemma_reported_is_checked(defs, did, vs, n, j);
}

proof fn lemma_reported_is_checked(
    defs: Definitions,
    did: DefId,
    vs: Seq<ValidatorView>,
    k: int,
    j: int,
)
    requires
        0 <= k <= vs.len(),
        0 <= j < exposed_fields(defs, did, vs, k).reported.len(),
    ensures
        exists|i: int, m: int|
            0 <= i < k && (#[trigger] vs[i]).adt == did && 0 <= m < vs[i].checks.len() && (
            #[trigger] vs[i].checks[m]).field == exposed_fields(defs, did, vs, k).reported[j],
    decreases k,
{
    let before = exposed_fields(defs, did, vs, k - 1);
    if vs[k - 1].adt == did {
        let n = vs[k - 1].checks.len() as int;
        lemma_reported_from(defs, did, vs[k - 1].ctor, vs[k - 1].checks, n, before, j);
        let x = exposed_fields(defs, did, vs, k);
        if j < before.reported.len() && before.reported[j] == x.reported[j] {
            lemma_reported_is_checked(defs, did, vs, k - 1, j);
        } else {
            let m = choose|m: int|
                0 <= m < n && (#[trigger] vs[k - 1].checks[m]).field == x.reported[j];
            assert(vs[k - 1].checks[m].field == x.reported[j]);
        }
    } else {
        lemma_reported_is_checked(defs, did, vs, k - 1, j);
    }
}

proof fn lemma_reported_from(
    defs: Definitions,
    did: DefId,
    ctor: Symbol,
    checks: Seq<FieldCheck>,
    k: int,
    x: Exposed,
    j: int,
)
    requires
        0 <= k <= checks.len(),
        0 <= j < expose_checks(defs, did, ctor, checks, k, x).reported.len(),
    ensures
        ({
            let y = expose_checks(defs, did, ctor, checks, k, x);
            (j < x.reported.len() && x.reported[j] == y.reported[j]) || exists|m: int|
                0 <= m < k && (#[trigger] checks[m]).field == y.reported[j]
        }),
    decreases k,
{
    if k > 0 {
        let y = expose_checks(defs, did, ctor, checks, k - 1, x);
        if j < y.reported.len() {
            lemma_reported_from(defs, did, ctor, checks, k - 1, x, j);
        } else {
            assert(checks[k - 1].field == expose_checks(
                defs,
                did,
                ctor,
                checks,
                k,
                x,
            ).reported[j]);
        }
    }
}

/// A literal in the struct's own code, of another crate's struct or of an
/// enum is let be, and so is every other expression.
pub proof fn lemma_other_literals_are_let_be(
    defs: Definitions,
    s: BypassedView,
    owner: DefId,
    e: Expr,
    did: DefId,
)
    ensures
        !(e.kind is Struct) ==> after_expr(defs, s, owner, e) == s,
        (e.ty matches crate::ty::Ty::Adt(d, _) && d == did) && (!defs.local(did)
            || !defs.is_struct(did) || own_code(defs, owner, did)) ==> after_expr(
            defs,
            s,
            owner,
            e,
        ) == s,
{
}

} // verus!
