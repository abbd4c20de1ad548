//! A panicking match arm for an enum variant that no existing call site can
//! send: the function takes the full enum, panics on one variant, and every
//! call site in the crate passes the literal of another. Anything but a
//! constructor literal makes the set unknowable and the lint silent.

use crate::defs::{DefKind, Definitions};
use crate::enum_facts::{
    arm_variant, ctor_literal_variant, head_variant, is_panic_arm, literal_variant, panic_arm,
};
use crate::hir::{targets, walk, walked, Arm, Expr, ExprKind, Parent, Pat, PatKind, Res};
use crate::hir_shapes::{called_def, callee_of, in_callee_position, is_callee};
use crate::ids::{DefId, HirId, Span};
use crate::report::{
    emit, finding, in_order, quote_names, quoted_names, sort_texts, views, Finding, FindingView,
    Lint,
};
use crate::table::{add_new, is_in, with_added};
use crate::text::{decimal, join, joined, number};
use crate::ty::{adt_id, peeled};
use vstd::prelude::*;
use vstd::string::*;

verus! {

/// A panicking arm for a variant of one of a function's parameters.
#[derive(Clone, Copy, Debug, PartialEq, Eq, Structural)]
pub struct PanicArm {
    pub def: DefId,
    pub param: usize,
    pub variant: DefId,
    pub span: Span,
}

/// An argument of a call: the variant it is the literal of, if it is one.
#[derive(Clone, Copy, Debug)]
pub struct Passed {
    pub def: DefId,
    pub param: usize,
    pub variant: Option<DefId>,
}

#[derive(Debug)]
pub struct OverwideParameter {
    pub panics: Vec<PanicArm>,
    pub calls: Vec<Passed>,
    /// Functions referenced other than by direct call: indirect callers are
    /// invisible, so their call-site sets are unknowable.
    pub poisoned: Vec<DefId>,
}

#[verifier::ext_equal]
pub struct OverwideView {
    pub panics: Seq<PanicArm>,
    pub calls: Seq<Passed>,
    pub poisoned: Seq<DefId>,
}

impl View for OverwideParameter {
    type V = OverwideView;

    open spec fn view(&self) -> OverwideView {
        OverwideView { panics: self.panics@, calls: self.calls@, poisoned: self.poisoned@ }
    }
}

/// The local a parameter binds, if its type is an enum of the crate.
pub open spec fn enum_param(defs: Definitions, pat: Pat) -> Option<HirId> {
    match pat.kind {
        PatKind::Binding(id, _, None) => if adt_id(peeled(pat.ty)) matches Some(d)
            && defs.local_enum(d) {
            Some(id)
        } else {
            None
        },
        _ => None,
    }
}

fn local_of_param(defs: &Definitions, pat: &Pat) -> (r: Option<HirId>)
    ensures
        r == enum_param(*defs, *pat),
{
    match &pat.kind {
        PatKind::Binding(id, _, None) => match pat.ty.peel_refs().adt() {
            Some(d) => if defs.local_enum_here(d) {
                Some(*id)
            } else {
                None
            },
            None => None,
        },
        _ => None,
    }
}

/// The expression is exactly the local.
pub open spec fn names_local(e: Expr, local: HirId) -> bool {
    match e.kind {
        ExprKind::Path(p) => !p.type_relative && !p.has_self && p.res == Res::Local(local),
        _ => false,
    }
}

fn is_local_path(e: &Expr, local: HirId) -> (r: bool)
    ensures
        r == names_local(*e, local),
{
    match &e.kind {
        ExprKind::Path(p) => !p.type_relative && !p.has_self && match p.res {
            Res::Local(id) => id == local,
            _ => false,
        },
        _ => false,
    }
}

/// The variant an arm panics on.
pub open spec fn panics_on(defs: Definitions, arm: Arm) -> Option<DefId> {
    if arm.guard is None && panic_arm(defs, arm.body) {
        head_variant(defs, arm.pat)
    } else {
        None
    }
}

/// The panicking ones of the first `k` arms.
pub open spec fn panicking_arms(
    defs: Definitions,
    def: DefId,
    param: usize,
    arms: Seq<Arm>,
    k: int,
) -> Seq<PanicArm>
    decreases k,
{
    if k <= 0 {
        Seq::empty()
    } else {
        let before = panicking_arms(defs, def, param, arms, k - 1);
        match panics_on(defs, arms[k - 1]) {
            Some(variant) => before.push(PanicArm { def, param, variant, span: arms[k - 1].span }),
            None => before,
        }
    }
}

/// The panicking arms of the matches on the local among the first `k`
/// expressions.
pub open spec fn panicking_matches(
    defs: Definitions,
    def: DefId,
    param: usize,
    local: HirId,
    es: Seq<Expr>,
    k: int,
) -> Seq<PanicArm>
    decreases k,
{
    if k <= 0 {
        Seq::empty()
    } else {
        let before = panicking_matches(defs, def, param, local, es, k - 1);
        match es[k - 1].kind {
            ExprKind::Match(scrutinee, arms, _) => if names_local(*scrutinee, local) {
                before + panicking_arms(defs, def, param, arms@, arms@.len() as int)
            } else {
                before
            },
            _ => before,
        }
    }
}

/// The panicking arms for the first `k` parameters.
pub open spec fn panicking_params(
    defs: Definitions,
    def: DefId,
    params: Seq<Pat>,
    es: Seq<Expr>,
    k: int,
) -> Seq<PanicArm>
    decreases k,
{
    if k <= 0 {
        Seq::empty()
    } else {
        let before = panicking_params(defs, def, params, es, k - 1);
        match enum_param(defs, params[k - 1]) {
            Some(local) => before + panicking_matches(
                defs,
                def,
                (k - 1) as usize,
                local,
                es,
                es.len() as int,
            ),
            None => before,
        }
    }
}

/// What is known once a function has been visited. A function something
/// outside the crate can call has no knowable call-site set.
pub open spec fn after_fn(
    defs: Definitions,
    s: OverwideView,
    def: DefId,
    is_closure: bool,
    params: Seq<Pat>,
    body: Expr,
) -> OverwideView {
    if is_closure || defs.exported(def) {
        s
    } else {
        OverwideView {
            panics: s.panics + panicking_params(
                defs,
                def,
                params,
                walk(body, true),
                params.len() as int,
            ),
            ..s
        }
    }
}

/// What the first `k` arguments of a call pass, the first of them being
/// parameter `off`.
pub open spec fn passed_args(
    defs: Definitions,
    def: DefId,
    off: int,
    args: Seq<Expr>,
    k: int,
) -> Seq<Passed>
    decreases k,
{
    if k <= 0 {
        Seq::empty()
    } else {
        passed_args(defs, def, off, args, k - 1).push(
            Passed {
                def,
                param: (k - 1 + off) as usize,
                variant: literal_variant(defs, args[k - 1]),
            },
        )
    }
}

/// What is known once an expression has been visited.
pub open spec fn after_expr(
    defs: Definitions,
    s: OverwideView,
    e: Expr,
    parents: Seq<Parent>,
) -> OverwideView {
    match e.kind {
        ExprKind::Call(_, args) => match called_def(e) {
            Some(def) => if defs.local(def) && defs.is_fn(def) {
                OverwideView {
                    calls: s.calls + passed_args(defs, def, 0, args@, args@.len() as int),
                    ..s
                }
            } else {
                s
            },
            None => s,
        },
        ExprKind::MethodCall(_, _, args) => match e.method {
            // The receiver is parameter 0.
            Some(def) => if defs.local(def) {
                OverwideView {
                    calls: s.calls + passed_args(defs, def, 1, args@, args@.len() as int),
                    ..s
                }
            } else {
                s
            },
            None => s,
        },
        ExprKind::Path(p) => match p.res {
            Res::Def(kind, def) => if !is_callee(e, parents) && (kind == DefKind::Function || kind
                == DefKind::AssocFn) && defs.local(def) {
                OverwideView { poisoned: with_added(s.poisoned, def), ..s }
            } else {
                s
            },
            _ => s,
        },
        _ => s,
    }
}

/// The call passes something for the parameter.
pub open spec fn passes(c: Passed, def: DefId, param: usize) -> bool {
    c.def == def && c.param == param
}

/// How many call sites pass something for the parameter.
pub open spec fn call_sites(calls: Seq<Passed>, def: DefId, param: usize) -> nat
    decreases calls.len(),
{
    if calls.len() == 0 {
        0
    } else {
        call_sites(calls.drop_last(), def, param) + if passes(calls.last(), def, param) {
            1nat
        } else {
            0nat
        }
    }
}

/// Some call site passes what is no literal.
pub open spec fn passes_unknown(calls: Seq<Passed>, def: DefId, param: usize) -> bool {
    exists|i: int|
        0 <= i < calls.len() && passes(#[trigger] calls[i], def, param) && calls[i].variant is None
}

/// The variants call sites pass, each once.
pub open spec fn variants_passed(calls: Seq<Passed>, def: DefId, param: usize) -> Seq<DefId>
    decreases calls.len(),
{
    if calls.len() == 0 {
        Seq::empty()
    } else {
        let before = variants_passed(calls.drop_last(), def, param);
        if passes(calls.last(), def, param) && calls.last().variant is Some {
            with_added(before, calls.last().variant->Some_0)
        } else {
            before
        }
    }
}

/// The arm is one no caller reaches.
pub open spec fn never_sent(s: OverwideView, p: PanicArm) -> bool {
    &&& !s.poisoned.contains(p.def)
    &&& call_sites(s.calls, p.def, p.param) > 0
    &&& !passes_unknown(s.calls, p.def, p.param)
    &&& !variants_passed(s.calls, p.def, p.param).contains(p.variant)
}

pub open spec fn arm_finding(defs: Definitions, s: OverwideView, p: PanicArm) -> FindingView {
    finding(
        Lint::OverwideParameter,
        p.span,
        "all "@ + decimal(call_sites(s.calls, p.def, p.param)) + " call sites of `"@
            + defs.name_text(p.def) + "` pass "@ + joined(
            in_order(quoted_names(defs, variants_passed(s.calls, p.def, p.param))),
            ", "@,
        ) + "; this arm panics on `"@ + defs.name_text(p.variant)
            + "`, which no existing caller sends"@,
        "the parameter is wider than the function's domain; narrow the type and the panic becomes a compile error for future callers"@,
    )
}

/// What the lint says of the first `k` panicking arms.
pub open spec fn overwide_findings(defs: Definitions, s: OverwideView, k: int) -> Seq<FindingView>
    decreases k,
{
    if k <= 0 {
        Seq::empty()
    } else {
        let before = overwide_findings(defs, s, k - 1);
        if never_sent(s, s.panics[k - 1]) {
            before.push(arm_finding(defs, s, s.panics[k - 1]))
        } else {
            before
        }
    }
}

fn add_arms(
    defs: &Definitions,
    def: DefId,
    param: usize,
    arms: &Vec<Arm>,
    out: &mut Vec<PanicArm>,
)
    ensures
        final(out)@ == old(out)@ + panicking_arms(
            *defs,
            def,
            param,
            arms@,
            arms@.len() as int,
        ),
{
    let ghost start = out@;
    let mut i: usize = 0;
    assert(out@ =~= start + panicking_arms(*defs, def, param, arms@, 0));
    while i < arms.len()
        invariant
            i <= arms@.len(),
            out@ == start + panicking_arms(*defs, def, param, arms@, i as int),
        decreases arms.len() - i,
    {
        let arm = &arms[i];
        if arm.guard.is_none() && is_panic_arm(defs, &arm.body) {
            match arm_variant(defs, &arm.pat) {
                Some(variant) => {
                    out.push(PanicArm { def, param, variant, span: arm.span });
                },
                None => {},
            }
        }
        i = i + 1;
        assert(out@ =~= start + panicking_arms(*defs, def, param, arms@, i as int));
    }
}

fn add_matches(
    defs: &Definitions,
    def: DefId,
    param: usize,
    local: HirId,
    es: &Vec<&Expr>,
    out: &mut Vec<PanicArm>,
)
    ensures
        final(out)@ == old(out)@ + panicking_matches(
            *defs,
            def,
            param,
            local,
            targets(es@),
            es@.len() as int,
        ),
{
    let ghost start = out@;
    let ghost all = targets(es@);
    let mut i: usize = 0;
    assert(out@ =~= start + panicking_matches(*defs, def, param, local, all, 0));
    while i < es.len()
        invariant
            i <= es@.len(),
            all == targets(es@),
            out@ == start + panicking_matches(*defs, def, param, local, all, i as int),
        decreases es.len() - i,
    {
        assert(all[i as int] == *es@[i as int]);
        match &es[i].kind {
            ExprKind::Match(scrutinee, arms, _) => {
                if is_local_path(scrutinee, local) {
                    add_arms(defs, def, param, arms, out);
                }
            },
            _ => {},
        }
        i = i + 1;
        assert(out@ =~= start + panicking_matches(*defs, def, param, local, all, i as int));
    }
}

impl OverwideParameter {
    pub fn new() -> (r: Self)
        ensures
            r@ == (OverwideView {
                panics: Seq::empty(),
                calls: Seq::empty(),
                poisoned: Seq::empty(),
            }),
    {
        OverwideParameter { panics: Vec::new(), calls: Vec::new(), poisoned: Vec::new() }
    }

    /// Visits a function.
    pub fn check_fn(
        &mut self,
        defs: &Definitions,
        def: DefId,
        is_closure: bool,
        params: &Vec<Pat>,
        body: &Expr,
    )
        ensures
            final(self)@ == after_fn(*defs, old(self)@, def, is_closure, params@, *body),
    {
        if is_closure || defs.is_exported(def) {
            return;
        }
        let ghost before = self@;
        let es = walked(body, true);
        let ghost all = targets(es@);
        let mut i: usize = 0;
        assert(self.panics@ =~= before.panics + panicking_params(*defs, def, params@, all, 0));
        while i < params.len()
            invariant
                i <= params@.len(),
                all == targets(es@),
                all.len() == es@.len(),
                self@.calls == before.calls,
                self@.poisoned == before.poisoned,
                self.panics@ == before.panics + panicking_params(
                    *defs,
                    def,
                    params@,
                    all,
                    i as int,
                ),
            decreases params.len() - i,
        {
            match local_of_param(defs, &params[i]) {
                Some(local) => {
                    add_matches(defs, def, i, local, &es, &mut self.panics);
                },
                None => {},
            }
            i = i + 1;
            assert(self.panics@ =~= before.panics + panicking_params(
                *defs,
                def,
                params@,
                all,
                i as int,
            ));
        }
        assert(self@ =~= after_fn(*defs, before, def, is_closure, params@, *body));
    }

    fn record(&mut self, defs: &Definitions, def: DefId, off: usize, args: &Vec<Expr>)
        requires
            off <= 1,
        ensures
            final(self)@ == (OverwideView {
                calls: old(self)@.calls + passed_args(
                    *defs,
                    def,
                    off as int,
                    args@,
                    args@.len() as int,
                ),
                ..old(self)@
            }),
    {
        let ghost before = self@;
        let mut i: usize = 0;
        assert(self.calls@ =~= before.calls + passed_args(*defs, def, off as int, args@, 0));
        while i < args.len()
            invariant
                i <= args@.len(),
                off <= 1,
                self@.panics == before.panics,
                self@.poisoned == before.poisoned,
                self.calls@ == before.calls + passed_args(
                    *defs,
                    def,
                    off as int,
                    args@,
                    i as int,
                ),
            decreases args.len() - i,
        {
            self.calls.push(
                Passed { def, param: i + off, variant: ctor_literal_variant(defs, &args[i]) },
            );
            i = i + 1;
            assert(self.calls@ =~= before.calls + passed_args(
                *defs,
                def,
                off as int,
                args@,
                i as int,
            ));
        }
        assert(self@ =~= (OverwideView {
            calls: before.calls + passed_args(*defs, def, off as int, args@, args@.len() as int),
            ..before
        }));
    }

    /// Visits an expression.
    pub fn check_expr(&mut self, defs: &Definitions, e: &Expr, parents: &Vec<Parent>)
        ensures
            final(self)@ == after_expr(*defs, old(self)@, *e, parents@),
    {
        let ghost before = self@;
        match &e.kind {
            ExprKind::Call(_, args) => {
                match callee_of(e) {
                    Some(c) => {
                        if defs.is_local(c.def) && defs.function_here(c.def) {
                            self.record(defs, c.def, 0, args);
                        }
                    },
                    None => {},
                }
            },
            ExprKind::MethodCall(_, _, args) => {
                match e.method {
                    Some(def) => {
                        if defs.is_local(def) {
                            self.record(defs, def, 1, args);
                        }
                    },
                    None => {},
                }
            },
            ExprKind::Path(p) => {
                if in_callee_position(e, parents) {
                    return;
                }
                match p.res {
                    Res::Def(kind, def) => {
                        if (kind == DefKind::Function || kind == DefKind::AssocFn)
                            && defs.is_local(def) {
                            add_new(&mut self.poisoned, def);
                            assert(self@ =~= after_expr(*defs, before, *e, parents@));
                        }
                    },
                    _ => {},
                }
            },
            _ => {},
        }
    }

    /// How many call sites pass something for the parameter, whether one
    /// passes what is no literal, and the variants passed.
    fn facts(&self, def: DefId, param: usize) -> (r: (usize, bool, Vec<DefId>))
        ensures
            r.0 == call_sites(self@.calls, def, param),
            r.1 == passes_unknown(self@.calls, def, param),
            r.2@ == variants_passed(self@.calls, def, param),
    {
        let ghost calls = self@.calls;
        let mut sites: usize = 0;
        let mut unknown = false;
        let mut variants: Vec<DefId> = Vec::new();
        let mut i: usize = 0;
        while i < self.calls.len()
            invariant
                i <= self.calls@.len(),
                calls == self.calls@,
                sites <= i,
                sites == call_sites(calls.take(i as int), def, param),
                unknown == exists|j: int|
                    0 <= j < i && passes(#[trigger] calls[j], def, param) && calls[j].variant
                        is None,
                variants@ == variants_passed(calls.take(i as int), def, param),
            decreases self.calls.len() - i,
        {
            assert(calls.take(i + 1).drop_last() =~= calls.take(i as int));
            let c: Passed = self.calls[i];
            if c.def == def && c.param == param {
                assert(passes(calls[i as int], def, param));
                sites = sites + 1;
                match c.variant {
                    Some(v) => add_new(&mut variants, v),
                    None => {
                        unknown = true;
                    },
                }
            }
            i = i + 1;
        }
        assert(calls.take(i as int) =~= calls);
        (sites, unknown, variants)
    }

    /// What the lint says of the crate.
    pub fn check_crate_post(&self, defs: &Definitions) -> (r: Vec<Finding>)
        ensures
            views(r@) == overwide_findings(*defs, self@, self@.panics.len() as int),
    {
        let mut out: Vec<Finding> = Vec::new();
        let mut i: usize = 0;
        assert(views(out@) =~= Seq::<FindingView>::empty());
        while i < self.panics.len()
            invariant
                i <= self.panics@.len(),
                views(out@) == overwide_findings(*defs, self@, i as int),
            decreases self.panics.len() - i,
        {
            let p: PanicArm = self.panics[i];
            let (sites, unknown, variants) = self.facts(p.def, p.param);
            if !is_in(&self.poisoned, &p.def) && sites > 0 && !unknown && !is_in(
                &variants,
                &p.variant,
            ) {
                let names = quote_names(defs, &variants);
                let mut msg = String::from_str("all ");
                msg.append(number(sites as u128).as_str());
                msg.append(" call sites of `");
                msg.append(defs.name_of(p.def));
                msg.append("` pass ");
                msg.append(join(&sort_texts(&names), ", ").as_str());
                msg.append("; this arm panics on `");
                msg.append(defs.name_of(p.variant));
                msg.append("`, which no existing caller sends");
                emit(
                    &mut out,
                    Lint::OverwideParameter,
                    p.span,
                    msg,
                    "the parameter is wider than the function's domain; narrow the type and the panic becomes a compile error for future callers",
                );
            }
            i = i + 1;
        }
        out
    }
}

proof fn lemma_passed_listed(calls: Seq<Passed>, def: DefId, param: usize, i: int)
    requires
        0 <= i < calls.len(),
        passes(calls[i], def, param),
        calls[i].variant is Some,
    ensures
        variants_passed(calls, def, param).contains(calls[i].variant->Some_0),
    decreases calls.len(),
{
    let before = variants_passed(calls.drop_last(), def, param);
    if i == calls.len() - 1 {
        crate::table::lemma_added(before, calls[i].variant->Some_0);
        assert(with_added(before, calls[i].variant->Some_0).contains(calls[i].variant->Some_0));
    } else {
        lemma_passed_listed(calls.drop_last(), def, param, i);
        if passes(calls.last(), def, param) && calls.last().variant is Some {
            crate::table::lemma_added(before, calls.last().variant->Some_0);
            assert(with_added(before, calls.last().variant->Some_0).contains(
                calls[i].variant->Some_0,
            ));
        }
    }
}

/// Every call site of a reported function passes, for that parameter, the
/// literal of a variant other than the one the arm panics on.
pub proof fn lemma_reported_variant_is_never_passed(s: OverwideView, p: PanicArm, i: int)
    requires
        never_sent(s, p),
        0 <= i < s.calls.len(),
        passes(s.calls[i], p.def, p.param),
    ensures
        s.calls[i].variant matches Some(v) && v != p.variant,
{
    assert(!passes_unknown(s.calls, p.def, p.param));
    if s.calls[i].variant is Some {
        lemma_passed_listed(s.calls, p.def, p.param, i);
    }
}

/// A parameter bound by a plain name, of an enum of the crate's own, behind
/// references too, is looked at; one that is taken apart is not.
pub proof fn lemma_enum_parameters(defs: Definitions, pat: Pat, id: HirId, did: DefId)
    requires
        peeled(pat.ty) matches crate::ty::Ty::Adt(d, _) && d == did,
    ensures
        (pat.kind matches PatKind::Binding(x, _, None) && x == id) && (defs.at(did) matches Some(d)
            && d.is_local && (d.adt matches Some(a) && a.kind == crate::defs::AdtKind::Enum))
            ==> enum_param(defs, pat) == Some(id),
        !(pat.kind is Binding) ==> enum_param(defs, pat) is None,
        !defs.local(did) ==> enum_param(defs, pat) is None,
{
}

/// An arm panics on its pattern's variant where it has no guard.
pub proof fn lemma_guarded_arm_decides_nothing(defs: Definitions, arm: Arm)
    ensures
        arm.guard is Some ==> panics_on(defs, arm) is None,
        arm.guard is None && panic_arm(defs, arm.body) ==> panics_on(defs, arm) == head_variant(
            defs,
            arm.pat,
        ),
        !panic_arm(defs, arm.body) ==> panics_on(defs, arm) is None,
{
}

proof fn lemma_arm_listed(
    defs: Definitions,
    def: DefId,
    param: usize,
    arms: Seq<Arm>,
    k: int,
    i: int,
)
    requires
        0 <= i < k <= arms.len(),
        panics_on(defs, arms[i]) is Some,
    ensures
        panicking_arms(defs, def, param, arms, k).contains(
            PanicArm {
                def,
                param,
                variant: panics_on(defs, arms[i])->Some_0,
                span: arms[i].span,
            },
        ),
    decreases k,
{
    let before = panicking_arms(defs, def, param, arms, k - 1);
    let x = PanicArm {
        def,
        param,
        variant: panics_on(defs, arms[i])->Some_0,
        span: arms[i].span,
    };
    if i < k - 1 {
        lemma_arm_listed(defs, def, param, arms, k - 1, i);
    }
    match panics_on(defs, arms[k - 1]) {
        Some(variant) => {
            crate::table::lemma_pushed(
                before,
                PanicArm { def, param, variant, span: arms[k - 1].span },
                x,
            );
        },
        None => {},
    }
}

proof fn lemma_match_listed(
    defs: Definitions,
    def: DefId,
    param: usize,
    local: HirId,
    es: Seq<Expr>,
    k: int,
    m: int,
    x: PanicArm,
)
    requires
        0 <= m < k <= es.len(),
        es[m].kind matches ExprKind::Match(scrutinee, arms, _) && names_local(*scrutinee, local)
            && panicking_arms(defs, def, param, arms@, arms@.len() as int).contains(x),
    ensures
        panicking_matches(defs, def, param, local, es, k).contains(x),
    decreases k,
{
    if m < k - 1 {
        lemma_match_listed(defs, def, param, local, es, k - 1, m, x);
    }
    let before = panicking_matches(defs, def, param, local, es, k - 1);
    match es[k - 1].kind {
        ExprKind::Match(scrutinee, arms, _) => {
            crate::table::lemma_either(
                before,
                panicking_arms(defs, def, param, arms@, arms@.len() as int),
                x,
            );
        },
        _ => {},
    }
}

proof fn lemma_param_listed(
    defs: Definitions,
    def: DefId,
    params: Seq<Pat>,
    es: Seq<Expr>,
    k: int,
    p: int,
    local: HirId,
    x: PanicArm,
)
    requires
        0 <= p < k <= params.len(),
        enum_param(defs, params[p]) == Some(local),
        panicking_matches(defs, def, p as usize, local, es, es.len() as int).contains(x),
    ensures
        panicking_params(defs, def, params, es, k).contains(x),
    decreases k,
{
    if p < k - 1 {
        lemma_param_listed(defs, def, params, es, k - 1, p, local, x);
    }
    let before = panicking_params(defs, def, params, es, k - 1);
    match enum_param(defs, params[k - 1]) {
        Some(l) => {
            crate::table::lemma_either(
                before,
                panicking_matches(defs, def, (k - 1) as usize, l, es, es.len() as int),
                x,
            );
        },
        None => {},
    }
}

/// An arm that panics on a variant of a parameter, anywhere in a function that
/// is not exported, is on record with the parameter's place.
pub proof fn lemma_panicking_arm_is_recorded(
    defs: Definitions,
    s: OverwideView,
    def: DefId,
    params: Seq<Pat>,
    path: Seq<Expr>,
    p: int,
    local: HirId,
    scrutinee: Expr,
    arms: Seq<Arm>,
    i: int,
)
    requires
        crate::hir::nested(path),
        crate::hir::enters(path, true),
        0 <= p < params.len() <= usize::MAX,
        enum_param(defs, params[p]) == Some(local),
        path.last().kind matches ExprKind::Match(x, a, _) && *x == scrutinee && a@ == arms,
        scrutinee.kind matches ExprKind::Path(q) && !q.type_relative && !q.has_self && q.res
            == Res::Local(local),
        0 <= i < arms.len(),
        panics_on(defs, arms[i]) is Some,
    ensures
        !defs.exported(def) ==> after_fn(defs, s, def, false, params, path[0]).panics.contains(
            PanicArm {
                def,
                param: p as usize,
                variant: panics_on(defs, arms[i])->Some_0,
                span: arms[i].span,
            },
        ),
        defs.exported(def) ==> after_fn(defs, s, def, false, params, path[0]) == s,
{
    crate::hir::lemma_walk_misses_nothing(path, true);
    let es = walk(path[0], true);
    let m = choose|m: int| 0 <= m < es.len() && es[m] == path.last();
    let x = PanicArm {
        def,
        param: p as usize,
        variant: panics_on(defs, arms[i])->Some_0,
        span: arms[i].span,
    };
    lemma_arm_listed(defs, def, p as usize, arms, arms.len() as int, i);
    lemma_match_listed(defs, def, p as usize, local, es, es.len() as int, m, x);
    lemma_param_listed(defs, def, params, es, params.len() as int, p, local, x);
    crate::table::lemma_either(
        s.panics,
        panicking_params(defs, def, params, es, params.len() as int),
        x,
    );
}

proof fn lemma_arg_listed(
    defs: Definitions,
    def: DefId,
    off: int,
    args: Seq<Expr>,
    k: int,
    i: int,
)
    requires
        0 <= i < k <= args.len(),
    ensures
        passed_args(defs, def, off, args, k).contains(
            Passed {
                def,
                param: (i + off) as usize,
                variant: literal_variant(defs, args[i]),
            },
        ),
    decreases k,
{
    if i < k - 1 {
        lemma_arg_listed(defs, def, off, args, k - 1, i);
    }
    crate::table::lemma_pushed(
        passed_args(defs, def, off, args, k - 1),
        Passed {
            def,
            param: (k - 1 + off) as usize,
            variant: literal_variant(defs, args[k - 1]),
        },
        Passed { def, param: (i + off) as usize, variant: literal_variant(defs, args[i]) },
    );
}

/// Every argument of a call of the crate's own function is on record: by path
/// in its place, to a method one further on, since the receiver comes first.
pub proof fn lemma_arguments_are_recorded(
    defs: Definitions,
    s: OverwideView,
    e: Expr,
    parents: Seq<Parent>,
    def: DefId,
    args: Vec<Expr>,
    i: int,
)
    requires
        defs.local(def),
        0 <= i < args@.len(),
    ensures
        (e.kind matches ExprKind::Call(_, a) && a == args) && called_def(e) == Some(def)
            && defs.is_fn(def) ==> after_expr(defs, s, e, parents).calls.contains(
            Passed { def, param: i as usize, variant: literal_variant(defs, args@[i]) },
        ),
        (e.kind matches ExprKind::MethodCall(_, _, a) && a == args) && e.method == Some(def)
            ==> after_expr(defs, s, e, parents).calls.contains(
            Passed { def, param: (i + 1) as usize, variant: literal_variant(defs, args@[i]) },
        ),
{
    lemma_arg_listed(defs, def, 0, args@, args@.len() as int, i);
    lemma_arg_listed(defs, def, 1, args@, args@.len() as int, i);
    crate::table::lemma_either(
        s.calls,
        passed_args(defs, def, 0, args@, args@.len() as int),
        Passed { def, param: i as usize, variant: literal_variant(defs, args@[i]) },
    );
    crate::table::lemma_either(
        s.calls,
        passed_args(defs, def, 1, args@, args@.len() as int),
        Passed { def, param: (i + 1) as usize, variant: literal_variant(defs, args@[i]) },
    );
}

/// A function that is named other than to call it may be called from anywhere.
pub proof fn lemma_mentioned_function_is_poisoned(
    defs: Definitions,
    s: OverwideView,
    e: Expr,
    parents: Seq<Parent>,
    def: DefId,
)
    requires
        e.kind matches ExprKind::Path(p) && (p.res == Res::Def(DefKind::Function, def) || p.res
            == Res::Def(DefKind::AssocFn, def)),
        defs.local(def),
    ensures
        parents.len() == 0 || !(parents[0] matches Parent::Expr(p) && (
        p.kind matches ExprKind::Call(c, _) && c.id == e.id)) ==> after_expr(
            defs,
            s,
            e,
            parents,
        ).poisoned.contains(def),
        (parents.len() > 0 && (parents[0] matches Parent::Expr(p) && (
        p.kind matches ExprKind::Call(c, _) && c.id == e.id))) ==> after_expr(defs, s, e, parents)
            == s,
{
    crate::table::lemma_added(s.poisoned, def);
}

proof fn lemma_passed_is_sent(calls: Seq<Passed>, def: DefId, param: usize, v: DefId)
    ensures
        variants_passed(calls, def, param).contains(v) ==> exists|i: int|
            0 <= i < calls.len() && passes(#[trigger] calls[i], def, param) && calls[i].variant
                == Some(v),
        call_sites(calls, def, param) > 0 <==> exists|i: int|
            0 <= i < calls.len() && passes(#[trigger] calls[i], def, param),
    decreases calls.len(),
{
    if calls.len() > 0 {
        let front = calls.drop_last();
        lemma_passed_is_sent(front, def, param, v);
        let before = variants_passed(front, def, param);
        assert(calls[calls.len() - 1] == calls.last());
        if calls.last().variant is Some {
            crate::table::lemma_added(before, calls.last().variant->Some_0);
        }
        if before.contains(v) {
            let i = choose|i: int|
                0 <= i < front.len() && passes(#[trigger] front[i], def, param)
                    && front[i].variant == Some(v);
            assert(calls[i] == front[i]);
        }
        if call_sites(front, def, param) > 0 {
            let i = choose|i: int| 0 <= i < front.len() && passes(#[trigger] front[i], def, param);
            assert(calls[i] == front[i]);
        }
        if exists|i: int| 0 <= i < calls.len() && passes(#[trigger] calls[i], def, param) {
            let i = choose|i: int| 0 <= i < calls.len() && passes(#[trigger] calls[i], def, param);
            if i < front.len() {
                assert(front[i] == calls[i]);
            }
        }
    }
}

/// An arm that panics on a variant no caller sends, where every caller is
/// known and there is one, is reported at the arm.
pub proof fn lemma_unsent_variant_is_reported(
    defs: Definitions,
    s: OverwideView,
    k: int,
    j: int,
    c: int,
)
    requires
        0 <= j < k <= s.panics.len(),
        0 <= c < s.calls.len(),
        s.calls[c].def == s.panics[j].def && s.calls[c].param == s.panics[j].param,
        !s.poisoned.contains(s.panics[j].def),
        forall|i: int|
            0 <= i < s.calls.len() && (#[trigger] s.calls[i]).def == s.panics[j].def
                && s.calls[i].param == s.panics[j].param ==> s.calls[i].variant is Some
                && s.calls[i].variant != Some(s.panics[j].variant),
    ensures
        exists|i: int|
            0 <= i < overwide_findings(defs, s, k).len() && (#[trigger] overwide_findings(
                defs,
                s,
                k,
            )[i]).at == s.panics[j].span && overwide_findings(defs, s, k)[i].lint
                == Lint::OverwideParameter,
    decreases k,
{
    let p = s.panics[j];
    let all = overwide_findings(defs, s, k);
    let before = overwide_findings(defs, s, k - 1);
    if j == k - 1 {
        lemma_passed_is_sent(s.calls, p.def, p.param, p.variant);
        assert(passes(s.calls[c], p.def, p.param));
        assert(never_sent(s, p));
        let n = all.len() - 1;
        assert(all[n].at == p.span && all[n].lint == Lint::OverwideParameter);
    } else {
        lemma_unsent_variant_is_reported(defs, s, k - 1, j, c);
        let i = choose|i: int|
            0 <= i < before.len() && (#[trigger] before[i]).at == p.span && before[i].lint
                == Lint::OverwideParameter;
        assert(all[i] == before[i]);
        assert(all[i].lint == Lint::OverwideParameter);
    }
}

/// A function that is never called, or whose name goes around as a value, is
/// let be.
pub proof fn lemma_unknown_callers_are_let_be(s: OverwideView, p: PanicArm)
    requires
        s.poisoned.contains(p.def) || forall|i: int|
            0 <= i < s.calls.len() ==> (#[trigger] s.calls[i]).def != p.def,
    ensures
        !never_sent(s, p),
{
    lemma_passed_is_sent(s.calls, p.def, p.param, p.variant);
}

/// Calls of other crates' functions, and of what is no function, are on no
/// record, and the names of anything but functions poison nothing.
pub proof fn lemma_other_calls_are_let_be(
    defs: Definitions,
    s: OverwideView,
    e: Expr,
    parents: Seq<Parent>,
    def: DefId,
)
    ensures
        e.kind is Call && called_def(e) == Some(def) && (!defs.local(def) || !defs.is_fn(def))
            ==> after_expr(defs, s, e, parents) == s,
        e.kind is Call && called_def(e) is None ==> after_expr(defs, s, e, parents) == s,
        e.kind is MethodCall && e.method == Some(def) && !defs.local(def) ==> after_expr(
            defs,
            s,
            e,
            parents,
        ) == s,
        (e.kind matches ExprKind::Path(p) && (p.res matches Res::Def(k, _) && k
            != DefKind::Function && k != DefKind::AssocFn)) ==> after_expr(defs, s, e, parents)
            == s,
        (e.kind matches ExprKind::Path(p) && (p.res matches Res::Def(_, d) && !defs.local(d)))
            ==> after_expr(defs, s, e, parents) == s,
{
}

} // verus!
