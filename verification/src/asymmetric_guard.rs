//! A guarded call whose guard cannot be sound: `self.can_x()` gates
//! `self.y()`, but `y` touches a field of `self` that `can_x` never reads,
//! directly or through anything it calls.

use crate::adt_facts::{impl_adt, impl_self_adt};
use crate::defs::{DefKind, Definitions};
use crate::enum_facts::{parent_def, parent_of};
use crate::hir::{targets, walk, walked, Block, Expr, ExprKind, Stmt, StmtKind};
use crate::hir_shapes::{
    ends_in_return, is_self_path, names_self, peel_not, returns_last, without_not,
};
use crate::ids::{DefId, Span, Symbol};
use crate::reach::{led_to, reached_from};
use crate::report::{
    emit, finding, in_order, list_names, listed_names, sort_texts, views, Finding, FindingView,
    Lint,
};
use crate::table::{add_new, is_in, with_added};
use crate::text::{has_prefix, starts_with, texts};
use crate::ty::Ty;
use vstd::prelude::*;
use vstd::string::*;

verus! {

/// A call that a guard gates.
#[derive(Clone, Copy, Debug, PartialEq, Eq, Structural)]
pub struct Gate {
    pub guard: DefId,
    pub action: DefId,
    pub span: Span,
}

#[derive(Debug)]
pub struct AsymmetricGuard {
    /// A method and a field of `self` that occurs in it, read or written.
    pub touched: Vec<(DefId, Symbol)>,
    /// A method and a same-type inherent method it calls on `self`.
    pub calls: Vec<(DefId, DefId)>,
    pub gates: Vec<Gate>,
}

#[verifier::ext_equal]
pub struct GuardView {
    pub touched: Seq<(DefId, Symbol)>,
    pub calls: Seq<(DefId, DefId)>,
    pub gates: Seq<Gate>,
}

impl View for AsymmetricGuard {
    type V = GuardView;

    open spec fn view(&self) -> GuardView {
        GuardView { touched: self.touched@, calls: self.calls@, gates: self.gates@ }
    }
}

/// The inherent method a `self.m(..)` call resolves to, with its self type,
/// when that type is one of the crate's.
pub open spec fn self_method(defs: Definitions, e: Expr) -> Option<(DefId, DefId)> {
    match (e.kind, e.method) {
        (ExprKind::MethodCall(_, recv, _), Some(m)) => match parent_of(defs, m) {
            Some(imp) => match impl_adt(defs, imp) {
                Some(adt) => if names_self(defs, *recv) && defs.kind(imp) == DefKind::Impl(false)
                    && defs.local(adt) {
                    Some((m, adt))
                } else {
                    None
                },
                None => None,
            },
            None => None,
        },
        _ => None,
    }
}

pub fn self_method_call(defs: &Definitions, e: &Expr) -> (r: Option<(DefId, DefId)>)
    ensures
        r == self_method(*defs, *e),
{
    match (&e.kind, e.method) {
        (ExprKind::MethodCall(_, recv, _), Some(m)) => match parent_def(defs, m) {
            Some(imp) => match impl_self_adt(defs, imp) {
                Some(adt) => {
                    let inherent = match defs.kind_of(imp) {
                        DefKind::Impl(of_trait) => !of_trait,
                        _ => false,
                    };
                    if is_self_path(defs, recv) && inherent && defs.is_local(adt) {
                        Some((m, adt))
                    } else {
                        None
                    }
                },
                None => None,
            },
            None => None,
        },
        _ => None,
    }
}

/// The names that promise "this action is safe to take".
pub open spec fn guard_name(name: Seq<char>) -> bool {
    has_prefix(name, "can_"@) || has_prefix(name, "may_"@) || has_prefix(name, "check_"@)
}

fn is_guard_name(name: &str) -> (r: bool)
    ensures
        r == guard_name(name@),
{
    starts_with(name, "can_") || starts_with(name, "may_") || starts_with(name, "check_")
}

/// What one expression of a method adds to what is known of it.
pub open spec fn with_fact(defs: Definitions, s: GuardView, method: DefId, e: Expr) -> GuardView {
    match self_field(defs, e) {
        Some(name) => GuardView { touched: with_added(s.touched, (method, name)), ..s },
        None => match self_method(defs, e) {
            Some((m, _)) => GuardView { calls: with_added(s.calls, (method, m)), ..s },
            None => s,
        },
    }
}

/// The field, if the expression is `self.field`.
pub open spec fn self_field(defs: Definitions, e: Expr) -> Option<Symbol> {
    match e.kind {
        ExprKind::Field(base, name) => if names_self(defs, *base) {
            Some(name)
        } else {
            None
        },
        _ => None,
    }
}

/// What the first `k` expressions of a method add.
pub open spec fn with_facts(
    defs: Definitions,
    s: GuardView,
    method: DefId,
    es: Seq<Expr>,
    k: int,
) -> GuardView
    decreases k,
{
    if k <= 0 {
        s
    } else {
        with_fact(defs, with_facts(defs, s, method, es, k - 1), method, es[k - 1])
    }
}

/// What is known once a function has been visited.
pub open spec fn after_fn(
    defs: Definitions,
    s: GuardView,
    method: DefId,
    is_closure: bool,
    body: Expr,
) -> GuardView {
    if is_closure {
        s
    } else {
        with_facts(defs, s, method, walk(body, true), walk(body, true).len() as int)
    }
}

/// The gated calls among the first `k` expressions of a scope.
pub open spec fn actions(
    defs: Definitions,
    guard: DefId,
    adt: DefId,
    es: Seq<Expr>,
    k: int,
) -> Seq<Gate>
    decreases k,
{
    if k <= 0 {
        Seq::empty()
    } else {
        let before = actions(defs, guard, adt, es, k - 1);
        match self_method(defs, es[k - 1]) {
            Some((m, a)) => if a == adt && m != guard {
                before.push(Gate { guard, action: m, span: es[k - 1].span })
            } else {
                before
            },
            None => before,
        }
    }
}

pub open spec fn actions_in(defs: Definitions, guard: DefId, adt: DefId, scope: Expr) -> Seq<Gate> {
    actions(defs, guard, adt, walk(scope, true), walk(scope, true).len() as int)
}

/// The gated calls in a statement.
pub open spec fn stmt_actions(defs: Definitions, guard: DefId, adt: DefId, s: Stmt) -> Seq<Gate> {
    match s.kind {
        StmtKind::Expr(e) => actions_in(defs, guard, adt, e),
        StmtKind::Semi(e) => actions_in(defs, guard, adt, e),
        StmtKind::Let(l) => match l.init {
            Some(init) => actions_in(defs, guard, adt, *init),
            None => Seq::empty(),
        },
        StmtKind::Item => Seq::empty(),
    }
}

/// The gated calls in the statements from `from` up to `k`.
pub open spec fn later_actions(
    defs: Definitions,
    guard: DefId,
    adt: DefId,
    stmts: Seq<Stmt>,
    from: int,
    k: int,
) -> Seq<Gate>
    decreases k - from,
{
    if k <= from {
        Seq::empty()
    } else {
        later_actions(defs, guard, adt, stmts, from, k - 1) + stmt_actions(
            defs,
            guard,
            adt,
            stmts[k - 1],
        )
    }
}

/// A statement that is an `if` without an `else`: the condition and what it
/// runs.
pub open spec fn plain_if(s: Stmt) -> Option<(Expr, Expr)> {
    match s.kind {
        StmtKind::Expr(e) => if_parts(e),
        StmtKind::Semi(e) => if_parts(e),
        _ => None,
    }
}

pub open spec fn if_parts(e: Expr) -> Option<(Expr, Expr)> {
    match e.kind {
        ExprKind::If(cond, yes, None) => Some((*cond, *yes)),
        _ => None,
    }
}

/// What statement `i` of a block gates: `if !self.can_x() { return }` the
/// rest of the block, `if self.can_x() { .. }` what it runs.
pub open spec fn gates_at(defs: Definitions, b: Block, i: int) -> Seq<Gate> {
    match plain_if(b.stmts@[i]) {
        Some((cond, yes)) => {
            let (call, negated) = without_not(cond);
            match self_method(defs, call) {
                Some((guard, adt)) => if !guard_name(defs.name_text(guard)) {
                    Seq::empty()
                } else if negated && returns_last(yes) {
                    later_actions(
                        defs,
                        guard,
                        adt,
                        b.stmts@,
                        i + 1,
                        b.stmts@.len() as int,
                    ) + match b.expr {
                        Some(tail) => actions_in(defs, guard, adt, *tail),
                        None => Seq::empty(),
                    }
                } else if !negated {
                    actions_in(defs, guard, adt, yes)
                } else {
                    Seq::empty()
                },
                None => Seq::empty(),
            }
        },
        None => Seq::empty(),
    }
}

/// What the first `k` statements of a block gate.
pub open spec fn gates_in(defs: Definitions, b: Block, k: int) -> Seq<Gate>
    decreases k,
{
    if k <= 0 {
        Seq::empty()
    } else {
        gates_in(defs, b, k - 1) + gates_at(defs, b, k - 1)
    }
}

/// What is known once a block has been visited.
pub open spec fn after_block(defs: Definitions, s: GuardView, b: Block) -> GuardView {
    GuardView { gates: s.gates + gates_in(defs, b, b.stmts@.len() as int), ..s }
}

// ---------------------------------------------------------------- conclusions

/// The guard reads the field, itself or through what it calls.
pub open spec fn covers(s: GuardView, guard: DefId, field: Symbol) -> bool {
    exists|i: int|
        0 <= i < s.touched.len() && (#[trigger] s.touched[i]).1 == field && led_to(
            s.calls,
            guard,
            s.touched[i].0,
        )
}

/// The names of the fields the action touches and the guard does not read,
/// among the first `k` touches.
pub open spec fn missed(
    defs: Definitions,
    s: GuardView,
    guard: DefId,
    action: DefId,
    k: int,
) -> Seq<Seq<char>>
    decreases k,
{
    if k <= 0 {
        Seq::empty()
    } else {
        let before = missed(defs, s, guard, action, k - 1);
        let (m, field) = s.touched[k - 1];
        if m == action && !covers(s, guard, field) {
            before.push(defs.text(field))
        } else {
            before
        }
    }
}

/// The method takes `&mut self`.
pub open spec fn mutates(defs: Definitions, action: DefId) -> bool {
    defs.sig(action) matches Some(sig) && sig.inputs@.len() > 0 && (sig.inputs@[0].ty matches Ty::Ref(
        _,
        m,
    ) && m)
}

fn is_mutator(defs: &Definitions, action: DefId) -> (r: bool)
    ensures
        r == mutates(*defs, action),
{
    match defs.sig_of(action) {
        Some(sig) => sig.inputs.len() > 0 && match &sig.inputs[0].ty {
            Ty::Ref(_, m) => *m,
            _ => false,
        },
        None => false,
    }
}

pub open spec fn gate_finding(
    defs: Definitions,
    gate: Gate,
    fields: Seq<Seq<char>>,
) -> FindingView {
    finding(
        Lint::AsymmetricGuard,
        gate.span,
        "`"@ + defs.name_text(gate.action) + "` is gated by `"@ + defs.name_text(gate.guard)
            + "`, but touches "@ + listed_names(in_order(fields))
            + " which the guard never reads"@,
        "a guard blind to part of the state its action manipulates cannot be sound; align what the pair reads"@,
    )
}

/// What the lint says of the first `k` gates. A guarded read cannot
/// invalidate anything, so only a `&mut self` action counts.
pub open spec fn gate_findings(defs: Definitions, s: GuardView, k: int) -> Seq<FindingView>
    decreases k,
{
    if k <= 0 {
        Seq::empty()
    } else {
        let before = gate_findings(defs, s, k - 1);
        let gate = s.gates[k - 1];
        let fields = missed(defs, s, gate.guard, gate.action, s.touched.len() as int);
        if mutates(defs, gate.action) && fields.len() > 0 {
            before.push(gate_finding(defs, gate, fields))
        } else {
            before
        }
    }
}

fn add_actions(defs: &Definitions, guard: DefId, adt: DefId, scope: &Expr, out: &mut Vec<Gate>)
    ensures
        final(out)@ == old(out)@ + actions_in(*defs, guard, adt, *scope),
{
    let es = walked(scope, true);
    let ghost all = walk(*scope, true);
    let ghost start = out@;
    let mut i: usize = 0;
    assert(out@ =~= start + actions(*defs, guard, adt, all, 0));
    while i < es.len()
        invariant
            i <= es@.len(),
            targets(es@) == all,
            out@ == start + actions(*defs, guard, adt, all, i as int),
        decreases es.len() - i,
    {
        assert(all[i as int] == *es@[i as int]);
        match self_method_call(defs, es[i]) {
            Some((m, a)) => {
                if a == adt && m != guard {
                    out.push(Gate { guard, action: m, span: es[i].span });
                }
            },
            None => {},
        }
        i = i + 1;
        assert(out@ =~= start + actions(*defs, guard, adt, all, i as int));
    }
    assert(es@.len() == all.len());
}

fn add_stmt_actions(defs: &Definitions, guard: DefId, adt: DefId, s: &Stmt, out: &mut Vec<Gate>)
    ensures
        final(out)@ == old(out)@ + stmt_actions(*defs, guard, adt, *s),
{
    let ghost start = out@;
    match &s.kind {
        StmtKind::Expr(e) => add_actions(defs, guard, adt, e, out),
        StmtKind::Semi(e) => add_actions(defs, guard, adt, e, out),
        StmtKind::Let(l) => {
            match &l.init {
                Some(init) => add_actions(defs, guard, adt, init, out),
                None => {
                    assert(out@ =~= start + stmt_actions(*defs, guard, adt, *s));
                },
            }
        },
        StmtKind::Item => {
            assert(out@ =~= start + stmt_actions(*defs, guard, adt, *s));
        },
    }
}

fn add_gates(defs: &Definitions, b: &Block, i: usize, out: &mut Vec<Gate>)
    requires
        i < b.stmts@.len(),
    ensures
        final(out)@ == old(out)@ + gates_at(*defs, *b, i as int),
{
    let ghost start = out@;
    assert(start + Seq::<Gate>::empty() =~= start);
    let e = match &b.stmts[i].kind {
        StmtKind::Expr(e) => e,
        StmtKind::Semi(e) => e,
        _ => {
            return;
        },
    };
    let (cond, yes) = match &e.kind {
        ExprKind::If(cond, yes, None) => (cond, yes),
        _ => {
            return;
        },
    };
    let (call, negated) = peel_not(cond);
    let (guard, adt) = match self_method_call(defs, call) {
        Some(p) => p,
        None => {
            return;
        },
    };
    if !is_guard_name(defs.name_of(guard)) {
        return;
    }
    if negated && ends_in_return(yes) {
        assert(i < b.stmts.len());
        let mut k: usize = i + 1;
        assert(out@ =~= start + later_actions(*defs, guard, adt, b.stmts@, i + 1, k as int));
        while k < b.stmts.len()
            invariant
                i + 1 <= k <= b.stmts@.len(),
                out@ == start + later_actions(*defs, guard, adt, b.stmts@, i + 1, k as int),
            decreases b.stmts.len() - k,
        {
            add_stmt_actions(defs, guard, adt, &b.stmts[k], out);
            k = k + 1;
            assert(out@ =~= start + later_actions(*defs, guard, adt, b.stmts@, i + 1, k as int));
        }
        match &b.expr {
            Some(tail) => add_actions(defs, guard, adt, tail, out),
            None => {},
        }
        assert(out@ =~= start + gates_at(*defs, *b, i as int));
    } else if !negated {
        add_actions(defs, guard, adt, yes, out);
    }
}

impl AsymmetricGuard {
    pub fn new() -> (r: Self)
        ensures
            r@ == (GuardView { touched: Seq::empty(), calls: Seq::empty(), gates: Seq::empty() }),
    {
        AsymmetricGuard { touched: Vec::new(), calls: Vec::new(), gates: Vec::new() }
    }

    /// Visits a function.
    pub fn check_fn(&mut self, defs: &Definitions, method: DefId, is_closure: bool, body: &Expr)
        ensures
            final(self)@ == after_fn(*defs, old(self)@, method, is_closure, *body),
    {
        if is_closure {
            return;
        }
        let ghost start = self@;
        let es = walked(body, true);
        let ghost all = walk(*body, true);
        let mut i: usize = 0;
        while i < es.len()
            invariant
                i <= es@.len(),
                targets(es@) == all,
                self@ == with_facts(*defs, start, method, all, i as int),
            decreases es.len() - i,
        {
            let ghost before = self@;
            let e = es[i];
            assert(all[i as int] == *e);
            let field = match &e.kind {
                ExprKind::Field(base, name) => if is_self_path(defs, base) {
                    Some(*name)
                } else {
                    None
                },
                _ => None,
            };
            match field {
                Some(name) => add_new(&mut self.touched, (method, name)),
                None => match self_method_call(defs, e) {
                    Some((m, _)) => add_new(&mut self.calls, (method, m)),
                    None => {},
                },
            }
            assert(self@ =~= with_fact(*defs, before, method, *e));
            i = i + 1;
        }
        assert(es@.len() == all.len());
    }

    /// Visits a block.
    pub fn check_block(&mut self, defs: &Definitions, b: &Block)
        ensures
            final(self)@ == after_block(*defs, old(self)@, *b),
    {
        let ghost start = self@;
        let mut i: usize = 0;
        assert(self.gates@ =~= start.gates + gates_in(*defs, *b, 0));
        while i < b.stmts.len()
            invariant
                i <= b.stmts@.len(),
                self@.touched == start.touched,
                self@.calls == start.calls,
                self.gates@ == start.gates + gates_in(*defs, *b, i as int),
            decreases b.stmts.len() - i,
        {
            add_gates(defs, b, i, &mut self.gates);
            i = i + 1;
            assert(self.gates@ =~= start.gates + gates_in(*defs, *b, i as int));
        }
        assert(self@ =~= after_block(*defs, start, *b));
    }

    fn is_covered(&self, reached: &Vec<DefId>, Ghost(guard): Ghost<DefId>, field: Symbol) -> (r:
        bool)
        requires
            forall|x: DefId| #[trigger] reached@.contains(x) <==> led_to(self@.calls, guard, x),
        ensures
            r == covers(self@, guard, field),
    {
        let ghost touched = self@.touched;
        let mut i: usize = 0;
        while i < self.touched.len()
            invariant
                i <= self.touched@.len(),
                touched == self.touched@,
                forall|x: DefId| #[trigger]
                    reached@.contains(x) <==> led_to(self@.calls, guard, x),
                forall|j: int|
                    0 <= j < i ==> !((#[trigger] touched[j]).1 == field && led_to(
                        self@.calls,
                        guard,
                        touched[j].0,
                    )),
            decreases self.touched.len() - i,
        {
            if self.touched[i].1 == field && is_in(reached, &self.touched[i].0) {
                assert(self@.touched[i as int].1 == field && led_to(
                    self@.calls,
                    guard,
                    self@.touched[i as int].0,
                ));
                return true;
            }
            i = i + 1;
        }
        false
    }

    fn missed_fields(&self, defs: &Definitions, gate: Gate) -> (r: Vec<String>)
        ensures
            texts(r@) == missed(
                *defs,
                self@,
                gate.guard,
                gate.action,
                self@.touched.len() as int,
            ),
    {
        let reached = reached_from(&self.calls, gate.guard);
        let mut out: Vec<String> = Vec::new();
        let mut k: usize = 0;
        assert(texts(out@) =~= Seq::<Seq<char>>::empty());
        while k < self.touched.len()
            invariant
                k <= self.touched@.len(),
                forall|x: DefId| #[trigger]
                    reached@.contains(x) <==> led_to(self@.calls, gate.guard, x),
                texts(out@) == missed(*defs, self@, gate.guard, gate.action, k as int),
            decreases self.touched.len() - k,
        {
            let (m, field) = self.touched[k];
            if m == gate.action && !self.is_covered(&reached, Ghost(gate.guard), field) {
                let ghost before = out@;
                out.push(String::from_str(defs.text_of(field)));
                assert(texts(out@) =~= texts(before).push(defs.text(field)));
            }
            k = k + 1;
        }
        out
    }

    /// What the lint says of the crate.
    pub fn check_crate_post(&self, defs: &Definitions) -> (r: Vec<Finding>)
        ensures
            views(r@) == gate_findings(*defs, self@, self@.gates.len() as int),
    {
        let mut out: Vec<Finding> = Vec::new();
        let mut k: usize = 0;
        assert(views(out@) =~= Seq::<FindingView>::empty());
        while k < self.gates.len()
            invariant
                k <= self.gates@.len(),
                views(out@) == gate_findings(*defs, self@, k as int),
            decreases self.gates.len() - k,
        {
            let gate: Gate = self.gates[k];
            let fields = self.missed_fields(defs, gate);
            assert(texts(fields@).len() == fields@.len());
            if is_mutator(defs, gate.action) && fields.len() > 0 {
                let mut msg = String::from_str("`");
                msg.append(defs.name_of(gate.action));
                msg.append("` is gated by `");
                msg.append(defs.name_of(gate.guard));
                msg.append("`, but touches ");
                msg.append(list_names(&sort_texts(&fields)).as_str());
                msg.append(" which the guard never reads");
                emit(
                    &mut out,
                    Lint::AsymmetricGuard,
                    gate.span,
                    msg,
                    "a guard blind to part of the state its action manipulates cannot be sound; align what the pair reads",
                );
            }
            k = k + 1;
        }
        out
    }
}

/// A guard that delegates is never accused falsely: it covers what any method
/// it leads to touches.
pub proof fn lemma_delegation_covers(s: GuardView, guard: DefId, helper: DefId, i: int)
    requires
        0 <= i < s.touched.len(),
        s.touched[i].0 == helper,
        led_to(s.calls, guard, helper),
    ensures
        covers(s, guard, s.touched[i].1),
{
    assert(s.touched[i].1 == s.touched[i].1 && led_to(s.calls, guard, s.touched[i].0));
}

/// An action whose every field the guard covers is not reported.
pub proof fn lemma_covered_action_is_quiet(
    defs: Definitions,
    s: GuardView,
    guard: DefId,
    action: DefId,
    k: int,
)
    requires
        k <= s.touched.len(),
        forall|i: int|
            0 <= i < s.touched.len() && (#[trigger] s.touched[i]).0 == action ==> covers(
                s,
                guard,
                s.touched[i].1,
            ),
    ensures
        missed(defs, s, guard, action, k).len() == 0,
    decreases k,
{
    if k > 0 {
        lemma_covered_action_is_quiet(defs, s, guard, action, k - 1);
        assert(s.touched[k - 1].0 == action ==> covers(s, guard, s.touched[k - 1].1));
    }
}

/// The expression calls, on `self`, a method of an inherent impl of a type of
/// the crate.
pub open spec fn calls_on_self(defs: Definitions, e: Expr, m: DefId, adt: DefId) -> bool {
    &&& e.kind matches ExprKind::MethodCall(_, recv, _) && (recv.kind matches ExprKind::Path(p)
        && !p.type_relative && !p.has_self && p.segments@.len() == 1 && defs.text(p.segments@[0])
        == "self"@)
    &&& e.method == Some(m)
    &&& defs.at(m) matches Some(f) && (f.parent matches Some(imp) && defs.kind(imp)
        == DefKind::Impl(false) && (defs.at(imp) matches Some(i) && (i.self_ty matches Some(Ty::Adt(
        d,
        _,
    )) && d == adt)))
    &&& defs.local(adt)
}

/// The expression is `self.field`.
pub open spec fn is_own_field(defs: Definitions, e: Expr, field: Symbol) -> bool {
    e.kind matches ExprKind::Field(base, n) && n == field && (base.kind matches ExprKind::Path(p)
        && !p.type_relative && !p.has_self && p.segments@.len() == 1 && defs.text(p.segments@[0])
        == "self"@)
}

proof fn lemma_facts_grow(
    defs: Definitions,
    s: GuardView,
    method: DefId,
    es: Seq<Expr>,
    k: int,
)
    requires
        0 <= k <= es.len(),
    ensures
        ({
            let t = with_facts(defs, s, method, es, k);
            &&& forall|x: (DefId, Symbol)| #[trigger] s.touched.contains(x) ==> t.touched.contains(x)
            &&& forall|x: (DefId, DefId)| #[trigger] s.calls.contains(x) ==> t.calls.contains(x)
            &&& t.gates == s.gates
            &&& forall|i: int|
                0 <= i < k ==> (self_field(defs, #[trigger] es[i]) matches Some(f)
                    ==> t.touched.contains((method, f)))
            &&& forall|i: int|
                0 <= i < k ==> (self_method(defs, #[trigger] es[i]) matches Some(m)
                    ==> t.calls.contains((method, m.0)))
        }),
    decreases k,
{
    if k > 0 {
        lemma_facts_grow(defs, s, method, es, k - 1);
        let t = with_facts(defs, s, method, es, k - 1);
        match self_field(defs, es[k - 1]) {
            Some(f) => crate::table::lemma_added(t.touched, (method, f)),
            None => match self_method(defs, es[k - 1]) {
                Some(m) => crate::table::lemma_added(t.calls, (method, m.0)),
                None => {},
            },
        }
    }
}

/// Every field of `self` anywhere in a method is on record as touched by it,
/// and every method it calls on `self` as called, in closures too.
pub proof fn lemma_method_facts_are_recorded(
    defs: Definitions,
    s: GuardView,
    method: DefId,
    path: Seq<Expr>,
    field: Symbol,
    m: DefId,
    adt: DefId,
)
    requires
        crate::hir::nested(path),
    ensures
        is_own_field(defs, path.last(), field) ==> after_fn(
            defs,
            s,
            method,
            false,
            path[0],
        ).touched.contains((method, field)),
        calls_on_self(defs, path.last(), m, adt) ==> after_fn(
            defs,
            s,
            method,
            false,
            path[0],
        ).calls.contains((method, m)),
{
    let es = walk(path[0], true);
    crate::hir::lemma_walk_misses_nothing(path, true);
    lemma_facts_grow(defs, s, method, es, es.len() as int);
    let i = choose|i: int| 0 <= i < es.len() && es[i] == path.last();
    assert(self_field(defs, es[i]) == self_field(defs, path.last()));
    assert(self_method(defs, es[i]) == self_method(defs, path.last()));
}

proof fn lemma_action_listed(
    defs: Definitions,
    guard: DefId,
    adt: DefId,
    es: Seq<Expr>,
    k: int,
    i: int,
    m: DefId,
)
    requires
        0 <= i < k <= es.len(),
        self_method(defs, es[i]) == Some((m, adt)),
        m != guard,
    ensures
        actions(defs, guard, adt, es, k).contains(Gate { guard, action: m, span: es[i].span }),
    decreases k,
{
    let all = actions(defs, guard, adt, es, k);
    let before = actions(defs, guard, adt, es, k - 1);
    let g = Gate { guard, action: m, span: es[i].span };
    if i == k - 1 {
        assert(all[all.len() - 1] == g);
    } else {
        lemma_action_listed(defs, guard, adt, es, k - 1, i, m);
        let j = choose|j: int| 0 <= j < before.len() && before[j] == g;
        assert(all[j] == g);
    }
}

proof fn lemma_scope_action(
    defs: Definitions,
    guard: DefId,
    adt: DefId,
    path: Seq<Expr>,
    m: DefId,
)
    requires
        crate::hir::nested(path),
        calls_on_self(defs, path.last(), m, adt),
        m != guard,
    ensures
        actions_in(defs, guard, adt, path[0]).contains(
            Gate { guard, action: m, span: path.last().span },
        ),
{
    let es = walk(path[0], true);
    crate::hir::lemma_walk_misses_nothing(path, true);
    let i = choose|i: int| 0 <= i < es.len() && es[i] == path.last();
    lemma_action_listed(defs, guard, adt, es, es.len() as int, i, m);
}

proof fn lemma_in_gates(a: Seq<Gate>, b: Seq<Gate>, g: Gate)
    ensures
        a.contains(g) ==> (a + b).contains(g),
        b.contains(g) ==> (a + b).contains(g),
{
    if a.contains(g) {
        let i = choose|i: int| 0 <= i < a.len() && a[i] == g;
        assert((a + b)[i] == g);
    }
    if b.contains(g) {
        let i = choose|i: int| 0 <= i < b.len() && b[i] == g;
        assert((a + b)[a.len() + i] == g);
    }
}

proof fn lemma_later_listed(
    defs: Definitions,
    guard: DefId,
    adt: DefId,
    stmts: Seq<Stmt>,
    from: int,
    k: int,
    i: int,
    g: Gate,
)
    requires
        0 <= from <= i < k <= stmts.len(),
        stmt_actions(defs, guard, adt, stmts[i]).contains(g),
    ensures
        later_actions(defs, guard, adt, stmts, from, k).contains(g),
    decreases k - from,
{
    let before = later_actions(defs, guard, adt, stmts, from, k - 1);
    lemma_in_gates(before, stmt_actions(defs, guard, adt, stmts[k - 1]), g);
    if i < k - 1 {
        lemma_later_listed(defs, guard, adt, stmts, from, k - 1, i, g);
    }
}

proof fn lemma_gate_listed(defs: Definitions, b: Block, k: int, i: int, g: Gate)
    requires
        0 <= i < k <= b.stmts@.len(),
        gates_at(defs, b, i).contains(g),
    ensures
        gates_in(defs, b, k).contains(g),
    decreases k,
{
    lemma_in_gates(gates_in(defs, b, k - 1), gates_at(defs, b, k - 1), g);
    if i < k - 1 {
        lemma_gate_listed(defs, b, k - 1, i, g);
    }
}

/// The method's name promises that an action is safe to take.
pub open spec fn promises_safety(name: Seq<char>, rest: Seq<char>) -> bool {
    name == "can_"@ + rest || name == "may_"@ + rest || name == "check_"@ + rest
}

/// The statement is an `if` on the call, without an `else`.
pub open spec fn is_if(s: Stmt, e: Expr, cond: Expr, yes: Expr) -> bool {
    (s.kind == StmtKind::Expr(e) || s.kind == StmtKind::Semi(e)) && e.kind == ExprKind::If(
        Box::new(cond),
        Box::new(yes),
        None,
    )
}

/// Where a guard is asked and the way on taken, every call on `self` down that
/// way is gated by it: `if self.can_x() { .. }` gates what stands in it.
pub proof fn lemma_guarded_branch_is_gated(
    defs: Definitions,
    s: GuardView,
    b: Block,
    i: int,
    e: Expr,
    cond: Expr,
    yes: Expr,
    guard: DefId,
    adt: DefId,
    rest: Seq<char>,
    path: Seq<Expr>,
    m: DefId,
)
    requires
        0 <= i < b.stmts@.len(),
        is_if(b.stmts@[i], e, cond, yes),
        calls_on_self(defs, cond, guard, adt),
        promises_safety(defs.name_text(guard), rest),
        crate::hir::nested(path),
        path[0] == yes,
        calls_on_self(defs, path.last(), m, adt),
        m != guard,
    ensures
        after_block(defs, s, b).gates.contains(
            Gate { guard, action: m, span: path.last().span },
        ),
{
    let g = Gate { guard, action: m, span: path.last().span };
    let name = defs.name_text(guard);
    crate::text::lemma_prefix(name, "can_"@);
    crate::text::lemma_prefix(name, "may_"@);
    crate::text::lemma_prefix(name, "check_"@);
    lemma_scope_action(defs, guard, adt, path, m);
    assert(without_not(cond) == (cond, false));
    assert(gates_at(defs, b, i).contains(g));
    lemma_gate_listed(defs, b, b.stmts@.len() as int, i, g);
    lemma_in_gates(s.gates, gates_in(defs, b, b.stmts@.len() as int), g);
}

/// `if !self.can_x() { return }` gates the rest of the block: its later
/// statements and its tail.
pub proof fn lemma_bail_out_gates_the_rest(
    defs: Definitions,
    s: GuardView,
    b: Block,
    i: int,
    e: Expr,
    cond: Expr,
    call: Expr,
    yes: Expr,
    guard: DefId,
    adt: DefId,
    rest: Seq<char>,
    path: Seq<Expr>,
    m: DefId,
    k: int,
)
    requires
        0 <= i < b.stmts@.len(),
        is_if(b.stmts@[i], e, cond, yes),
        cond.kind == ExprKind::Unary(crate::hir::UnOp::Not, Box::new(call)),
        calls_on_self(defs, call, guard, adt),
        promises_safety(defs.name_text(guard), rest),
        returns_last(yes),
        crate::hir::nested(path),
        b.expr == Some(Box::new(path[0])) || (i < k < b.stmts@.len() && (b.stmts@[k].kind
            == StmtKind::Expr(path[0]) || b.stmts@[k].kind == StmtKind::Semi(path[0]) || (
        b.stmts@[k].kind matches StmtKind::Let(l) && l.init == Some(Box::new(path[0]))))),
        calls_on_self(defs, path.last(), m, adt),
        m != guard,
    ensures
        after_block(defs, s, b).gates.contains(
            Gate { guard, action: m, span: path.last().span },
        ),
{
    let g = Gate { guard, action: m, span: path.last().span };
    let name = defs.name_text(guard);
    crate::text::lemma_prefix(name, "can_"@);
    crate::text::lemma_prefix(name, "may_"@);
    crate::text::lemma_prefix(name, "check_"@);
    lemma_scope_action(defs, guard, adt, path, m);
    assert(without_not(call) == (call, false));
    assert(without_not(cond) == (call, true));
    let n = b.stmts@.len() as int;
    let later = later_actions(defs, guard, adt, b.stmts@, i + 1, n);
    let tail = match b.expr {
        Some(t) => actions_in(defs, guard, adt, *t),
        None => Seq::empty(),
    };
    lemma_in_gates(later, tail, g);
    if b.expr != Some(Box::new(path[0])) {
        lemma_later_listed(defs, guard, adt, b.stmts@, i + 1, n, k, g);
    }
    assert(gates_at(defs, b, i).contains(g));
    lemma_gate_listed(defs, b, n, i, g);
    lemma_in_gates(s.gates, gates_in(defs, b, n), g);
}

proof fn lemma_missed_listed(
    defs: Definitions,
    s: GuardView,
    guard: DefId,
    action: DefId,
    k: int,
    i: int,
)
    requires
        0 <= i < k <= s.touched.len(),
        s.touched[i].0 == action,
        !covers(s, guard, s.touched[i].1),
    ensures
        missed(defs, s, guard, action, k).contains(defs.text(s.touched[i].1)),
    decreases k,
{
    let all = missed(defs, s, guard, action, k);
    let before = missed(defs, s, guard, action, k - 1);
    let x = defs.text(s.touched[i].1);
    if i == k - 1 {
        assert(all[all.len() - 1] == x);
    } else {
        lemma_missed_listed(defs, s, guard, action, k - 1, i);
        let j = choose|j: int| 0 <= j < before.len() && before[j] == x;
        assert(all[j] == x);
    }
}

proof fn lemma_gate_reported(defs: Definitions, s: GuardView, k: int, g: int)
    requires
        0 <= g < k <= s.gates.len(),
        mutates(defs, s.gates[g].action),
        missed(defs, s, s.gates[g].guard, s.gates[g].action, s.touched.len() as int).len() > 0,
    ensures
        gate_findings(defs, s, k).contains(
            gate_finding(
                defs,
                s.gates[g],
                missed(defs, s, s.gates[g].guard, s.gates[g].action, s.touched.len() as int),
            ),
        ),
    decreases k,
{
    let x = gate_finding(
        defs,
        s.gates[g],
        missed(defs, s, s.gates[g].guard, s.gates[g].action, s.touched.len() as int),
    );
    let all = gate_findings(defs, s, k);
    let before = gate_findings(defs, s, k - 1);
    if g == k - 1 {
        assert(all[all.len() - 1] == x);
    } else {
        lemma_gate_reported(defs, s, k - 1, g);
        let j = choose|j: int| 0 <= j < before.len() && before[j] == x;
        assert(all[j] == x);
    }
}

/// Neither the guard nor any method its calls lead to touches the field.
pub open spec fn blind_to(s: GuardView, guard: DefId, field: Symbol) -> bool {
    forall|m: DefId| led_to(s.calls, guard, m) ==> !#[trigger] s.touched.contains((m, field))
}

/// The method takes its receiver by `&mut`.
pub open spec fn takes_mut_self(defs: Definitions, m: DefId) -> bool {
    defs.sig(m) matches Some(sig) && sig.inputs@.len() > 0 && (sig.inputs@[0].ty matches Ty::Ref(
        _,
        writable,
    ) && writable)
}

/// A gated action that takes `&mut self` and touches a field that neither the
/// guard nor anything the guard's calls lead to touches is reported at the
/// call.
pub proof fn lemma_blind_guard_is_reported(
    defs: Definitions,
    s: GuardView,
    g: int,
    field: Symbol,
)
    requires
        0 <= g < s.gates.len(),
        takes_mut_self(defs, s.gates[g].action),
        s.touched.contains((s.gates[g].action, field)),
        blind_to(s, s.gates[g].guard, field),
    ensures
        exists|i: int|
            0 <= i < gate_findings(defs, s, s.gates.len() as int).len() && (
            #[trigger] gate_findings(defs, s, s.gates.len() as int)[i]).at == s.gates[g].span
                && gate_findings(defs, s, s.gates.len() as int)[i].lint == Lint::AsymmetricGuard,
{
    let gate = s.gates[g];
    let n = s.touched.len() as int;
    let k = choose|k: int| 0 <= k < n && s.touched[k] == (gate.action, field);
    assert(!covers(s, gate.guard, field)) by {
        if covers(s, gate.guard, field) {
            let i = choose|i: int|
                0 <= i < s.touched.len() && (#[trigger] s.touched[i]).1 == field && led_to(
                    s.calls,
                    gate.guard,
                    s.touched[i].0,
                );
            assert(s.touched.contains((s.touched[i].0, field)));
        }
    }
    lemma_missed_listed(defs, s, gate.guard, gate.action, n, k);
    lemma_gate_reported(defs, s, s.gates.len() as int, g);
    let x = gate_finding(defs, gate, missed(defs, s, gate.guard, gate.action, n));
    let all = gate_findings(defs, s, s.gates.len() as int);
    let i = choose|i: int| 0 <= i < all.len() && all[i] == x;
    assert(all[i].at == gate.span);
}

/// Nothing else is: an action that takes `&self`, or whose every field the
/// guard reads or leads to a method that does, is never reported.
pub proof fn lemma_reported_action_is_unguarded(
    defs: Definitions,
    s: GuardView,
    k: int,
    i: int,
)
    requires
        0 <= k <= s.gates.len(),
        0 <= i < gate_findings(defs, s, k).len(),
    ensures
        exists|g: int, t: int|
            0 <= g < k && gate_findings(defs, s, k)[i].at == (#[trigger] s.gates[g]).span
                && takes_mut_self(defs, s.gates[g].action) && 0 <= t < s.touched.len() && (
            #[trigger] s.touched[t]).0 == s.gates[g].action && blind_to(
                s,
                s.gates[g].guard,
                s.touched[t].1,
            ),
    decreases k,
{
    let before = gate_findings(defs, s, k - 1);
    if i < before.len() {
        lemma_reported_action_is_unguarded(defs, s, k - 1, i);
    } else {
        let gate = s.gates[k - 1];
        let n = s.touched.len() as int;
        lemma_missed_is_touched(defs, s, gate.guard, gate.action, n);
        let t = choose|t: int|
            0 <= t < n && (#[trigger] s.touched[t]).0 == gate.action && !covers(
                s,
                gate.guard,
                s.touched[t].1,
            );
        assert forall|m: DefId| led_to(s.calls, gate.guard, m) implies !#[trigger] s.touched.contains(
            (m, s.touched[t].1),
        ) by {
            if s.touched.contains((m, s.touched[t].1)) {
                let j = choose|j: int| 0 <= j < n && s.touched[j] == (m, s.touched[t].1);
                assert(s.touched[j].1 == s.touched[t].1 && led_to(
                    s.calls,
                    gate.guard,
                    s.touched[j].0,
                ));
            }
        }
        assert(s.gates[k - 1].span == gate_findings(defs, s, k)[i].at);
        assert(s.touched[t].0 == s.gates[k - 1].action);
    }
}

proof fn lemma_missed_is_touched(
    defs: Definitions,
    s: GuardView,
    guard: DefId,
    action: DefId,
    k: int,
)
    requires
        0 <= k <= s.touched.len(),
        missed(defs, s, guard, action, k).len() > 0,
    ensures
        exists|t: int|
            0 <= t < k && (#[trigger] s.touched[t]).0 == action && !covers(
                s,
                guard,
                s.touched[t].1,
            ),
    decreases k,
{
    if s.touched[k - 1].0 == action && !covers(s, guard, s.touched[k - 1].1) {
    } else {
        lemma_missed_is_touched(defs, s, guard, action, k - 1);
    }
}

/// A call on anything but `self`, of a trait's method, or of another crate's
/// type, is no call of a method of one's own.
pub proof fn lemma_other_calls_are_not_own(defs: Definitions, e: Expr, recv: Expr, m: DefId)
    requires
        e.kind matches ExprKind::MethodCall(_, r, _) && *r == recv,
        e.method == Some(m),
    ensures
        !names_self(defs, recv) ==> self_method(defs, e) is None,
        parent_of(defs, m) matches Some(imp) ==> (defs.kind(imp) != DefKind::Impl(false)
            ==> self_method(defs, e) is None),
        self_method(defs, e) matches Some(x) ==> x.0 == m && defs.local(x.1),
{
}

/// Every action a guard gates is a call of another method of the same type.
pub proof fn lemma_gated_actions_are_own_calls(
    defs: Definitions,
    guard: DefId,
    adt: DefId,
    es: Seq<Expr>,
    k: int,
    g: Gate,
)
    requires
        0 <= k <= es.len(),
        actions(defs, guard, adt, es, k).contains(g),
    ensures
        g.guard == guard,
        g.action != guard,
        exists|i: int|
            0 <= i < k && self_method(defs, #[trigger] es[i]) == Some((g.action, adt)) && g.span
                == es[i].span,
    decreases k,
{
    if k > 0 {
        let before = actions(defs, guard, adt, es, k - 1);
        match self_method(defs, es[k - 1]) {
            Some((m, a)) => {
                if a == adt && m != guard {
                    let x = Gate { guard, action: m, span: es[k - 1].span };
                    crate::table::lemma_pushed(before, x, g);
                }
            },
            None => {},
        }
        if before.contains(g) {
            lemma_gated_actions_are_own_calls(defs, guard, adt, es, k - 1, g);
        }
    }
}

} // verus!
