//! A struct field that is read only where a sibling field is known to hold
//! one particular value, while a construction that gives the sibling any
//! other value fills the field with a placeholder: the payload of one case of
//! the sibling, stored flat.
//!
//! It takes proof. One read that no test of the sibling dominates keeps the
//! lint quiet, as does a construction that gives the field a real value
//! beside another value of the sibling, and so does a sibling that nothing
//! ever gives the tested value.

use crate::adt_facts::{
    fixes_layout, has_fixed_repr, has_positional_fields, positional, private_local_struct,
    private_struct_behind, struct_field, struct_field_at,
};
use crate::defs::{Definitions, Known};
use crate::enum_facts::{arm_variant, ctor_literal_variant, head_variant, literal_variant};
use crate::enum_facts::{parent_def, parent_of};
use crate::hir::{
    parent_id, Arm, BinOp, Block, Expr, ExprKind, FieldInit, FieldPat, LitKind, Parent, Pat,
    PatKind, Stmt, StmtKind, StructTail, UnOp,
};
use crate::hir_shapes::{def_of_res, eq_value, res_def, same_value, strip_ref, under_refs};
use crate::ids::{DefId, HirId, Symbol};
use crate::report::{
    by_position, emit, finding, sort_by_position, views, Finding, FindingView, Lint,
};
use crate::table::{add_new, find_key, is_in, value_at, with_added, Same};
use crate::text::{decimal, number};
use crate::ty::Ty;
use vstd::prelude::*;
use vstd::string::*;

verus! {

/// A value a field can be tested against and built with, compared exactly.
#[derive(Clone, Copy, Debug, PartialEq, Eq, Structural)]
pub enum Value {
    Variant(DefId),
    Bool(bool),
    Int(u128),
}

/// `sibling == value`, known to hold where a read happens.
#[derive(Clone, Copy, Debug, PartialEq, Eq, Structural)]
pub struct Test {
    pub sibling: Symbol,
    pub value: Value,
}

impl Same for Test {
    fn same(&self, other: &Self) -> (r: bool) {
        *self == *other
    }
}

/// What one construction site wrote into one field.
#[derive(Clone, Copy, Debug)]
pub struct Init {
    pub value: Option<Value>,
    pub placeholder: bool,
}

/// A read of a field and the sibling tests that dominate it.
#[derive(Debug)]
pub struct Read {
    pub adt: DefId,
    pub field: Symbol,
    pub tests: Vec<Test>,
}

pub struct ReadView {
    pub adt: DefId,
    pub field: Symbol,
    pub tests: Seq<Test>,
}

impl View for Read {
    type V = ReadView;

    open spec fn view(&self) -> ReadView {
        ReadView { adt: self.adt, field: self.field, tests: self.tests@ }
    }
}

/// A literal construction of a struct and what each named field got.
#[derive(Debug)]
pub struct Site {
    pub adt: DefId,
    pub inits: Vec<(Symbol, Init)>,
}

pub struct SiteView {
    pub adt: DefId,
    pub inits: Seq<(Symbol, Init)>,
}

impl View for Site {
    type V = SiteView;

    open spec fn view(&self) -> SiteView {
        SiteView { adt: self.adt, inits: self.inits@ }
    }
}

/// What the crate was seen to do with its structs' fields.
#[derive(Debug)]
pub struct DependentField {
    pub reads: Vec<Read>,
    pub sites: Vec<Site>,
    /// Fields assigned after construction, whose values the sites do not
    /// bound.
    pub assigned: Vec<(DefId, Symbol)>,
}

#[verifier::ext_equal]
pub struct DependentView {
    pub reads: Seq<ReadView>,
    pub sites: Seq<SiteView>,
    pub assigned: Seq<(DefId, Symbol)>,
}

impl View for DependentField {
    type V = DependentView;

    open spec fn view(&self) -> DependentView {
        DependentView {
            reads: self.reads@.map_values(|r: Read| r@),
            sites: self.sites@.map_values(|s: Site| s@),
            assigned: self.assigned@,
        }
    }
}

// ---------------------------------------------------------------- values

/// The one other value the field can hold, when there is exactly one.
pub open spec fn complement(v: Value) -> Option<Value> {
    match v {
        Value::Bool(b) => Some(Value::Bool(!b)),
        _ => None,
    }
}

pub open spec fn lit_value(k: LitKind) -> Option<Value> {
    match k {
        LitKind::Bool(b) => Some(Value::Bool(b)),
        LitKind::Int(n) => Some(Value::Int(n)),
        LitKind::Other => None,
    }
}

fn value_of_lit(k: LitKind) -> (r: Option<Value>)
    ensures
        r == lit_value(k),
{
    match k {
        LitKind::Bool(b) => Some(Value::Bool(b)),
        LitKind::Int(n) => Some(Value::Int(n)),
        LitKind::Other => None,
    }
}

/// The value an expression spells out: a variant literal, a bool or an
/// unsigned integer literal. A named constant is not one: two names can be
/// one value.
pub open spec fn spelled_value(defs: Definitions, e: Expr) -> Option<Value> {
    match literal_variant(defs, under_refs(e)) {
        Some(v) => Some(Value::Variant(v)),
        None => match under_refs(e).kind {
            ExprKind::Lit(l) => lit_value(l.kind),
            _ => None,
        },
    }
}

pub fn expr_value(defs: &Definitions, e: &Expr) -> (r: Option<Value>)
    ensures
        r == spelled_value(*defs, *e),
{
    let inner = strip_ref(e);
    match ctor_literal_variant(defs, inner) {
        Some(v) => Some(Value::Variant(v)),
        None => match &inner.kind {
            ExprKind::Lit(l) => value_of_lit(l.kind),
            _ => None,
        },
    }
}

/// The one value a pattern admits at its head.
pub open spec fn admitted(defs: Definitions, pat: Pat) -> Option<Value>
    decreases pat,
{
    match pat.kind {
        PatKind::Binding(_, _, Some(sub)) => admitted(defs, *sub),
        PatKind::Ref(sub) => admitted(defs, *sub),
        PatKind::Deref(sub) => admitted(defs, *sub),
        PatKind::BoxOf(sub) => admitted(defs, *sub),
        PatKind::Lit(l, false) => lit_value(l.kind),
        _ => match head_variant(defs, pat) {
            Some(v) => Some(Value::Variant(v)),
            None => None,
        },
    }
}

pub fn pat_value(defs: &Definitions, pat: &Pat) -> (r: Option<Value>)
    ensures
        r == admitted(*defs, *pat),
    decreases pat,
{
    match &pat.kind {
        PatKind::Binding(_, _, Some(sub)) => pat_value(defs, sub),
        PatKind::Ref(sub) => pat_value(defs, sub),
        PatKind::Deref(sub) => pat_value(defs, sub),
        PatKind::BoxOf(sub) => pat_value(defs, sub),
        PatKind::Lit(l, false) => value_of_lit(l.kind),
        _ => match arm_variant(defs, pat) {
            Some(v) => Some(Value::Variant(v)),
            None => None,
        },
    }
}

/// A don't-care initialiser: whatever `Default` would give, or a null
/// pointer.
pub open spec fn placeholder(defs: Definitions, e: Expr) -> bool {
    e.default_equivalent || match e.kind {
        ExprKind::Call(f, args) => args@.len() == 0 && match f.kind {
            ExprKind::Path(p) => res_def(p.res) matches Some(d) && (defs.known(d) == Known::PtrNull
                || defs.known(d) == Known::PtrNullMut),
            _ => false,
        },
        _ => false,
    }
}

pub fn is_placeholder(defs: &Definitions, e: &Expr) -> (r: bool)
    ensures
        r == placeholder(*defs, *e),
{
    e.default_equivalent || match &e.kind {
        ExprKind::Call(f, args) => args.len() == 0 && match &f.kind {
            ExprKind::Path(p) => match def_of_res(p.res) {
                Some(d) => match defs.known_as(d) {
                    Known::PtrNull | Known::PtrNullMut => true,
                    _ => false,
                },
                None => false,
            },
            _ => false,
        },
        _ => false,
    }
}

// ---------------------------------------------------------------- tests

/// Which sibling of a field read off `base` an expression names.
pub open spec fn sibling(base: Expr, e: Expr) -> Option<Symbol> {
    match under_refs(e).kind {
        ExprKind::Field(other, name) => if same_value(base, *other) {
            Some(name)
        } else {
            None
        },
        _ => None,
    }
}

pub fn sibling_of(base: &Expr, e: &Expr) -> (r: Option<Symbol>)
    ensures
        r == sibling(*base, *e),
{
    match &strip_ref(e).kind {
        ExprKind::Field(other, name) => if eq_value(base, other) {
            Some(*name)
        } else {
            None
        },
        _ => None,
    }
}

/// The tests, and what `sibling == value` (or `!=`) adds to them.
pub open spec fn learned(out: Seq<Test>, s: Symbol, value: Value, equal: bool) -> Seq<Test> {
    if equal {
        with_added(out, Test { sibling: s, value })
    } else {
        match complement(value) {
            Some(v) => with_added(out, Test { sibling: s, value: v }),
            None => out,
        }
    }
}

fn learn(out: &mut Vec<Test>, s: Symbol, value: Value, equal: bool)
    ensures
        final(out)@ == learned(old(out)@, s, value, equal),
{
    if equal {
        add_new(out, Test { sibling: s, value });
    } else {
        match value {
            Value::Bool(b) => add_new(out, Test { sibling: s, value: Value::Bool(!b) }),
            _ => {},
        }
    }
}

/// The tests, and what is learnt of the sibling an expression names.
pub open spec fn learned_of(
    out: Seq<Test>,
    s: Option<Symbol>,
    value: Option<Value>,
    equal: bool,
) -> Seq<Test> {
    match (s, value) {
        (Some(s), Some(v)) => learned(out, s, v, equal),
        _ => out,
    }
}

fn learn_of(out: &mut Vec<Test>, s: Option<Symbol>, value: Option<Value>, equal: bool)
    ensures
        final(out)@ == learned_of(old(out)@, s, value, equal),
{
    match (s, value) {
        (Some(s), Some(v)) => learn(out, s, v, equal),
        _ => {},
    }
}

pub open spec fn bool_lit(e: Expr, b: bool) -> bool {
    under_refs(e).kind matches ExprKind::Lit(l) && l.kind == LitKind::Bool(b)
}

fn is_bool_lit(e: &Expr, b: bool) -> (r: bool)
    ensures
        r == bool_lit(*e, b),
{
    match &strip_ref(e).kind {
        ExprKind::Lit(l) => match l.kind {
            LitKind::Bool(x) => x == b,
            _ => false,
        },
        _ => false,
    }
}

/// `matches!(.., P)`: the arms of such a match.
pub open spec fn is_matches(arms: Seq<Arm>) -> bool {
    arms.len() == 2 && bool_lit(arms[0].body, true) && bool_lit(arms[1].body, false)
        && arms[1].pat.kind is Wild
}

/// The tests, and every `sibling == value` that follows from `cond`
/// evaluating to `holds`, for siblings read off `base`.
pub open spec fn cond_facts(
    defs: Definitions,
    base: Expr,
    cond: Expr,
    holds: bool,
    out: Seq<Test>,
) -> Seq<Test>
    decreases cond,
{
    match cond.kind {
        ExprKind::Unary(UnOp::Not, inner) => cond_facts(defs, base, *inner, !holds, out),
        ExprKind::DropTemps(inner) => cond_facts(defs, base, *inner, holds, out),
        ExprKind::Binary(op, l, r) => if (op == BinOp::And && holds) || (op == BinOp::Or
            && !holds) {
            cond_facts(defs, base, *r, holds, cond_facts(defs, base, *l, holds, out))
        } else if op == BinOp::EqualTo || op == BinOp::NotEqual {
            let equal = (op == BinOp::EqualTo) == holds;
            if sibling(base, *l) is Some {
                learned_of(out, sibling(base, *l), spelled_value(defs, *r), equal)
            } else {
                learned_of(out, sibling(base, *r), spelled_value(defs, *l), equal)
            }
        } else {
            out
        },
        ExprKind::Let(pat, init) => if holds {
            learned_of(out, sibling(base, *init), admitted(defs, pat), true)
        } else {
            out
        },
        ExprKind::Match(scrutinee, arms, _) => if is_matches(arms@) && (holds || arms@[0].guard
            is None) {
            learned_of(out, sibling(base, *scrutinee), admitted(defs, arms@[0].pat), holds)
        } else {
            out
        },
        _ => if cond.ty is Bool {
            learned_of(out, sibling(base, cond), Some(Value::Bool(holds)), true)
        } else {
            out
        },
    }
}

pub fn cond_tests(defs: &Definitions, base: &Expr, cond: &Expr, holds: bool, out: &mut Vec<Test>)
    ensures
        final(out)@ == cond_facts(*defs, *base, *cond, holds, old(out)@),
    decreases cond,
{
    match &cond.kind {
        ExprKind::Unary(UnOp::Not, inner) => cond_tests(defs, base, inner, !holds, out),
        ExprKind::DropTemps(inner) => cond_tests(defs, base, inner, holds, out),
        ExprKind::Binary(op, l, r) => {
            if (*op == BinOp::And && holds) || (*op == BinOp::Or && !holds) {
                cond_tests(defs, base, l, holds, out);
                cond_tests(defs, base, r, holds, out);
            } else if *op == BinOp::EqualTo || *op == BinOp::NotEqual {
                let equal = (*op == BinOp::EqualTo) == holds;
                let left = sibling_of(base, l);
                if left.is_some() {
                    learn_of(out, left, expr_value(defs, r), equal);
                } else {
                    learn_of(out, sibling_of(base, r), expr_value(defs, l), equal);
                }
            }
        },
        ExprKind::Let(pat, init) => {
            if holds {
                learn_of(out, sibling_of(base, init), pat_value(defs, pat), true);
            }
        },
        ExprKind::Match(scrutinee, arms, _) => {
            if arms.len() == 2 && is_bool_lit(&arms[0].body, true) && is_bool_lit(
                &arms[1].body,
                false,
            ) && matches!(arms[1].pat.kind, PatKind::Wild) && (holds || arms[0].guard.is_none()) {
                learn_of(
                    out,
                    sibling_of(base, scrutinee),
                    pat_value(defs, &arms[0].pat),
                    holds,
                );
            }
        },
        _ => {
            if cond.ty.is_bool() {
                learn_of(out, sibling_of(base, cond), Some(Value::Bool(holds)), true);
            }
        },
    }
}

/// The arms whose bodies do not diverge.
pub open spec fn live_arms(arms: Seq<Arm>) -> Seq<Arm>
    decreases arms.len(),
{
    if arms.len() == 0 {
        Seq::empty()
    } else {
        let before = live_arms(arms.drop_last());
        if arms.last().body.ty is Never {
            before
        } else {
            before.push(arms.last())
        }
    }
}

/// The tests, and what holds once a statement has run: a guard whose failing
/// branch diverges, a `let .. else`, a `match` whose every other arm
/// diverges.
pub open spec fn stmt_facts(
    defs: Definitions,
    base: Expr,
    stmt: Stmt,
    out: Seq<Test>,
) -> Seq<Test> {
    match stmt.kind {
        StmtKind::Let(l) => match l.init {
            Some(init) => if l.els is Some {
                learned_of(out, sibling(base, *init), admitted(defs, l.pat), true)
            } else {
                out
            },
            None => out,
        },
        StmtKind::Item => out,
        StmtKind::Expr(e) => ran_facts(defs, base, e, out),
        StmtKind::Semi(e) => ran_facts(defs, base, e, out),
    }
}

pub open spec fn ran_facts(defs: Definitions, base: Expr, e: Expr, out: Seq<Test>) -> Seq<Test> {
    match e.kind {
        ExprKind::If(cond, yes, no) => {
            let yes_diverges = yes.ty is Never;
            let no_diverges = no matches Some(x) && x.ty is Never;
            if yes_diverges && !no_diverges {
                cond_facts(defs, base, *cond, false, out)
            } else if no_diverges && !yes_diverges {
                cond_facts(defs, base, *cond, true, out)
            } else {
                out
            }
        },
        ExprKind::Match(scrutinee, arms, _) => {
            let live = live_arms(arms@);
            if live.len() == 1 && live[0].guard is None {
                learned_of(out, sibling(base, *scrutinee), admitted(defs, live[0].pat), true)
            } else {
                out
            }
        },
        _ => out,
    }
}

fn ran_tests(defs: &Definitions, base: &Expr, e: &Expr, out: &mut Vec<Test>)
    ensures
        final(out)@ == ran_facts(*defs, *base, *e, old(out)@),
{
    match &e.kind {
        ExprKind::If(cond, yes, no) => {
            let yes_diverges = yes.ty.is_never();
            let no_diverges = match no {
                Some(x) => x.ty.is_never(),
                None => false,
            };
            if yes_diverges && !no_diverges {
                cond_tests(defs, base, cond, false, out);
            } else if no_diverges && !yes_diverges {
                cond_tests(defs, base, cond, true, out);
            }
        },
        ExprKind::Match(scrutinee, arms, _) => {
            let mut count: usize = 0;
            let mut last: usize = 0;
            let mut i: usize = 0;
            while i < arms.len()
                invariant
                    i <= arms@.len(),
                    count <= i,
                    count == live_arms(arms@.take(i as int)).len(),
                    count > 0 ==> last < i && live_arms(arms@.take(i as int)).last()
                        == arms@[last as int],
                decreases arms.len() - i,
            {
                assert(arms@.take(i + 1).drop_last() =~= arms@.take(i as int));
                if !arms[i].body.ty.is_never() {
                    count = count + 1;
                    last = i;
                }
                i = i + 1;
            }
            assert(arms@.take(i as int) =~= arms@);
            if count == 1 && arms[last].guard.is_none() {
                learn_of(
                    out,
                    sibling_of(base, scrutinee),
                    pat_value(defs, &arms[last].pat),
                    true,
                );
            }
        },
        _ => {},
    }
}

fn stmt_tests(defs: &Definitions, base: &Expr, stmt: &Stmt, out: &mut Vec<Test>)
    ensures
        final(out)@ == stmt_facts(*defs, *base, *stmt, old(out)@),
{
    match &stmt.kind {
        StmtKind::Let(l) => {
            match &l.init {
                Some(init) => {
                    if l.els.is_some() {
                        learn_of(out, sibling_of(base, init), pat_value(defs, &l.pat), true);
                    }
                },
                None => {},
            }
        },
        StmtKind::Item => {},
        StmtKind::Expr(e) => ran_tests(defs, base, e, out),
        StmtKind::Semi(e) => ran_tests(defs, base, e, out),
    }
}

/// The statement is the node, or holds it as its `let`.
pub open spec fn is_stmt(s: Stmt, child: HirId) -> bool {
    s.id == child || (s.kind matches StmtKind::Let(l) && l.id == child)
}

/// The first statement from `k` on that is the node.
pub open spec fn stmt_at(stmts: Seq<Stmt>, child: HirId, k: int) -> Option<int>
    decreases stmts.len() - k,
{
    if k >= stmts.len() {
        None
    } else if is_stmt(stmts[k], child) {
        Some(k)
    } else {
        stmt_at(stmts, child, k + 1)
    }
}

/// How many statements of the block run before the node.
pub open spec fn ran_before(b: Block, child: HirId) -> int {
    match stmt_at(b.stmts@, child, 0) {
        Some(k) => k,
        None => if b.expr matches Some(e) && e.id == child {
            b.stmts@.len() as int
        } else {
            0
        },
    }
}

/// The tests, and what the first `k` statements establish.
pub open spec fn guard_facts(
    defs: Definitions,
    base: Expr,
    stmts: Seq<Stmt>,
    k: int,
    out: Seq<Test>,
) -> Seq<Test>
    decreases k,
{
    if k <= 0 {
        out
    } else {
        stmt_facts(defs, base, stmts[k - 1], guard_facts(defs, base, stmts, k - 1, out))
    }
}

fn find_stmt(stmts: &Vec<Stmt>, child: HirId) -> (r: Option<usize>)
    ensures
        match r {
            Some(k) => k < stmts@.len() && stmt_at(stmts@, child, 0) == Some(k as int),
            None => stmt_at(stmts@, child, 0) is None,
        },
{
    let mut k: usize = 0;
    while k < stmts.len()
        invariant
            k <= stmts@.len(),
            stmt_at(stmts@, child, 0) == stmt_at(stmts@, child, k as int),
        decreases stmts.len() - k,
    {
        let here = stmts[k].id == child || match &stmts[k].kind {
            StmtKind::Let(l) => l.id == child,
            _ => false,
        };
        if here {
            return Some(k);
        }
        k = k + 1;
    }
    None
}

fn preceding_guards(
    defs: &Definitions,
    base: &Expr,
    block: &Block,
    child: HirId,
    out: &mut Vec<Test>,
)
    ensures
        final(out)@ == guard_facts(
            *defs,
            *base,
            block.stmts@,
            ran_before(*block, child),
            old(out)@,
        ),
{
    let stmts = &block.stmts;
    let at_end = match &block.expr {
        Some(e) => e.id == child,
        None => false,
    };
    let pos: usize = match find_stmt(stmts, child) {
        Some(k) => k,
        None => if at_end {
            stmts.len()
        } else {
            0
        },
    };
    let ghost start = out@;
    let mut k: usize = 0;
    while k < pos
        invariant
            k <= pos <= stmts@.len(),
            stmts@ == block.stmts@,
            out@ == guard_facts(*defs, *base, stmts@, k as int, start),
        decreases pos - k,
    {
        stmt_tests(defs, base, &stmts[k], out);
        k = k + 1;
    }
}

/// The tests, and what the nodes from the `k`th on establish around a read
/// off `base`. `child` is the node just inside, `via` the match arm just
/// passed.
pub open spec fn dominating(
    defs: Definitions,
    base: Expr,
    parents: Seq<Parent>,
    k: int,
    child: HirId,
    via: Option<Arm>,
    out: Seq<Test>,
) -> Seq<Test>
    decreases parents.len() - k,
{
    if k >= parents.len() {
        out
    } else {
        let id = parent_id(parents[k]);
        match parents[k] {
            Parent::Expr(e) => match e.kind {
                ExprKind::If(cond, yes, no) => {
                    let next = if yes.id == child {
                        cond_facts(defs, base, *cond, true, out)
                    } else if no matches Some(x) && x.id == child {
                        cond_facts(defs, base, *cond, false, out)
                    } else {
                        out
                    };
                    dominating(defs, base, parents, k + 1, id, via, next)
                },
                ExprKind::Match(scrutinee, _, _) => {
                    let next = match via {
                        Some(arm) => learned_of(
                            out,
                            sibling(base, *scrutinee),
                            admitted(defs, arm.pat),
                            true,
                        ),
                        None => out,
                    };
                    dominating(defs, base, parents, k + 1, id, None, next)
                },
                _ => dominating(defs, base, parents, k + 1, id, via, out),
            },
            Parent::Arm(arm) => dominating(defs, base, parents, k + 1, id, Some(*arm), out),
            Parent::Block(b) => dominating(
                defs,
                base,
                parents,
                k + 1,
                id,
                via,
                guard_facts(defs, base, b.stmts@, ran_before(*b, child), out),
            ),
            Parent::Item(_) => out,
            Parent::Other(_) => dominating(defs, base, parents, k + 1, id, via, out),
        }
    }
}

/// Every sibling test that dominates a read of a field off `base`.
pub fn dominating_tests(
    defs: &Definitions,
    read: &Expr,
    base: &Expr,
    parents: &Vec<Parent>,
) -> (r: Vec<Test>)
    ensures
        r@ == dominating(*defs, *base, parents@, 0, read.id, None, Seq::empty()),
{
    let mut out: Vec<Test> = Vec::new();
    let mut child: HirId = read.id;
    let mut via: Option<&Arm> = None;
    let mut k: usize = 0;
    let ghost want = dominating(*defs, *base, parents@, 0, read.id, None, Seq::empty());
    assert(out@ =~= Seq::<Test>::empty());
    while k < parents.len()
        invariant
            k <= parents@.len(),
            want == dominating(*defs, *base, parents@, 0, read.id, None, Seq::empty()),
            dominating(
                *defs,
                *base,
                parents@,
                k as int,
                child,
                match via {
                    Some(a) => Some(*a),
                    None => None,
                },
                out@,
            ) == want,
        decreases parents.len() - k,
    {
        match &parents[k] {
            Parent::Expr(e) => {
                match &e.kind {
                    ExprKind::If(cond, yes, no) => {
                        let in_else = match no {
                            Some(x) => x.id == child,
                            None => false,
                        };
                        if yes.id == child {
                            cond_tests(defs, base, cond, true, &mut out);
                        } else if in_else {
                            cond_tests(defs, base, cond, false, &mut out);
                        }
                    },
                    ExprKind::Match(scrutinee, _, _) => {
                        match via {
                            Some(arm) => {
                                learn_of(
                                    &mut out,
                                    sibling_of(base, scrutinee),
                                    pat_value(defs, &arm.pat),
                                    true,
                                );
                            },
                            None => {},
                        }
                        via = None;
                    },
                    _ => {},
                }
            },
            Parent::Arm(arm) => {
                via = Some(*arm);
            },
            Parent::Block(b) => preceding_guards(defs, base, b, child, &mut out),
            Parent::Item(_) => {
                return out;
            },
            Parent::Other(_) => {},
        }
        child = parents[k].id();
        k = k + 1;
    }
    out
}

// ---------------------------------------------------------------- collecting

/// The struct behind the type when every read and construction of it is the
/// crate's to see and its fields have names a message can use.
pub open spec fn relevant(defs: Definitions, ty: Ty) -> Option<DefId> {
    match private_struct_behind(defs, ty) {
        Some(did) => if !fixes_layout(defs.adt(did)->Some_0.repr) && !positional(
            defs,
            defs.fields(did),
        ) && defs.fields(did).len() >= 2 {
            Some(did)
        } else {
            None
        },
        None => None,
    }
}

pub fn relevant_struct(defs: &Definitions, ty: &Ty) -> (r: Option<DefId>)
    ensures
        r == relevant(*defs, *ty),
{
    match private_local_struct(defs, ty) {
        Some(did) => match defs.adt_of(did) {
            Some(adt) => {
                if adt.variants.len() > 0 && !has_fixed_repr(adt) && !has_positional_fields(
                    defs,
                    &adt.variants[0],
                ) && adt.variants[0].fields.len() >= 2 {
                    Some(did)
                } else {
                    None
                }
            },
            None => None,
        },
        None => None,
    }
}

/// What a literal gives each field it names.
pub open spec fn inits_of(defs: Definitions, fields: Seq<FieldInit>) -> Seq<(Symbol, Init)> {
    fields.map_values(
        |f: FieldInit|
            (
                f.name,
                Init {
                    value: spelled_value(defs, f.value),
                    placeholder: placeholder(defs, f.value),
                },
            ),
    )
}

/// The node just around an expression assigns to it.
pub open spec fn is_assigned(e: Expr, parents: Seq<Parent>) -> bool {
    parents.len() > 0 && match parents[0] {
        Parent::Expr(p) => p.kind matches ExprKind::Assign(lhs, _) && lhs.id == e.id,
        _ => false,
    }
}

/// What has been seen once an expression has been visited.
pub open spec fn after_expr(
    defs: Definitions,
    s: DependentView,
    e: Expr,
    parents: Seq<Parent>,
) -> DependentView {
    match e.kind {
        ExprKind::Struct(_, fields, tail) => match relevant(defs, e.ty) {
            Some(did) => if tail is Nothing {
                DependentView {
                    sites: s.sites.push(SiteView { adt: did, inits: inits_of(defs, fields@) }),
                    ..s
                }
            } else {
                s
            },
            None => s,
        },
        ExprKind::Field(base, name) => match relevant(defs, base.adjusted) {
            Some(did) => if struct_field_at(defs, did, name) is None || e.origin.in_derive {
                s
            } else if is_assigned(e, parents) {
                DependentView { assigned: with_added(s.assigned, (did, name)), ..s }
            } else {
                DependentView {
                    reads: s.reads.push(
                        ReadView {
                            adt: did,
                            field: name,
                            tests: dominating(defs, *base, parents, 0, e.id, None, Seq::empty()),
                        },
                    ),
                    ..s
                }
            },
            None => s,
        },
        _ => s,
    }
}

/// A destructuring reads each field it names, with nothing known.
pub open spec fn bare_reads(did: DefId, fields: Seq<FieldPat>) -> Seq<ReadView> {
    fields.map_values(
        |f: FieldPat| ReadView { adt: did, field: f.name, tests: Seq::empty() },
    )
}

/// What has been seen once a pattern has been visited.
pub open spec fn after_pat(defs: Definitions, s: DependentView, p: Pat) -> DependentView {
    match p.kind {
        PatKind::Struct(_, fields) => match relevant(defs, p.ty) {
            Some(did) => if p.in_derive {
                s
            } else {
                DependentView { reads: s.reads + bare_reads(did, fields@), ..s }
            },
            None => s,
        },
        _ => s,
    }
}

// ---------------------------------------------------------------- concluding

/// The tests of every read of the field, read by read.
pub open spec fn reads_of(reads: Seq<ReadView>, did: DefId, field: Symbol) -> Seq<Seq<Test>>
    decreases reads.len(),
{
    if reads.len() == 0 {
        Seq::empty()
    } else {
        let before = reads_of(reads.drop_last(), did, field);
        let r = reads.last();
        if r.adt == did && r.field == field {
            before.push(r.tests)
        } else {
            before
        }
    }
}

/// The tests of `a` that are also in `b`.
pub open spec fn in_both(a: Seq<Test>, b: Seq<Test>) -> Seq<Test>
    decreases a.len(),
{
    if a.len() == 0 {
        Seq::empty()
    } else {
        let before = in_both(a.drop_last(), b);
        if b.contains(a.last()) {
            before.push(a.last())
        } else {
            before
        }
    }
}

/// The tests every read agrees on; one bare read empties it.
pub open spec fn agreed(rs: Seq<Seq<Test>>) -> Seq<Test>
    decreases rs.len(),
{
    if rs.len() == 0 {
        Seq::empty()
    } else if rs.len() == 1 {
        rs[0]
    } else {
        in_both(agreed(rs.drop_last()), rs.last())
    }
}

/// What a site gives the field.
pub open spec fn given(site: SiteView, field: Symbol) -> Option<Init> {
    value_at(site.inits, field)
}

/// The site makes the tested case, or may.
pub open spec fn site_reaches(site: SiteView, did: DefId, test: Test) -> bool {
    site.adt == did && (given(site, test.sibling) matches Some(i) && (i.value is None || i.value
        == Some(test.value)))
}

/// The tested case is one the crate makes.
pub open spec fn reached(s: DependentView, did: DefId, test: Test) -> bool {
    s.assigned.contains((did, test.sibling)) || exists|k: int|
        0 <= k < s.sites.len() && site_reaches(#[trigger] s.sites[k], did, test)
}

/// The site gives the sibling some other spelled-out value.
pub open spec fn site_elsewhere(site: SiteView, did: DefId, test: Test) -> bool {
    site.adt == did && (given(site, test.sibling) matches Some(i) && i.value is Some && i.value
        != Some(test.value))
}

/// A site elsewhere fills the field with a placeholder.
pub open spec fn fills_placeholder(site: SiteView, did: DefId, field: Symbol, test: Test) -> bool {
    site_elsewhere(site, did, test) && (given(site, field) matches Some(i) && i.placeholder)
}

/// A site elsewhere gives the field a real value.
pub open spec fn fills_real(site: SiteView, did: DefId, field: Symbol, test: Test) -> bool {
    site_elsewhere(site, did, test) && (given(site, field) matches Some(i) && !i.placeholder)
}

pub open spec fn placeholder_count(
    sites: Seq<SiteView>,
    did: DefId,
    field: Symbol,
    test: Test,
) -> nat
    decreases sites.len(),
{
    if sites.len() == 0 {
        0
    } else {
        placeholder_count(sites.drop_last(), did, field, test) + if fills_placeholder(
            sites.last(),
            did,
            field,
            test,
        ) {
            1nat
        } else {
            0nat
        }
    }
}

pub open spec fn some_real(sites: Seq<SiteView>, did: DefId, field: Symbol, test: Test) -> bool {
    exists|k: int| 0 <= k < sites.len() && fills_real(#[trigger] sites[k], did, field, test)
}

/// The field depends on the test: the tested case is made, and every
/// construction of another case that says what it gives the field gives it a
/// placeholder, at least one doing so.
pub open spec fn depends(s: DependentView, did: DefId, field: Symbol, test: Test) -> bool {
    test.sibling != field && reached(s, did, test) && placeholder_count(s.sites, did, field, test)
        > 0 && !some_real(s.sites, did, field, test)
}

/// Where the sibling stands among the struct's fields; a sibling that is none
/// comes first.
pub open spec fn rank(names: Seq<Symbol>, name: Symbol, k: int) -> int
    decreases names.len() - k,
{
    if k >= names.len() {
        -1
    } else if names[k] == name {
        k
    } else {
        rank(names, name, k + 1)
    }
}

pub open spec fn field_names(defs: Definitions, did: DefId) -> Seq<Symbol> {
    Seq::new(defs.fields(did).len(), |i: int| defs.fields(did)[i].name)
}

/// The test of the first `k` the field depends on whose sibling stands first.
pub open spec fn chosen(
    names: Seq<Symbol>,
    s: DependentView,
    did: DefId,
    field: Symbol,
    tests: Seq<Test>,
    k: int,
) -> Option<Test>
    decreases k,
{
    if k <= 0 {
        None
    } else {
        let t = tests[k - 1];
        match chosen(names, s, did, field, tests, k - 1) {
            None => if depends(s, did, field, t) {
                Some(t)
            } else {
                None
            },
            Some(b) => if depends(s, did, field, t) && rank(names, t.sibling, 0) < rank(
                names,
                b.sibling,
                0,
            ) {
                Some(t)
            } else {
                Some(b)
            },
        }
    }
}

/// The test as the message spells it.
pub open spec fn test_text(defs: Definitions, t: Test) -> Seq<char> {
    match t.value {
        Value::Variant(v) => defs.text(t.sibling) + " == "@ + (match parent_of(defs, v) {
            Some(p) => defs.name_text(p),
            None => ""@,
        }) + "::"@ + defs.name_text(v),
        Value::Bool(true) => defs.text(t.sibling),
        Value::Bool(false) => "!"@ + defs.text(t.sibling),
        Value::Int(n) => defs.text(t.sibling) + " == "@ + decimal(n as nat),
    }
}

pub open spec fn plural(n: nat) -> Seq<char> {
    if n == 1 {
        ""@
    } else {
        "s"@
    }
}

pub open spec fn dependent_message(
    defs: Definitions,
    did: DefId,
    field: Symbol,
    t: Test,
    reads: nat,
    placeholders: nat,
) -> Seq<char> {
    "`"@ + defs.text(field) + "` is only read where `"@ + test_text(defs, t)
        + "` has been tested ("@ + decimal(reads) + " read"@ + plural(reads) + "), and every `"@
        + defs.name_text(did) + "` made with another `"@ + defs.text(t.sibling)
        + "` fills it with a placeholder ("@ + decimal(placeholders) + " site"@ + plural(
        placeholders,
    ) + ")"@
}

/// What the lint says of a field.
pub open spec fn field_finding(
    defs: Definitions,
    s: DependentView,
    did: DefId,
    field: Symbol,
) -> Option<FindingView> {
    let rs = reads_of(s.reads, did, field);
    let tests = agreed(rs);
    match (
        chosen(field_names(defs, did), s, did, field, tests, tests.len() as int),
        struct_field_at(defs, did, field),
    ) {
        (Some(t), Some(f)) => Some(
            finding(
                Lint::DependentField,
                f.span,
                dependent_message(
                    defs,
                    did,
                    field,
                    t,
                    rs.len(),
                    placeholder_count(s.sites, did, field, t),
                ),
                "the field is the payload of that one case, stored flat; an enum variant carrying it leaves the other cases nothing to fill in or misread"@,
            ),
        ),
        _ => None,
    }
}

/// The fields read by the first `k` reads, each once.
pub open spec fn fields_read(reads: Seq<ReadView>, k: int) -> Seq<(DefId, Symbol)>
    decreases k,
{
    if k <= 0 {
        Seq::empty()
    } else {
        with_added(fields_read(reads, k - 1), (reads[k - 1].adt, reads[k - 1].field))
    }
}

/// What the lint says of the first `k` fields.
pub open spec fn field_findings(
    defs: Definitions,
    s: DependentView,
    fields: Seq<(DefId, Symbol)>,
    k: int,
) -> Seq<FindingView>
    decreases k,
{
    if k <= 0 {
        Seq::empty()
    } else {
        let before = field_findings(defs, s, fields, k - 1);
        match field_finding(defs, s, fields[k - 1].0, fields[k - 1].1) {
            Some(f) => before.push(f),
            None => before,
        }
    }
}

/// What the lint says of the crate, in source order.
pub open spec fn dependent_findings(defs: Definitions, s: DependentView) -> Seq<FindingView> {
    let fields = fields_read(s.reads, s.reads.len() as int);
    by_position(field_findings(defs, s, fields, fields.len() as int))
}

fn write_test(defs: &Definitions, t: Test) -> (r: String)
    ensures
        r@ == test_text(*defs, t),
{
    match t.value {
        Value::Variant(v) => {
            let mut s = String::from_str(defs.text_of(t.sibling));
            s.append(" == ");
            match parent_def(defs, v) {
                Some(p) => s.append(defs.name_of(p)),
                None => s.append(""),
            }
            s.append("::");
            s.append(defs.name_of(v));
            s
        },
        Value::Bool(b) => {
            if b {
                String::from_str(defs.text_of(t.sibling))
            } else {
                let mut s = String::from_str("!");
                s.append(defs.text_of(t.sibling));
                s
            }
        },
        Value::Int(n) => {
            let mut s = String::from_str(defs.text_of(t.sibling));
            s.append(" == ");
            s.append(number(n).as_str());
            s
        },
    }
}

fn plural_of(n: usize) -> (r: &'static str)
    ensures
        r@ == plural(n as nat),
{
    if n == 1 {
        ""
    } else {
        "s"
    }
}

fn write_message(
    defs: &Definitions,
    did: DefId,
    field: Symbol,
    t: Test,
    reads: usize,
    placeholders: usize,
) -> (r: String)
    ensures
        r@ == dependent_message(*defs, did, field, t, reads as nat, placeholders as nat),
{
    let mut msg = String::from_str("`");
    msg.append(defs.text_of(field));
    msg.append("` is only read where `");
    msg.append(write_test(defs, t).as_str());
    msg.append("` has been tested (");
    msg.append(number(reads as u128).as_str());
    msg.append(" read");
    msg.append(plural_of(reads));
    msg.append("), and every `");
    msg.append(defs.name_of(did));
    msg.append("` made with another `");
    msg.append(defs.text_of(t.sibling));
    msg.append("` fills it with a placeholder (");
    msg.append(number(placeholders as u128).as_str());
    msg.append(" site");
    msg.append(plural_of(placeholders));
    msg.append(")");
    msg
}

fn rank_of(names: &Vec<Symbol>, name: Symbol) -> (r: Option<usize>)
    ensures
        match r {
            Some(k) => rank(names@, name, 0) == k,
            None => rank(names@, name, 0) == -1,
        },
{
    let mut k: usize = 0;
    while k < names.len()
        invariant
            k <= names@.len(),
            rank(names@, name, 0) == rank(names@, name, k as int),
        decreases names.len() - k,
    {
        if names[k] == name {
            return Some(k);
        }
        k = k + 1;
    }
    None
}

fn init_given(site: &Site, field: Symbol) -> (r: Option<Init>)
    ensures
        r == given(site@, field),
{
    match find_key(&site.inits, &field) {
        Some(i) => Some(site.inits[i].1),
        None => None,
    }
}

impl DependentField {
    pub fn new() -> (r: Self)
        ensures
            r@ == (DependentView {
                reads: Seq::empty(),
                sites: Seq::empty(),
                assigned: Seq::empty(),
            }),
    {
        let r = DependentField { reads: Vec::new(), sites: Vec::new(), assigned: Vec::new() };
        assert(r@.reads =~= Seq::<ReadView>::empty());
        assert(r@.sites =~= Seq::<SiteView>::empty());
        r
    }

    fn record_read(&mut self, adt: DefId, field: Symbol, tests: Vec<Test>)
        ensures
            final(self)@ == (DependentView {
                reads: old(self)@.reads.push(ReadView { adt, field, tests: tests@ }),
                ..old(self)@
            }),
    {
        let ghost before = self@;
        self.reads.push(Read { adt, field, tests });
        assert(self@.reads =~= before.reads.push(ReadView { adt, field, tests: tests@ }));
        assert(self@ =~= (DependentView {
            reads: before.reads.push(ReadView { adt, field, tests: tests@ }),
            ..before
        }));
    }

    /// Visits an expression; `parents` are the nodes around it, innermost
    /// first.
    pub fn check_expr(&mut self, defs: &Definitions, e: &Expr, parents: &Vec<Parent>)
        ensures
            final(self)@ == after_expr(*defs, old(self)@, *e, parents@),
    {
        let ghost before = self@;
        match &e.kind {
            ExprKind::Struct(_, fields, tail) => {
                let did = match relevant_struct(defs, &e.ty) {
                    Some(d) => d,
                    None => {
                        return;
                    },
                };
                match tail {
                    StructTail::Nothing => {},
                    _ => {
                        return;
                    },
                }
                let ghost want = inits_of(*defs, fields@);
                let mut inits: Vec<(Symbol, Init)> = Vec::new();
                let mut i: usize = 0;
                while i < fields.len()
                    invariant
                        i <= fields@.len(),
                        want == inits_of(*defs, fields@),
                        inits@ == want.take(i as int),
                    decreases fields.len() - i,
                {
                    let f = &fields[i];
                    inits.push(
                        (
                            f.name,
                            Init {
                                value: expr_value(defs, &f.value),
                                placeholder: is_placeholder(defs, &f.value),
                            },
                        ),
                    );
                    i = i + 1;
                    assert(inits@ =~= want.take(i as int));
                }
                assert(inits@ =~= want);
                self.sites.push(Site { adt: did, inits });
                assert(self@.sites =~= before.sites.push(SiteView { adt: did, inits: want }));
                assert(self@ =~= after_expr(*defs, before, *e, parents@));
            },
            ExprKind::Field(base, name) => {
                let did = match relevant_struct(defs, &base.adjusted) {
                    Some(d) => d,
                    None => {
                        return;
                    },
                };
                if struct_field(defs, did, *name).is_none() || e.origin.in_derive {
                    return;
                }
                // `base.f = ..` writes; everything else, `base.f += ..` and
                // `&mut base.f` with it, reads.
                let writes = parents.len() > 0 && match &parents[0] {
                    Parent::Expr(p) => match &p.kind {
                        ExprKind::Assign(lhs, _) => lhs.id == e.id,
                        _ => false,
                    },
                    _ => false,
                };
                if writes {
                    add_new(&mut self.assigned, (did, *name));
                    assert(self@ =~= after_expr(*defs, before, *e, parents@));
                    return;
                }
                let tests = dominating_tests(defs, e, base, parents);
                self.record_read(did, *name, tests);
            },
            _ => {},
        }
    }

    /// Visits a pattern.
    pub fn check_pat(&mut self, defs: &Definitions, p: &Pat)
        ensures
            final(self)@ == after_pat(*defs, old(self)@, *p),
    {
        let ghost before = self@;
        match &p.kind {
            PatKind::Struct(_, fields) => {
                let did = match relevant_struct(defs, &p.ty) {
                    Some(d) => d,
                    None => {
                        return;
                    },
                };
                if p.in_derive {
                    return;
                }
                let ghost want = bare_reads(did, fields@);
                let mut i: usize = 0;
                assert(self@ =~= (DependentView {
                    reads: before.reads + want.take(0),
                    ..before
                }));
                while i < fields.len()
                    invariant
                        i <= fields@.len(),
                        want == bare_reads(did, fields@),
                        self@ == (DependentView {
                            reads: before.reads + want.take(i as int),
                            ..before
                        }),
                    decreases fields.len() - i,
                {
                    self.record_read(did, fields[i].name, Vec::new());
                    assert(want.take(i + 1) =~= want.take(i as int).push(want[i as int]));
                    i = i + 1;
                    assert(self@ =~= (DependentView {
                        reads: before.reads + want.take(i as int),
                        ..before
                    }));
                }
                assert(want.take(i as int) =~= want);
            },
            _ => {},
        }
    }

    fn is_reached(&self, did: DefId, test: Test) -> (r: bool)
        ensures
            r == reached(self@, did, test),
    {
        if is_in(&self.assigned, &(did, test.sibling)) {
            return true;
        }
        let mut k: usize = 0;
        while k < self.sites.len()
            invariant
                k <= self.sites@.len(),
                forall|j: int| 0 <= j < k ==> !site_reaches(#[trigger] self@.sites[j], did, test),
            decreases self.sites.len() - k,
        {
            let site = &self.sites[k];
            let hit = site.adt == did && match init_given(site, test.sibling) {
                Some(i) => match i.value {
                    None => true,
                    Some(v) => v == test.value,
                },
                None => false,
            };
            assert(self@.sites[k as int] == site@);
            if hit {
                assert(site_reaches(self@.sites[k as int], did, test));
                return true;
            }
            k = k + 1;
        }
        false
    }

    /// How many sites of another case fill the field with a placeholder, and
    /// whether one gives it a real value.
    fn elsewhere(&self, did: DefId, field: Symbol, test: Test) -> (r: (usize, bool))
        ensures
            r.0 == placeholder_count(self@.sites, did, field, test),
            r.1 == some_real(self@.sites, did, field, test),
    {
        let ghost sites = self@.sites;
        let mut placeholders: usize = 0;
        let mut meant = false;
        let mut k: usize = 0;
        while k < self.sites.len()
            invariant
                k <= self.sites@.len(),
                sites == self@.sites,
                placeholders <= k,
                placeholders == placeholder_count(sites.take(k as int), did, field, test),
                meant == exists|j: int|
                    0 <= j < k && fills_real(#[trigger] sites[j], did, field, test),
            decreases self.sites.len() - k,
        {
            assert(sites.take(k + 1).drop_last() =~= sites.take(k as int));
            let site = &self.sites[k];
            assert(sites[k as int] == site@);
            let elsewhere = site.adt == did && match init_given(site, test.sibling) {
                Some(i) => match i.value {
                    None => false,
                    Some(v) => v != test.value,
                },
                None => false,
            };
            if elsewhere {
                match init_given(site, field) {
                    Some(i) => {
                        if i.placeholder {
                            placeholders = placeholders + 1;
                        } else {
                            meant = true;
                            assert(fills_real(sites[k as int], did, field, test));
                        }
                    },
                    None => {},
                }
            }
            k = k + 1;
        }
        assert(sites.take(k as int) =~= sites);
        (placeholders, meant)
    }

    fn is_dependent(&self, did: DefId, field: Symbol, test: Test) -> (r: bool)
        ensures
            r == depends(self@, did, field, test),
    {
        if test.sibling == field || !self.is_reached(did, test) {
            return false;
        }
        let (placeholders, meant) = self.elsewhere(did, field, test);
        placeholders > 0 && !meant
    }

    /// The tests every read of the field agrees on, and how many reads there
    /// are.
    fn agreed_tests(&self, did: DefId, field: Symbol) -> (r: (Vec<Test>, usize))
        ensures
            r.0@ == agreed(reads_of(self@.reads, did, field)),
            r.1 == reads_of(self@.reads, did, field).len(),
    {
        let ghost reads = self@.reads;
        let mut common: Vec<Test> = Vec::new();
        let mut count: usize = 0;
        let mut i: usize = 0;
        assert(common@ =~= agreed(reads_of(reads.take(0), did, field)));
        while i < self.reads.len()
            invariant
                i <= self.reads@.len(),
                reads == self@.reads,
                count <= i,
                common@ == agreed(reads_of(reads.take(i as int), did, field)),
                count == reads_of(reads.take(i as int), did, field).len(),
            decreases self.reads.len() - i,
        {
            assert(reads.take(i + 1).drop_last() =~= reads.take(i as int));
            let r = &self.reads[i];
            assert(reads[i as int] == r@);
            if r.adt == did && r.field == field {
                let ghost rs = reads_of(reads.take(i + 1), did, field);
                assert(rs.drop_last() =~= reads_of(reads.take(i as int), did, field));
                let from = if count == 0 {
                    &r.tests
                } else {
                    &common
                };
                let ghost a = from@;
                let mut next: Vec<Test> = Vec::new();
                let mut j: usize = 0;
                while j < from.len()
                    invariant
                        j <= from@.len(),
                        a == from@,
                        count > 0 ==> next@ == in_both(a.take(j as int), r.tests@),
                        count == 0 ==> next@ == a.take(j as int),
                    decreases from.len() - j,
                {
                    assert(a.take(j + 1).drop_last() =~= a.take(j as int));
                    assert(a.take(j + 1) =~= a.take(j as int).push(a[j as int]));
                    if count == 0 || is_in(&r.tests, &from[j]) {
                        next.push(from[j]);
                    }
                    j = j + 1;
                }
                assert(a.take(j as int) =~= a);
                common = next;
                count = count + 1;
            }
            i = i + 1;
        }
        assert(reads.take(i as int) =~= reads);
        (common, count)
    }

    fn finding_for(&self, defs: &Definitions, did: DefId, field: Symbol, out: &mut Vec<Finding>)
        ensures
            match field_finding(*defs, self@, did, field) {
                Some(f) => views(final(out)@) == views(old(out)@).push(f),
                None => views(final(out)@) == views(old(out)@),
            },
    {
        let (tests, reads) = self.agreed_tests(did, field);
        let names = names_of_fields(defs, did);
        let mut best: Option<Test> = None;
        let mut k: usize = 0;
        while k < tests.len()
            invariant
                k <= tests@.len(),
                names@ == field_names(*defs, did),
                best == chosen(names@, self@, did, field, tests@, k as int),
            decreases tests.len() - k,
        {
            let t: Test = tests[k];
            if self.is_dependent(did, field, t) {
                match best {
                    None => {
                        best = Some(t);
                    },
                    Some(b) => {
                        let earlier = match (rank_of(&names, t.sibling), rank_of(&names, b.sibling)) {
                            (Some(x), Some(y)) => x < y,
                            (None, Some(_)) => true,
                            _ => false,
                        };
                        if earlier {
                            best = Some(t);
                        }
                    },
                }
            }
            k = k + 1;
        }
        match (best, struct_field(defs, did, field)) {
            (Some(t), Some(f)) => {
                let (placeholders, _) = self.elsewhere(did, field, t);
                let msg = write_message(defs, did, field, t, reads, placeholders);
                emit(
                    out,
                    Lint::DependentField,
                    f.span,
                    msg,
                    "the field is the payload of that one case, stored flat; an enum variant carrying it leaves the other cases nothing to fill in or misread",
                );
            },
            _ => {},
        }
    }

    /// What the lint says of the crate, in source order.
    pub fn check_crate_post(&self, defs: &Definitions) -> (r: Vec<Finding>)
        ensures
            views(r@) == dependent_findings(*defs, self@),
    {
        let ghost reads = self@.reads;
        let mut fields: Vec<(DefId, Symbol)> = Vec::new();
        let mut i: usize = 0;
        while i < self.reads.len()
            invariant
                i <= self.reads@.len(),
                reads == self@.reads,
                fields@ == fields_read(reads, i as int),
            decreases self.reads.len() - i,
        {
            assert(reads[i as int] == self.reads@[i as int]@);
            add_new(&mut fields, (self.reads[i].adt, self.reads[i].field));
            i = i + 1;
        }
        let mut out: Vec<Finding> = Vec::new();
        let mut k: usize = 0;
        assert(views(out@) =~= Seq::<FindingView>::empty());
        while k < fields.len()
            invariant
                k <= fields@.len(),
                views(out@) == field_findings(*defs, self@, fields@, k as int),
            decreases fields.len() - k,
        {
            self.finding_for(defs, fields[k].0, fields[k].1, &mut out);
            k = k + 1;
        }
        sort_by_position(out)
    }
}

fn names_of_fields(defs: &Definitions, did: DefId) -> (r: Vec<Symbol>)
    ensures
        r@ == field_names(*defs, did),
{
    let mut out: Vec<Symbol> = Vec::new();
    match defs.fields_of(did) {
        Some(fields) => {
            let mut i: usize = 0;
            while i < fields.len()
                invariant
                    i <= fields@.len(),
                    fields@ == defs.fields(did),
                    out@ == field_names(*defs, did).take(i as int),
                decreases fields.len() - i,
            {
                out.push(fields[i].name);
                i = i + 1;
                assert(out@ =~= field_names(*defs, did).take(i as int));
            }
            assert(out@ =~= field_names(*defs, did));
        },
        None => {
            assert(out@ =~= field_names(*defs, did));
        },
    }
    out
}

/// One read that nothing is known at keeps the lint quiet about the field.
pub proof fn lemma_bare_read_silences(
    defs: Definitions,
    s: DependentView,
    did: DefId,
    field: Symbol,
    k: int,
)
    requires
        0 <= k < s.reads.len(),
        s.reads[k].adt == did,
        s.reads[k].field == field,
        s.reads[k].tests.len() == 0,
    ensures
        field_finding(defs, s, did, field) is None,
{
    lemma_read_listed(s.reads, did, field, k);
    let rs = reads_of(s.reads, did, field);
    let i = choose|i: int| 0 <= i < rs.len() && #[trigger] rs[i] == s.reads[k].tests;
    lemma_agreed_within(rs, i);
    let tests = agreed(rs);
    if tests.len() > 0 {
        assert(tests.contains(tests[0]));
        assert(rs[i].contains(tests[0]));
    }
}

proof fn lemma_read_listed(reads: Seq<ReadView>, did: DefId, field: Symbol, k: int)
    requires
        0 <= k < reads.len(),
        reads[k].adt == did,
        reads[k].field == field,
    ensures
        exists|i: int|
            0 <= i < reads_of(reads, did, field).len() && #[trigger] reads_of(
                reads,
                did,
                field,
            )[i] == reads[k].tests,
    decreases reads.len(),
{
    let rs = reads_of(reads, did, field);
    if k == reads.len() - 1 {
        assert(rs[rs.len() - 1] == reads[k].tests);
    } else {
        let front = reads.drop_last();
        lemma_read_listed(front, did, field, k);
        let before = reads_of(front, did, field);
        let i = choose|i: int| 0 <= i < before.len() && #[trigger] before[i] == front[k].tests;
        assert(rs[i] == before[i]);
    }
}

proof fn lemma_in_both(a: Seq<Test>, b: Seq<Test>)
    ensures
        forall|t: Test| #[trigger]
            in_both(a, b).contains(t) ==> a.contains(t) && b.contains(t),
    decreases a.len(),
{
    if a.len() > 0 {
        let front = a.drop_last();
        lemma_in_both(front, b);
        let before = in_both(front, b);
        assert forall|t: Test| #[trigger] in_both(a, b).contains(t) implies a.contains(t)
            && b.contains(t) by {
            let all = in_both(a, b);
            let i = choose|i: int| 0 <= i < all.len() && all[i] == t;
            if i < before.len() {
                assert(before[i] == t);
                assert(before.contains(t));
                let j = choose|j: int| 0 <= j < front.len() && front[j] == t;
                assert(a[j] == t);
            } else {
                assert(a[a.len() - 1] == t);
            }
        }
    }
}

proof fn lemma_agreed_within(rs: Seq<Seq<Test>>, i: int)
    requires
        0 <= i < rs.len(),
    ensures
        forall|t: Test| #[trigger] agreed(rs).contains(t) ==> rs[i].contains(t),
    decreases rs.len(),
{
    if rs.len() > 1 {
        lemma_in_both(agreed(rs.drop_last()), rs.last());
        if i < rs.len() - 1 {
            lemma_agreed_within(rs.drop_last(), i);
        }
    }
}

/// Every read of the field comes where the test holds.
pub open spec fn always_tested(s: DependentView, did: DefId, field: Symbol, t: Test) -> bool {
    forall|k: int|
        0 <= k < s.reads.len() && (#[trigger] s.reads[k]).adt == did && s.reads[k].field == field
            ==> s.reads[k].tests.contains(t)
}

proof fn lemma_chosen(
    names: Seq<Symbol>,
    s: DependentView,
    did: DefId,
    field: Symbol,
    tests: Seq<Test>,
    k: int,
)
    requires
        0 <= k <= tests.len(),
    ensures
        chosen(names, s, did, field, tests, k) matches Some(t) ==> tests.contains(t) && depends(
            s,
            did,
            field,
            t,
        ),
    decreases k,
{
    if k > 0 {
        lemma_chosen(names, s, did, field, tests, k - 1);
        assert(tests.contains(tests[k - 1]));
    }
}

/// What the lint says of a field holds: there is one test of a sibling that
/// every read of the field comes under, and every construction of another case
/// that gives the field a value gives it a placeholder.
pub proof fn lemma_reported_field_depends(
    defs: Definitions,
    s: DependentView,
    did: DefId,
    field: Symbol,
)
    requires
        field_finding(defs, s, did, field) is Some,
    ensures
        exists|t: Test| #[trigger]
            always_tested(s, did, field, t) && depends(s, did, field, t),
{
    let rs = reads_of(s.reads, did, field);
    let tests = agreed(rs);
    let names = field_names(defs, did);
    let t = chosen(names, s, did, field, tests, tests.len() as int)->Some_0;
    lemma_chosen(names, s, did, field, tests, tests.len() as int);
    assert forall|k: int|
        0 <= k < s.reads.len() && (#[trigger] s.reads[k]).adt == did && s.reads[k].field
            == field implies s.reads[k].tests.contains(t) by {
        lemma_read_listed(s.reads, did, field, k);
        let i = choose|i: int| 0 <= i < rs.len() && #[trigger] rs[i] == s.reads[k].tests;
        lemma_agreed_within(rs, i);
    }
    assert(always_tested(s, did, field, t));
}

// ---------------------------------------------------------------- meaning of tests

/// What a sibling holds, for every sibling.
pub type Held = spec_fn(Symbol) -> Value;

/// The test is true where the siblings hold these values.
pub open spec fn true_of(held: Held, t: Test) -> bool {
    held(t.sibling) == t.value
}

pub open spec fn all_true(held: Held, ts: Seq<Test>) -> bool {
    forall|t: Test| #[trigger] ts.contains(t) ==> true_of(held, t)
}

/// A sibling compared with a value for equality can give `b`. What is compared
/// with a boolean is one.
pub open spec fn equality_may_be(held: Held, s: Symbol, v: Value, b: bool) -> bool {
    (v is Bool ==> held(s) is Bool) && b == (held(s) == v)
}

/// A sibling matched against a pattern that admits one value can give `b`: it
/// matches only where it holds that value, and a boolean always does there.
pub open spec fn match_may_be(held: Held, s: Symbol, v: Value, b: bool) -> bool {
    (v is Bool ==> held(s) is Bool) && (b ==> held(s) == v) && (v is Bool && held(s) == v ==> b)
}

/// The condition can evaluate to `b` where the siblings read off `base` hold
/// these values; what is not about them can evaluate to anything.
pub open spec fn may_be(defs: Definitions, base: Expr, cond: Expr, held: Held, b: bool) -> bool
    decreases cond,
{
    match cond.kind {
        ExprKind::Unary(UnOp::Not, inner) => may_be(defs, base, *inner, held, !b),
        ExprKind::DropTemps(inner) => may_be(defs, base, *inner, held, b),
        ExprKind::Binary(op, l, r) => if op == BinOp::And {
            if b {
                may_be(defs, base, *l, held, true) && may_be(defs, base, *r, held, true)
            } else {
                may_be(defs, base, *l, held, false) || may_be(defs, base, *r, held, false)
            }
        } else if op == BinOp::Or {
            if b {
                may_be(defs, base, *l, held, true) || may_be(defs, base, *r, held, true)
            } else {
                may_be(defs, base, *l, held, false) && may_be(defs, base, *r, held, false)
            }
        } else if op == BinOp::EqualTo || op == BinOp::NotEqual {
            let equal = if op == BinOp::EqualTo {
                b
            } else {
                !b
            };
            &&& match (sibling(base, *l), spelled_value(defs, *r)) {
                (Some(s), Some(v)) => equality_may_be(held, s, v, equal),
                _ => true,
            }
            &&& match (sibling(base, *r), spelled_value(defs, *l)) {
                (Some(s), Some(v)) => equality_may_be(held, s, v, equal),
                _ => true,
            }
        } else {
            true
        },
        ExprKind::Let(pat, init) => match (sibling(base, *init), admitted(defs, pat)) {
            (Some(s), Some(v)) => b ==> held(s) == v,
            _ => true,
        },
        ExprKind::Match(scrutinee, arms, _) => if is_matches(arms@) {
            match (sibling(base, *scrutinee), admitted(defs, arms@[0].pat)) {
                (Some(s), Some(v)) => if arms@[0].guard is None {
                    match_may_be(held, s, v, b)
                } else {
                    b ==> held(s) == v
                },
                _ => true,
            }
        } else {
            true
        },
        _ => match sibling(base, cond) {
            Some(s) => cond.ty is Bool ==> held(s) == Value::Bool(b),
            None => true,
        },
    }
}

proof fn lemma_learned_true(held: Held, out: Seq<Test>, s: Symbol, v: Value, equal: bool)
    requires
        all_true(held, out),
        equal ==> held(s) == v,
        !equal && v is Bool ==> held(s) is Bool && held(s) != v,
    ensures
        all_true(held, learned(out, s, v, equal)),
{
    if equal {
        crate::table::lemma_added(out, Test { sibling: s, value: v });
    } else {
        match v {
            Value::Bool(b) => crate::table::lemma_added(
                out,
                Test { sibling: s, value: Value::Bool(!b) },
            ),
            _ => {},
        }
    }
}

/// What is learnt from a condition is so: whatever the siblings hold, if the
/// condition can evaluate as it did there, every test learnt from it is true
/// there.
pub proof fn lemma_tests_follow_from_the_condition(
    defs: Definitions,
    base: Expr,
    cond: Expr,
    holds: bool,
    out: Seq<Test>,
    held: Held,
)
    requires
        may_be(defs, base, cond, held, holds),
        all_true(held, out),
    ensures
        all_true(held, cond_facts(defs, base, cond, holds, out)),
    decreases cond,
{
    match cond.kind {
        ExprKind::Unary(op, inner) => if op == UnOp::Not {
            lemma_tests_follow_from_the_condition(defs, base, *inner, !holds, out, held);
        } else {
            match sibling(base, cond) {
                Some(s) => if cond.ty is Bool {
                    lemma_learned_true(held, out, s, Value::Bool(holds), true);
                },
                None => {},
            }
        },
        ExprKind::DropTemps(inner) => lemma_tests_follow_from_the_condition(
            defs,
            base,
            *inner,
            holds,
            out,
            held,
        ),
        ExprKind::Binary(op, l, r) => if (op == BinOp::And && holds) || (op == BinOp::Or && !holds) {
            lemma_tests_follow_from_the_condition(defs, base, *l, holds, out, held);
            let first = cond_facts(defs, base, *l, holds, out);
            lemma_tests_follow_from_the_condition(defs, base, *r, holds, first, held);
        } else if op == BinOp::EqualTo || op == BinOp::NotEqual {
            let equal = (op == BinOp::EqualTo) == holds;
            match (sibling(base, *l), spelled_value(defs, *r)) {
                (Some(s), Some(v)) => lemma_learned_true(held, out, s, v, equal),
                _ => {},
            }
            match (sibling(base, *r), spelled_value(defs, *l)) {
                (Some(s), Some(v)) => lemma_learned_true(held, out, s, v, equal),
                _ => {},
            }
        },
        ExprKind::Let(pat, init) => match (sibling(base, *init), admitted(defs, pat)) {
            (Some(s), Some(v)) => if holds {
                lemma_learned_true(held, out, s, v, true);
            },
            _ => {},
        },
        ExprKind::Match(scrutinee, arms, _) => if is_matches(arms@) && (holds || arms@[0].guard
            is None) {
            match (sibling(base, *scrutinee), admitted(defs, arms@[0].pat)) {
                (Some(s), Some(v)) => lemma_learned_true(held, out, s, v, holds),
                _ => {},
            }
        },
        _ => match sibling(base, cond) {
            Some(s) => if cond.ty is Bool {
                lemma_learned_true(held, out, s, Value::Bool(holds), true);
            },
            None => {},
        },
    }
}

/// Every test of the first list is in the second.
pub open spec fn tests_in(a: Seq<Test>, b: Seq<Test>) -> bool {
    forall|t: Test| #[trigger] a.contains(t) ==> b.contains(t)
}

proof fn lemma_learned_grows(a: Seq<Test>, b: Seq<Test>, s: Symbol, v: Value, equal: bool)
    requires
        tests_in(a, b),
    ensures
        tests_in(a, learned(a, s, v, equal)),
        tests_in(learned(a, s, v, equal), learned(b, s, v, equal)),
        equal ==> learned(a, s, v, equal).contains(Test { sibling: s, value: v }),
        !equal ==> (v matches Value::Bool(x) ==> learned(a, s, v, equal).contains(
            Test { sibling: s, value: Value::Bool(!x) },
        )),
{
    let t = Test { sibling: s, value: v };
    crate::table::lemma_added(a, t);
    crate::table::lemma_added(b, t);
    match v {
        Value::Bool(x) => {
            let u = Test { sibling: s, value: Value::Bool(!x) };
            crate::table::lemma_added(a, u);
            crate::table::lemma_added(b, u);
        },
        _ => {},
    }
}

proof fn lemma_learned_of_grows(
    a: Seq<Test>,
    b: Seq<Test>,
    s: Option<Symbol>,
    v: Option<Value>,
    equal: bool,
)
    requires
        tests_in(a, b),
    ensures
        tests_in(a, learned_of(a, s, v, equal)),
        tests_in(learned_of(a, s, v, equal), learned_of(b, s, v, equal)),
{
    match (s, v) {
        (Some(s), Some(v)) => lemma_learned_grows(a, b, s, v, equal),
        _ => {},
    }
}

/// A condition takes no test away, and teaches no less where more is known
/// already.
pub proof fn lemma_conditions_only_add(
    defs: Definitions,
    base: Expr,
    cond: Expr,
    holds: bool,
    a: Seq<Test>,
    b: Seq<Test>,
)
    requires
        tests_in(a, b),
    ensures
        tests_in(a, cond_facts(defs, base, cond, holds, a)),
        tests_in(cond_facts(defs, base, cond, holds, a), cond_facts(defs, base, cond, holds, b)),
    decreases cond,
{
    match cond.kind {
        ExprKind::Unary(op, inner) => if op == UnOp::Not {
            lemma_conditions_only_add(defs, base, *inner, !holds, a, b);
        } else {
            lemma_learned_of_grows(a, b, sibling(base, cond), Some(Value::Bool(holds)), true);
        },
        ExprKind::DropTemps(inner) => lemma_conditions_only_add(defs, base, *inner, holds, a, b),
        ExprKind::Binary(op, l, r) => if (op == BinOp::And && holds) || (op == BinOp::Or && !holds) {
            lemma_conditions_only_add(defs, base, *l, holds, a, b);
            lemma_conditions_only_add(
                defs,
                base,
                *r,
                holds,
                cond_facts(defs, base, *l, holds, a),
                cond_facts(defs, base, *l, holds, b),
            );
        } else {
            let equal = (op == BinOp::EqualTo) == holds;
            lemma_learned_of_grows(a, b, sibling(base, *l), spelled_value(defs, *r), equal);
            lemma_learned_of_grows(a, b, sibling(base, *r), spelled_value(defs, *l), equal);
        },
        ExprKind::Let(pat, init) => lemma_learned_of_grows(
            a,
            b,
            sibling(base, *init),
            admitted(defs, pat),
            true,
        ),
        ExprKind::Match(scrutinee, arms, _) => lemma_learned_of_grows(
            a,
            b,
            sibling(base, *scrutinee),
            admitted(defs, arms@[0].pat),
            holds,
        ),
        _ => lemma_learned_of_grows(
            a,
            b,
            sibling(base, cond),
            Some(Value::Bool(holds)),
            true,
        ),
    }
}

/// The expression is a sibling, read off a value known to be `base`.
pub open spec fn is_sibling(base: Expr, e: Expr, name: Symbol) -> bool {
    e.kind matches ExprKind::Field(other, n) && n == name && (base.value_class matches Some(c)
        && other.value_class == Some(c))
}

/// A flag tested by itself is learnt to be what the condition came to, and a
/// negated one the opposite.
pub proof fn lemma_flag_is_learnt(
    defs: Definitions,
    base: Expr,
    flag: Expr,
    negated: Expr,
    name: Symbol,
    holds: bool,
    out: Seq<Test>,
)
    requires
        is_sibling(base, flag, name),
        flag.ty is Bool,
        negated.kind == ExprKind::Unary(UnOp::Not, Box::new(flag)),
    ensures
        cond_facts(defs, base, flag, holds, out).contains(
            Test { sibling: name, value: Value::Bool(holds) },
        ),
        cond_facts(defs, base, negated, holds, out).contains(
            Test { sibling: name, value: Value::Bool(!holds) },
        ),
        forall|t: Test|
            out.len() == 0 && #[trigger] cond_facts(defs, base, negated, holds, out).contains(t)
                ==> t == (Test { sibling: name, value: Value::Bool(!holds) }),
{
    crate::table::lemma_added(out, Test { sibling: name, value: Value::Bool(holds) });
    crate::table::lemma_added(out, Test { sibling: name, value: Value::Bool(!holds) });
    assert(sibling(base, flag) == Some(name));
    assert(cond_facts(defs, base, flag, holds, out) == learned(
        out,
        name,
        Value::Bool(holds),
        true,
    ));
    assert(cond_facts(defs, base, flag, !holds, out) == learned(
        out,
        name,
        Value::Bool(!holds),
        true,
    ));
}

/// Negating a condition swaps what its two outcomes teach.
pub proof fn lemma_negation_swaps_outcomes(
    defs: Definitions,
    base: Expr,
    cond: Expr,
    inner: Expr,
    holds: bool,
    out: Seq<Test>,
)
    requires
        cond.kind == ExprKind::Unary(UnOp::Not, Box::new(inner)),
    ensures
        cond_facts(defs, base, cond, holds, out) == cond_facts(defs, base, inner, !holds, out),
{
}

/// A conjunction that holds teaches what both sides teach, and so does a
/// disjunction that does not hold; the other outcomes teach nothing.
pub proof fn lemma_both_sides_are_learnt(
    defs: Definitions,
    base: Expr,
    cond: Expr,
    l: Expr,
    r: Expr,
    op: BinOp,
    holds: bool,
)
    requires
        cond.kind == ExprKind::Binary(op, Box::new(l), Box::new(r)),
        op == BinOp::And || op == BinOp::Or,
    ensures
        holds == (op == BinOp::And) ==> tests_in(
            cond_facts(defs, base, l, holds, Seq::empty()),
            cond_facts(defs, base, cond, holds, Seq::empty()),
        ) && tests_in(
            cond_facts(defs, base, r, holds, Seq::empty()),
            cond_facts(defs, base, cond, holds, Seq::empty()),
        ),
        holds != (op == BinOp::And) ==> cond_facts(defs, base, cond, holds, Seq::empty()).len()
            == 0,
{
    let none = Seq::<Test>::empty();
    let first = cond_facts(defs, base, l, holds, none);
    lemma_conditions_only_add(defs, base, r, holds, none, first);
    lemma_conditions_only_add(defs, base, r, holds, first, first);
}

/// The expression spells the value out, behind shared borrows or not.
pub open spec fn spells(defs: Definitions, e: Expr, v: Value) -> bool
    decreases e,
{
    match e.kind {
        ExprKind::Lit(l) => (v matches Value::Bool(b) && l.kind == LitKind::Bool(b)) || (
        v matches Value::Int(n) && l.kind == LitKind::Int(n)),
        ExprKind::Path(p) => v matches Value::Variant(d) && p.res == crate::hir::Res::Def(
            crate::defs::DefKind::Variant,
            d,
        ),
        ExprKind::AddrOf(false, false, inner) => spells(defs, *inner, v),
        ExprKind::DropTemps(inner) => spells(defs, *inner, v),
        _ => false,
    }
}

proof fn lemma_spelled(defs: Definitions, e: Expr, v: Value)
    requires
        spells(defs, e, v),
    ensures
        spelled_value(defs, e) == Some(v),
        forall|base: Expr| #[trigger] sibling(base, e) is None,
    decreases e,
{
    match e.kind {
        ExprKind::AddrOf(false, false, inner) => {
            lemma_spelled(defs, *inner, v);
            assert forall|base: Expr| #[trigger] sibling(base, e) is None by {
                assert(sibling(base, *inner) is None);
            }
        },
        ExprKind::DropTemps(inner) => {
            lemma_spelled(defs, *inner, v);
            assert forall|base: Expr| #[trigger] sibling(base, e) is None by {
                assert(sibling(base, *inner) is None);
            }
        },
        _ => {},
    }
}

/// A sibling compared with a value, on either side, is learnt to hold it where
/// they come out equal; where they come out different, a flag is learnt to
/// hold the other value.
pub proof fn lemma_comparison_is_learnt(
    defs: Definitions,
    base: Expr,
    cond: Expr,
    op: BinOp,
    field: Expr,
    value: Expr,
    name: Symbol,
    v: Value,
    holds: bool,
    out: Seq<Test>,
)
    requires
        op == BinOp::EqualTo || op == BinOp::NotEqual,
        cond.kind == ExprKind::Binary(op, Box::new(field), Box::new(value)) || cond.kind
            == ExprKind::Binary(op, Box::new(value), Box::new(field)),
        is_sibling(base, field, name),
        spells(defs, value, v),
    ensures
        (op == BinOp::EqualTo && holds) || (op == BinOp::NotEqual && !holds) ==> cond_facts(
            defs,
            base,
            cond,
            holds,
            out,
        ).contains(Test { sibling: name, value: v }),
        (op == BinOp::EqualTo && !holds) || (op == BinOp::NotEqual && holds) ==> (
        v matches Value::Bool(b) ==> cond_facts(defs, base, cond, holds, out).contains(
            Test { sibling: name, value: Value::Bool(!b) },
        )),
        (op == BinOp::EqualTo && !holds) || (op == BinOp::NotEqual && holds) ==> (!(v is Bool)
            ==> cond_facts(defs, base, cond, holds, out) == out),
{
    lemma_spelled(defs, value, v);
    assert(sibling(base, field) == Some(name));
    assert(sibling(base, value) is None);
    let equal = (op == BinOp::EqualTo) == holds;
    lemma_learned_grows(out, out, name, v, equal);
    assert(cond_facts(defs, base, cond, holds, out) == learned(out, name, v, equal));
}

/// A literal pattern admits its literal and a variant's head its variant,
/// under references and behind `@`.
pub proof fn lemma_pattern_admits(defs: Definitions, pat: Pat, inner: Pat)
    ensures
        pat.kind matches PatKind::Lit(l, false) ==> (l.kind matches LitKind::Bool(b) ==> admitted(
            defs,
            pat,
        ) == Some(Value::Bool(b))),
        pat.kind matches PatKind::Lit(l, false) ==> (l.kind matches LitKind::Int(n) ==> admitted(
            defs,
            pat,
        ) == Some(Value::Int(n))),
        pat.kind matches PatKind::Path(p) ==> (p.res matches crate::hir::Res::Def(k, d) ==> (k
            == crate::defs::DefKind::Variant ==> admitted(defs, pat) == Some(Value::Variant(d)))),
        pat.kind matches PatKind::TupleStruct(p, _) ==> (p.res matches crate::hir::Res::Def(k, d)
            ==> (k == crate::defs::DefKind::Variant ==> admitted(defs, pat) == Some(
            Value::Variant(d),
        ))),
        pat.kind matches PatKind::Struct(p, _) ==> (p.res matches crate::hir::Res::Def(k, d) ==> (k
            == crate::defs::DefKind::Variant ==> admitted(defs, pat) == Some(Value::Variant(d)))),
        pat.kind == PatKind::Ref(Box::new(inner)) || pat.kind == PatKind::Deref(Box::new(inner))
            || pat.kind == PatKind::BoxOf(Box::new(inner)) ==> admitted(defs, pat) == admitted(
            defs,
            inner,
        ),
        pat.kind matches PatKind::Binding(_, _, Some(sub)) ==> admitted(defs, pat) == admitted(
            defs,
            *sub,
        ),
        pat.kind is Wild || pat.kind is Or || (pat.kind matches PatKind::Lit(_, n) && n) || (
        pat.kind matches PatKind::Binding(_, _, None)) ==> admitted(defs, pat) is None,
{
}

/// `let P = sibling` that holds, and `matches!` of a sibling, teach what the
/// pattern admits; `matches!` of a flag that does not hold teaches the other
/// value.
pub proof fn lemma_pattern_is_learnt(
    defs: Definitions,
    base: Expr,
    cond: Expr,
    field: Expr,
    name: Symbol,
    pat: Pat,
    v: Value,
    out: Seq<Test>,
)
    requires
        is_sibling(base, field, name),
        admitted(defs, pat) == Some(v),
        cond.kind == ExprKind::Let(pat, Box::new(field)) || (cond.kind matches ExprKind::Match(
            scrutinee,
            arms,
            _,
        ) && *scrutinee == field && is_matches(arms@) && arms@[0].pat == pat),
    ensures
        cond_facts(defs, base, cond, true, out).contains(Test { sibling: name, value: v }),
        cond.kind is Let ==> cond_facts(defs, base, cond, false, out) == out,
        cond.kind matches ExprKind::Match(_, arms, _) && arms@[0].guard is None
            && v is Bool ==> cond_facts(defs, base, cond, false, out).contains(
            Test { sibling: name, value: Value::Bool(!v->Bool_0) },
        ),
        cond.kind matches ExprKind::Match(_, arms, _) && arms@[0].guard is Some ==> cond_facts(
            defs,
            base,
            cond,
            false,
            out,
        ) == out,
{
    assert(sibling(base, field) == Some(name));
    lemma_learned_grows(out, out, name, v, true);
    lemma_learned_grows(out, out, name, v, false);
}

// ---------------------------------------------------------------- where tests hold

proof fn lemma_stmt_grows(
    defs: Definitions,
    base: Expr,
    stmt: Stmt,
    a: Seq<Test>,
    b: Seq<Test>,
)
    requires
        tests_in(a, b),
    ensures
        tests_in(a, stmt_facts(defs, base, stmt, a)),
        tests_in(stmt_facts(defs, base, stmt, a), stmt_facts(defs, base, stmt, b)),
{
    match stmt.kind {
        StmtKind::Let(l) => match l.init {
            Some(init) => lemma_learned_of_grows(
                a,
                b,
                sibling(base, *init),
                admitted(defs, l.pat),
                true,
            ),
            None => {},
        },
        StmtKind::Item => {},
        StmtKind::Expr(e) => lemma_ran_grows(defs, base, e, a, b),
        StmtKind::Semi(e) => lemma_ran_grows(defs, base, e, a, b),
    }
}

proof fn lemma_ran_grows(defs: Definitions, base: Expr, e: Expr, a: Seq<Test>, b: Seq<Test>)
    requires
        tests_in(a, b),
    ensures
        tests_in(a, ran_facts(defs, base, e, a)),
        tests_in(ran_facts(defs, base, e, a), ran_facts(defs, base, e, b)),
{
    match e.kind {
        ExprKind::If(cond, _, _) => {
            lemma_conditions_only_add(defs, base, *cond, false, a, b);
            lemma_conditions_only_add(defs, base, *cond, true, a, b);
        },
        ExprKind::Match(scrutinee, arms, _) => lemma_learned_of_grows(
            a,
            b,
            sibling(base, *scrutinee),
            admitted(defs, live_arms(arms@)[0].pat),
            true,
        ),
        _ => {},
    }
}

proof fn lemma_guards_grow(
    defs: Definitions,
    base: Expr,
    stmts: Seq<Stmt>,
    k: int,
    a: Seq<Test>,
    b: Seq<Test>,
)
    requires
        tests_in(a, b),
    ensures
        tests_in(a, guard_facts(defs, base, stmts, k, a)),
        tests_in(guard_facts(defs, base, stmts, k, a), guard_facts(defs, base, stmts, k, b)),
    decreases k,
{
    if k > 0 {
        lemma_guards_grow(defs, base, stmts, k - 1, a, b);
        lemma_stmt_grows(
            defs,
            base,
            stmts[k - 1],
            guard_facts(defs, base, stmts, k - 1, a),
            guard_facts(defs, base, stmts, k - 1, b),
        );
    }
}

proof fn lemma_guard_kept(
    defs: Definitions,
    base: Expr,
    stmts: Seq<Stmt>,
    k: int,
    i: int,
    out: Seq<Test>,
)
    requires
        0 <= i < k,
    ensures
        tests_in(
            stmt_facts(defs, base, stmts[i], Seq::empty()),
            guard_facts(defs, base, stmts, k, out),
        ),
    decreases k,
{
    let before = guard_facts(defs, base, stmts, k - 1, out);
    lemma_stmt_grows(defs, base, stmts[k - 1], Seq::empty(), before);
    lemma_stmt_grows(defs, base, stmts[k - 1], before, before);
    if i < k - 1 {
        lemma_guard_kept(defs, base, stmts, k - 1, i, out);
    }
}

proof fn lemma_dominating_grows(
    defs: Definitions,
    base: Expr,
    parents: Seq<Parent>,
    k: int,
    child: HirId,
    via: Option<Arm>,
    out: Seq<Test>,
)
    ensures
        tests_in(out, dominating(defs, base, parents, k, child, via, out)),
    decreases parents.len() - k,
{
    if k < parents.len() {
        let id = parent_id(parents[k]);
        match parents[k] {
            Parent::Expr(e) => match e.kind {
                ExprKind::If(cond, yes, no) => {
                    lemma_conditions_only_add(defs, base, *cond, true, out, out);
                    lemma_conditions_only_add(defs, base, *cond, false, out, out);
                    let next = if yes.id == child {
                        cond_facts(defs, base, *cond, true, out)
                    } else if no matches Some(x) && x.id == child {
                        cond_facts(defs, base, *cond, false, out)
                    } else {
                        out
                    };
                    lemma_dominating_grows(defs, base, parents, k + 1, id, via, next);
                },
                ExprKind::Match(scrutinee, _, _) => {
                    let next = match via {
                        Some(arm) => learned_of(
                            out,
                            sibling(base, *scrutinee),
                            admitted(defs, arm.pat),
                            true,
                        ),
                        None => out,
                    };
                    match via {
                        Some(arm) => lemma_learned_of_grows(
                            out,
                            out,
                            sibling(base, *scrutinee),
                            admitted(defs, arm.pat),
                            true,
                        ),
                        None => {},
                    }
                    lemma_dominating_grows(defs, base, parents, k + 1, id, None, next);
                },
                _ => lemma_dominating_grows(defs, base, parents, k + 1, id, via, out),
            },
            Parent::Arm(arm) => lemma_dominating_grows(
                defs,
                base,
                parents,
                k + 1,
                id,
                Some(*arm),
                out,
            ),
            Parent::Block(b) => {
                lemma_guards_grow(defs, base, b.stmts@, ran_before(*b, child), out, out);
                lemma_dominating_grows(
                    defs,
                    base,
                    parents,
                    k + 1,
                    id,
                    via,
                    guard_facts(defs, base, b.stmts@, ran_before(*b, child), out),
                );
            },
            Parent::Item(_) => {},
            Parent::Other(_) => lemma_dominating_grows(defs, base, parents, k + 1, id, via, out),
        }
    }
}

/// The node of the list just inside the one at `k`, or `read` itself.
pub open spec fn just_inside(parents: Seq<Parent>, read: HirId, k: int) -> HirId {
    if k > 0 {
        parent_id(parents[k - 1])
    } else {
        read
    }
}

/// What the tests come to from the node at `k` on, having started anywhere
/// inside it.
spec fn gathered(
    defs: Definitions,
    base: Expr,
    parents: Seq<Parent>,
    read: HirId,
    k: int,
    all: Seq<Test>,
) -> bool {
    exists|via: Option<Arm>, out: Seq<Test>| #[trigger]
        dominating(defs, base, parents, k, just_inside(parents, read, k), via, out) == all
}

proof fn lemma_gathered(
    defs: Definitions,
    base: Expr,
    parents: Seq<Parent>,
    read: HirId,
    k: int,
    all: Seq<Test>,
)
    requires
        0 <= k < parents.len(),
        forall|j: int| 0 <= j < k ==> !(#[trigger] parents[j] is Item),
        dominating(defs, base, parents, 0, read, None, Seq::empty()) == all,
    ensures
        gathered(defs, base, parents, read, k, all),
    decreases k,
{
    if k == 0 {
        assert(dominating(
            defs,
            base,
            parents,
            0,
            just_inside(parents, read, 0),
            None,
            Seq::empty(),
        ) == all);
    } else {
        lemma_gathered(defs, base, parents, read, k - 1, all);
        let (via, out) = choose|via: Option<Arm>, out: Seq<Test>| #[trigger]
            dominating(
                defs,
                base,
                parents,
                k - 1,
                just_inside(parents, read, k - 1),
                via,
                out,
            ) == all;
        let child = just_inside(parents, read, k - 1);
        let id = parent_id(parents[k - 1]);
        assert(!(parents[k - 1] is Item));
        assert(just_inside(parents, read, k) == id);
        match parents[k - 1] {
            Parent::Expr(e) => match e.kind {
                ExprKind::If(cond, yes, no) => {
                    let next = if yes.id == child {
                        cond_facts(defs, base, *cond, true, out)
                    } else if no matches Some(x) && x.id == child {
                        cond_facts(defs, base, *cond, false, out)
                    } else {
                        out
                    };
                    assert(dominating(defs, base, parents, k, id, via, next) == all);
                },
                ExprKind::Match(scrutinee, _, _) => {
                    let next = match via {
                        Some(arm) => learned_of(
                            out,
                            sibling(base, *scrutinee),
                            admitted(defs, arm.pat),
                            true,
                        ),
                        None => out,
                    };
                    assert(dominating(defs, base, parents, k, id, None, next) == all);
                },
                _ => {
                    assert(dominating(defs, base, parents, k, id, via, out) == all);
                },
            },
            Parent::Arm(arm) => {
                assert(dominating(defs, base, parents, k, id, Some(*arm), out) == all);
            },
            Parent::Block(b) => {
                let next = guard_facts(defs, base, b.stmts@, ran_before(*b, child), out);
                assert(dominating(defs, base, parents, k, id, via, next) == all);
            },
            Parent::Item(_) => {},
            Parent::Other(_) => {
                assert(dominating(defs, base, parents, k, id, via, out) == all);
            },
        }
    }
}

/// A read inside a branch of an `if`, however deep, comes under what the
/// condition teaches: as holding in the first branch, as not holding in the
/// `else`.
pub proof fn lemma_branch_comes_under_its_condition(
    defs: Definitions,
    base: Expr,
    parents: Seq<Parent>,
    read: HirId,
    k: int,
    cond: Expr,
    yes: Expr,
    no: Option<Box<Expr>>,
)
    requires
        0 <= k < parents.len(),
        forall|j: int| 0 <= j < k ==> !(#[trigger] parents[j] is Item),
        parents[k] matches Parent::Expr(e) && e.kind == ExprKind::If(
            Box::new(cond),
            Box::new(yes),
            no,
        ),
    ensures
        yes.id == just_inside(parents, read, k) ==> tests_in(
            cond_facts(defs, base, cond, true, Seq::empty()),
            dominating(defs, base, parents, 0, read, None, Seq::empty()),
        ),
        yes.id != just_inside(parents, read, k) ==> (no matches Some(x) ==> (x.id == just_inside(
            parents,
            read,
            k,
        ) ==> tests_in(
            cond_facts(defs, base, cond, false, Seq::empty()),
            dominating(defs, base, parents, 0, read, None, Seq::empty()),
        ))),
{
    let all = dominating(defs, base, parents, 0, read, None, Seq::empty());
    lemma_gathered(defs, base, parents, read, k, all);
    let child = just_inside(parents, read, k);
    let (via, out) = choose|via: Option<Arm>, out: Seq<Test>| #[trigger]
        dominating(defs, base, parents, k, child, via, out) == all;
    lemma_conditions_only_add(defs, base, cond, true, Seq::empty(), out);
    lemma_conditions_only_add(defs, base, cond, false, Seq::empty(), out);
    let id = parent_id(parents[k]);
    lemma_dominating_grows(
        defs,
        base,
        parents,
        k + 1,
        id,
        via,
        cond_facts(defs, base, cond, true, out),
    );
    lemma_dominating_grows(
        defs,
        base,
        parents,
        k + 1,
        id,
        via,
        cond_facts(defs, base, cond, false, out),
    );
}

proof fn lemma_stmt_at(stmts: Seq<Stmt>, child: HirId, k: int, i: int)
    requires
        0 <= k <= i < stmts.len(),
        is_stmt(stmts[i], child),
        forall|j: int| k <= j < i ==> !is_stmt(#[trigger] stmts[j], child),
    ensures
        stmt_at(stmts, child, k) == Some(i),
    decreases i - k,
{
    if k < i {
        lemma_stmt_at(stmts, child, k + 1, i);
    }
}

proof fn lemma_no_stmt_at(stmts: Seq<Stmt>, child: HirId, k: int)
    requires
        0 <= k <= stmts.len(),
        forall|j: int| k <= j < stmts.len() ==> !is_stmt(#[trigger] stmts[j], child),
    ensures
        stmt_at(stmts, child, k) is None,
    decreases stmts.len() - k,
{
    if k < stmts.len() {
        lemma_no_stmt_at(stmts, child, k + 1);
    }
}

/// The statement at `i` runs before the node: that one is a later statement,
/// or the tail of the block.
pub open spec fn runs_before(b: Block, i: int, child: HirId) -> bool {
    &&& 0 <= i < b.stmts@.len()
    &&& (exists|k: int|
        i < k < b.stmts@.len() && ((#[trigger] b.stmts@[k]).id == child || (
        b.stmts@[k].kind matches StmtKind::Let(l) && l.id == child)) && forall|j: int|
            0 <= j < k ==> (#[trigger] b.stmts@[j]).id != child && !(
            b.stmts@[j].kind matches StmtKind::Let(l) && l.id == child)) || ((
    b.expr matches Some(e) && e.id == child) && forall|j: int|
        0 <= j < b.stmts@.len() ==> (#[trigger] b.stmts@[j]).id != child && !(
        b.stmts@[j].kind matches StmtKind::Let(l) && l.id == child))
}

/// A read further down the block than a guard comes under what the guard
/// leaves: the condition failed where its branch diverges, it held where its
/// `else` does.
pub proof fn lemma_read_comes_under_the_guards_before_it(
    defs: Definitions,
    base: Expr,
    parents: Seq<Parent>,
    read: HirId,
    k: int,
    b: Block,
    i: int,
    guard: Expr,
    cond: Expr,
    yes: Expr,
    no: Option<Box<Expr>>,
)
    requires
        0 <= k < parents.len(),
        forall|j: int| 0 <= j < k ==> !(#[trigger] parents[j] is Item),
        parents[k] matches Parent::Block(x) && *x == b,
        runs_before(b, i, just_inside(parents, read, k)),
        b.stmts@[i].kind == StmtKind::Expr(guard) || b.stmts@[i].kind == StmtKind::Semi(guard),
        guard.kind == ExprKind::If(Box::new(cond), Box::new(yes), no),
    ensures
        yes.ty is Never && !(no matches Some(x) && x.ty is Never) ==> tests_in(
            cond_facts(defs, base, cond, false, Seq::empty()),
            dominating(defs, base, parents, 0, read, None, Seq::empty()),
        ),
        !(yes.ty is Never) && (no matches Some(x) && x.ty is Never) ==> tests_in(
            cond_facts(defs, base, cond, true, Seq::empty()),
            dominating(defs, base, parents, 0, read, None, Seq::empty()),
        ),
{
    let all = dominating(defs, base, parents, 0, read, None, Seq::empty());
    lemma_gathered(defs, base, parents, read, k, all);
    let child = just_inside(parents, read, k);
    let (via, out) = choose|via: Option<Arm>, out: Seq<Test>| #[trigger]
        dominating(defs, base, parents, k, child, via, out) == all;
    lemma_runs_before(b, i, child);
    let n = ran_before(b, child);
    lemma_guard_kept(defs, base, b.stmts@, n, i, out);
    lemma_dominating_grows(
        defs,
        base,
        parents,
        k + 1,
        parent_id(parents[k]),
        via,
        guard_facts(defs, base, b.stmts@, n, out),
    );
    assert(stmt_facts(defs, base, b.stmts@[i], Seq::empty()) == ran_facts(
        defs,
        base,
        guard,
        Seq::empty(),
    ));
}

proof fn lemma_runs_before(b: Block, i: int, child: HirId)
    requires
        runs_before(b, i, child),
    ensures
        0 <= i < ran_before(b, child),
{
    if exists|k: int|
        i < k < b.stmts@.len() && ((#[trigger] b.stmts@[k]).id == child || (
        b.stmts@[k].kind matches StmtKind::Let(l) && l.id == child)) && forall|j: int|
            0 <= j < k ==> (#[trigger] b.stmts@[j]).id != child && !(
            b.stmts@[j].kind matches StmtKind::Let(l) && l.id == child) {
        let m = choose|k: int|
            i < k < b.stmts@.len() && ((#[trigger] b.stmts@[k]).id == child || (
            b.stmts@[k].kind matches StmtKind::Let(l) && l.id == child)) && forall|j: int|
                0 <= j < k ==> (#[trigger] b.stmts@[j]).id != child && !(
                b.stmts@[j].kind matches StmtKind::Let(l) && l.id == child);
        lemma_stmt_at(b.stmts@, child, 0, m);
    } else {
        lemma_no_stmt_at(b.stmts@, child, 0);
    }
}

/// A read below a `let .. else` of a sibling comes where the pattern matched.
pub proof fn lemma_read_comes_under_let_else(
    defs: Definitions,
    base: Expr,
    parents: Seq<Parent>,
    read: HirId,
    k: int,
    b: Block,
    i: int,
    field: Expr,
    name: Symbol,
    v: Value,
)
    requires
        0 <= k < parents.len(),
        forall|j: int| 0 <= j < k ==> !(#[trigger] parents[j] is Item),
        parents[k] matches Parent::Block(x) && *x == b,
        runs_before(b, i, just_inside(parents, read, k)),
        b.stmts@[i].kind matches StmtKind::Let(l) && l.els is Some && l.init == Some(
            Box::new(field),
        ) && admitted(defs, l.pat) == Some(v),
        is_sibling(base, field, name),
    ensures
        dominating(defs, base, parents, 0, read, None, Seq::empty()).contains(
            Test { sibling: name, value: v },
        ),
{
    let all = dominating(defs, base, parents, 0, read, None, Seq::empty());
    lemma_gathered(defs, base, parents, read, k, all);
    let child = just_inside(parents, read, k);
    let (via, out) = choose|via: Option<Arm>, out: Seq<Test>| #[trigger]
        dominating(defs, base, parents, k, child, via, out) == all;
    lemma_runs_before(b, i, child);
    let n = ran_before(b, child);
    lemma_guard_kept(defs, base, b.stmts@, n, i, out);
    lemma_dominating_grows(
        defs,
        base,
        parents,
        k + 1,
        parent_id(parents[k]),
        via,
        guard_facts(defs, base, b.stmts@, n, out),
    );
    assert(sibling(base, field) == Some(name));
    lemma_learned_grows(Seq::empty(), Seq::empty(), name, v, true);
    assert(stmt_facts(defs, base, b.stmts@[i], Seq::empty()) == learned(
        Seq::empty(),
        name,
        v,
        true,
    ));
}

/// A read inside an arm of a `match` on a sibling comes where the sibling is
/// what the arm's pattern admits.
pub proof fn lemma_arm_comes_under_its_pattern(
    defs: Definitions,
    base: Expr,
    parents: Seq<Parent>,
    read: HirId,
    k: int,
    arm: Arm,
    field: Expr,
    name: Symbol,
    v: Value,
)
    requires
        0 <= k && k + 1 < parents.len(),
        forall|j: int| 0 <= j < k ==> !(#[trigger] parents[j] is Item),
        parents[k] matches Parent::Arm(a) && *a == arm,
        parents[k + 1] matches Parent::Expr(e) && (e.kind matches ExprKind::Match(s, _, _) && *s
            == field),
        is_sibling(base, field, name),
        admitted(defs, arm.pat) == Some(v),
    ensures
        dominating(defs, base, parents, 0, read, None, Seq::empty()).contains(
            Test { sibling: name, value: v },
        ),
{
    let all = dominating(defs, base, parents, 0, read, None, Seq::empty());
    lemma_gathered(defs, base, parents, read, k, all);
    let child = just_inside(parents, read, k);
    let (via, out) = choose|via: Option<Arm>, out: Seq<Test>| #[trigger]
        dominating(defs, base, parents, k, child, via, out) == all;
    let next = learned(out, name, v, true);
    assert(sibling(base, field) == Some(name));
    lemma_learned_grows(out, out, name, v, true);
    lemma_dominating_grows(
        defs,
        base,
        parents,
        k + 2,
        parent_id(parents[k + 1]),
        None,
        next,
    );
    assert(dominating(
        defs,
        base,
        parents,
        k + 1,
        parent_id(parents[k]),
        Some(arm),
        out,
    ) == all);
}

// ---------------------------------------------------------------- what is reported

/// The sites say the field is the payload of one case of the test's sibling:
/// some site, or an assignment, can make the tested case; some site that makes
/// another gives the field a placeholder, and none gives it a real value.
pub open spec fn payload_of(s: DependentView, did: DefId, field: Symbol, t: Test) -> bool {
    &&& t.sibling != field
    &&& s.assigned.contains((did, t.sibling)) || exists|k: int|
        0 <= k < s.sites.len() && (#[trigger] s.sites[k]).adt == did && (value_at(
            s.sites[k].inits,
            t.sibling,
        ) matches Some(i) && (i.value is None || i.value == Some(t.value)))
    &&& exists|k: int|
        0 <= k < s.sites.len() && (#[trigger] s.sites[k]).adt == did && (value_at(
            s.sites[k].inits,
            t.sibling,
        ) matches Some(i) && (i.value matches Some(v) && v != t.value)) && (value_at(
            s.sites[k].inits,
            field,
        ) matches Some(j) && j.placeholder)
    &&& forall|k: int|
        0 <= k < s.sites.len() && (#[trigger] s.sites[k]).adt == did && (value_at(
            s.sites[k].inits,
            t.sibling,
        ) matches Some(i) && (i.value matches Some(v) && v != t.value)) ==> !(value_at(
            s.sites[k].inits,
            field,
        ) matches Some(j) && !j.placeholder)
}

proof fn lemma_placeholder_counted(
    sites: Seq<SiteView>,
    did: DefId,
    field: Symbol,
    t: Test,
)
    ensures
        placeholder_count(sites, did, field, t) > 0 <==> exists|k: int|
            0 <= k < sites.len() && fills_placeholder(#[trigger] sites[k], did, field, t),
    decreases sites.len(),
{
    if sites.len() > 0 {
        let front = sites.drop_last();
        lemma_placeholder_counted(front, did, field, t);
        if placeholder_count(front, did, field, t) > 0 {
            let k = choose|k: int|
                0 <= k < front.len() && fills_placeholder(#[trigger] front[k], did, field, t);
            assert(fills_placeholder(sites[k], did, field, t));
        }
        if exists|k: int|
            0 <= k < sites.len() && fills_placeholder(#[trigger] sites[k], did, field, t) {
            let k = choose|k: int|
                0 <= k < sites.len() && fills_placeholder(#[trigger] sites[k], did, field, t);
            if k < front.len() {
                assert(fills_placeholder(front[k], did, field, t));
            }
        }
        assert(sites[sites.len() - 1] == sites.last());
    }
}

proof fn lemma_payload(s: DependentView, did: DefId, field: Symbol, t: Test)
    ensures
        depends(s, did, field, t) <==> payload_of(s, did, field, t),
{
    lemma_placeholder_counted(s.sites, did, field, t);
    if payload_of(s, did, field, t) {
        let k = choose|k: int|
            0 <= k < s.sites.len() && (#[trigger] s.sites[k]).adt == did && (value_at(
                s.sites[k].inits,
                t.sibling,
            ) matches Some(i) && (i.value matches Some(v) && v != t.value)) && (value_at(
                s.sites[k].inits,
                field,
            ) matches Some(j) && j.placeholder);
        assert(fills_placeholder(s.sites[k], did, field, t));
        if !s.assigned.contains((did, t.sibling)) {
            let m = choose|k: int|
                0 <= k < s.sites.len() && (#[trigger] s.sites[k]).adt == did && (value_at(
                    s.sites[k].inits,
                    t.sibling,
                ) matches Some(i) && (i.value is None || i.value == Some(t.value)));
            assert(site_reaches(s.sites[m], did, t));
        }
        if some_real(s.sites, did, field, t) {
            let m = choose|k: int|
                0 <= k < s.sites.len() && fills_real(#[trigger] s.sites[k], did, field, t);
            assert(s.sites[m].adt == did);
        }
    }
    if depends(s, did, field, t) {
        let k = choose|k: int|
            0 <= k < s.sites.len() && fills_placeholder(#[trigger] s.sites[k], did, field, t);
        assert(s.sites[k].adt == did);
        if !s.assigned.contains((did, t.sibling)) {
            let m = choose|k: int|
                0 <= k < s.sites.len() && site_reaches(#[trigger] s.sites[k], did, t);
            assert(s.sites[m].adt == did);
        }
        assert forall|k: int|
            0 <= k < s.sites.len() && (#[trigger] s.sites[k]).adt == did && (value_at(
                s.sites[k].inits,
                t.sibling,
            ) matches Some(i) && (i.value matches Some(v) && v != t.value)) implies !(value_at(
            s.sites[k].inits,
            field,
        ) matches Some(j) && !j.placeholder) by {
            assert(!fills_real(s.sites[k], did, field, t));
        }
    }
}

proof fn lemma_in_both_keeps(a: Seq<Test>, b: Seq<Test>, t: Test)
    requires
        a.contains(t),
        b.contains(t),
    ensures
        in_both(a, b).contains(t),
    decreases a.len(),
{
    let i = choose|i: int| 0 <= i < a.len() && a[i] == t;
    let front = a.drop_last();
    let before = in_both(front, b);
    let all = in_both(a, b);
    if i == a.len() - 1 {
        assert(all[all.len() - 1] == t);
    } else {
        assert(front[i] == t);
        lemma_in_both_keeps(front, b, t);
        let j = choose|j: int| 0 <= j < before.len() && before[j] == t;
        assert(all[j] == t);
    }
}

proof fn lemma_agreed_keeps(rs: Seq<Seq<Test>>, t: Test)
    requires
        rs.len() > 0,
        forall|i: int| 0 <= i < rs.len() ==> (#[trigger] rs[i]).contains(t),
    ensures
        agreed(rs).contains(t),
    decreases rs.len(),
{
    assert(rs[0].contains(t));
    if rs.len() > 1 {
        let front = rs.drop_last();
        assert forall|i: int| 0 <= i < front.len() implies (#[trigger] front[i]).contains(t) by {
            assert(rs[i] == front[i]);
        }
        lemma_agreed_keeps(front, t);
        assert(rs[rs.len() - 1].contains(t));
        lemma_in_both_keeps(agreed(front), rs.last(), t);
    }
}

proof fn lemma_listed_read(reads: Seq<ReadView>, did: DefId, field: Symbol, i: int)
    requires
        0 <= i < reads_of(reads, did, field).len(),
    ensures
        exists|k: int|
            0 <= k < reads.len() && (#[trigger] reads[k]).adt == did && reads[k].field == field
                && reads[k].tests == reads_of(reads, did, field)[i],
    decreases reads.len(),
{
    let front = reads.drop_last();
    let before = reads_of(front, did, field);
    if i < before.len() {
        lemma_listed_read(front, did, field, i);
        let k = choose|k: int|
            0 <= k < front.len() && (#[trigger] front[k]).adt == did && front[k].field == field
                && front[k].tests == before[i];
        assert(reads[k] == front[k]);
    } else {
        assert(reads[reads.len() - 1].tests == reads_of(reads, did, field)[i]);
    }
}

proof fn lemma_some_chosen(
    names: Seq<Symbol>,
    s: DependentView,
    did: DefId,
    field: Symbol,
    tests: Seq<Test>,
    k: int,
    i: int,
)
    requires
        0 <= i < k <= tests.len(),
        depends(s, did, field, tests[i]),
    ensures
        chosen(names, s, did, field, tests, k) is Some,
    decreases k,
{
    if i < k - 1 {
        lemma_some_chosen(names, s, did, field, tests, k - 1, i);
    }
}

proof fn lemma_field_listed(reads: Seq<ReadView>, k: int, i: int)
    requires
        0 <= i < k <= reads.len(),
    ensures
        fields_read(reads, k).contains((reads[i].adt, reads[i].field)),
    decreases k,
{
    crate::table::lemma_added(
        fields_read(reads, k - 1),
        (reads[k - 1].adt, reads[k - 1].field),
    );
    if i < k - 1 {
        lemma_field_listed(reads, k - 1, i);
    }
}

proof fn lemma_field_reported(
    defs: Definitions,
    s: DependentView,
    fields: Seq<(DefId, Symbol)>,
    k: int,
    m: int,
)
    requires
        0 <= m < k <= fields.len(),
        field_finding(defs, s, fields[m].0, fields[m].1) is Some,
    ensures
        field_findings(defs, s, fields, k).contains(
            field_finding(defs, s, fields[m].0, fields[m].1)->Some_0,
        ),
    decreases k,
{
    let x = field_finding(defs, s, fields[m].0, fields[m].1)->Some_0;
    let all = field_findings(defs, s, fields, k);
    let before = field_findings(defs, s, fields, k - 1);
    if m == k - 1 {
        assert(all[all.len() - 1] == x);
    } else {
        lemma_field_reported(defs, s, fields, k - 1, m);
        let i = choose|i: int| 0 <= i < before.len() && before[i] == x;
        assert(all[i] == x);
    }
}

/// A field that is read, only ever where one test of a sibling holds, and that
/// is the payload of the tested case, is reported at its declaration.
pub proof fn lemma_flat_payload_is_reported(
    defs: Definitions,
    s: DependentView,
    did: DefId,
    field: Symbol,
    t: Test,
    k: int,
)
    requires
        0 <= k < s.reads.len(),
        s.reads[k].adt == did,
        s.reads[k].field == field,
        forall|j: int|
            0 <= j < s.reads.len() && (#[trigger] s.reads[j]).adt == did && s.reads[j].field
                == field ==> s.reads[j].tests.contains(t),
        payload_of(s, did, field, t),
        struct_field_at(defs, did, field) is Some,
    ensures
        exists|i: int|
            0 <= i < dependent_findings(defs, s).len() && (#[trigger] dependent_findings(
                defs,
                s,
            )[i]).lint == Lint::DependentField && dependent_findings(defs, s)[i].at
                == struct_field_at(defs, did, field)->Some_0.span,
{
    let rs = reads_of(s.reads, did, field);
    lemma_read_listed(s.reads, did, field, k);
    assert forall|i: int| 0 <= i < rs.len() implies (#[trigger] rs[i]).contains(t) by {
        lemma_listed_read(s.reads, did, field, i);
        let j = choose|j: int|
            0 <= j < s.reads.len() && (#[trigger] s.reads[j]).adt == did && s.reads[j].field
                == field && s.reads[j].tests == rs[i];
        assert(s.reads[j].tests.contains(t));
    }
    lemma_agreed_keeps(rs, t);
    lemma_payload(s, did, field, t);
    let tests = agreed(rs);
    let at = choose|i: int| 0 <= i < tests.len() && tests[i] == t;
    lemma_some_chosen(
        field_names(defs, did),
        s,
        did,
        field,
        tests,
        tests.len() as int,
        at,
    );
    let x = field_finding(defs, s, did, field)->Some_0;
    let n = s.reads.len() as int;
    lemma_field_listed(s.reads, n, k);
    let fields = fields_read(s.reads, n);
    let m = choose|m: int| 0 <= m < fields.len() && fields[m] == (did, field);
    lemma_field_reported(defs, s, fields, fields.len() as int, m);
    let all = field_findings(defs, s, fields, fields.len() as int);
    crate::report::lemma_position_keeps(all);
    assert(dependent_findings(defs, s).contains(x));
    let i = choose|i: int|
        0 <= i < dependent_findings(defs, s).len() && dependent_findings(defs, s)[i] == x;
    assert(dependent_findings(defs, s)[i].lint == Lint::DependentField);
}

/// Only such a field is: there is a test every read of it comes under, and it
/// is the payload of the tested case.
pub proof fn lemma_reported_field_is_a_flat_payload(
    defs: Definitions,
    s: DependentView,
    did: DefId,
    field: Symbol,
)
    requires
        field_finding(defs, s, did, field) is Some,
    ensures
        exists|t: Test| #[trigger]
            payload_of(s, did, field, t) && forall|j: int|
                0 <= j < s.reads.len() && (#[trigger] s.reads[j]).adt == did && s.reads[j].field
                    == field ==> s.reads[j].tests.contains(t),
{
    lemma_reported_field_depends(defs, s, did, field);
    let t = choose|t: Test| #[trigger]
        always_tested(s, did, field, t) && depends(s, did, field, t);
    lemma_payload(s, did, field, t);
}

/// The struct is the crate's own and private, lays its fields out freely, and
/// has at least two, by name.
pub open spec fn own_record(defs: Definitions, did: DefId) -> bool {
    &&& defs.at(did) matches Some(d) && d.is_local && !d.is_exported && (d.adt matches Some(a)
        && a.kind == crate::defs::AdtKind::Struct && !a.repr.c && !a.repr.packed
        && !a.repr.transparent && !a.repr.simd && !a.repr.int)
    &&& defs.fields(did).len() >= 2
    &&& forall|i: int|
        0 <= i < defs.fields(did).len() ==> ({
            let name = defs.text((#[trigger] defs.fields(did)[i]).name);
            name.len() == 0 || !('0' <= name[0] <= '9')
        })
}

proof fn lemma_relevant(defs: Definitions, ty: Ty, did: DefId)
    requires
        crate::ty::adt_id(crate::ty::peeled(ty)) == Some(did),
    ensures
        relevant(defs, ty) == if own_record(defs, did) {
            Some(did)
        } else {
            None
        },
{
    if positional(defs, defs.fields(did)) {
        let i = choose|i: int|
            0 <= i < defs.fields(did).len() && crate::adt_facts::starts_with_digit(
                defs.text((#[trigger] defs.fields(did)[i]).name),
            );
        assert(crate::adt_facts::starts_with_digit(defs.text(defs.fields(did)[i].name)));
    } else if own_record(defs, did) {
    } else {
        assert forall|i: int| 0 <= i < defs.fields(did).len() implies ({
            let name = defs.text((#[trigger] defs.fields(did)[i]).name);
            name.len() == 0 || !('0' <= name[0] <= '9')
        }) by {
            assert(!crate::adt_facts::starts_with_digit(defs.text(defs.fields(did)[i].name)));
        }
    }
}

/// Every construction of such a struct that names all its fields is on record
/// with what it gives each; a record update is not.
pub proof fn lemma_construction_is_recorded(
    defs: Definitions,
    s: DependentView,
    e: Expr,
    parents: Seq<Parent>,
    did: DefId,
    fields: Seq<FieldInit>,
    tail: StructTail,
)
    requires
        e.kind matches ExprKind::Struct(_, fs, t) && fs@ == fields && t == tail,
        crate::ty::adt_id(crate::ty::peeled(e.ty)) == Some(did),
        own_record(defs, did),
    ensures
        tail is Nothing ==> ({
            let sites = after_expr(defs, s, e, parents).sites;
            &&& sites.len() == s.sites.len() + 1
            &&& sites.last().adt == did
            &&& sites.last().inits.len() == fields.len()
            &&& forall|i: int|
                0 <= i < fields.len() ==> (#[trigger] sites.last().inits[i]).0 == fields[i].name
                    && sites.last().inits[i].1.value == spelled_value(defs, fields[i].value)
                    && sites.last().inits[i].1.placeholder == placeholder(defs, fields[i].value)
        }),
        !(tail is Nothing) ==> after_expr(defs, s, e, parents) == s,
{
    lemma_relevant(defs, e.ty, did);
}

/// What `Default` would give is a placeholder, and so is a null pointer.
pub proof fn lemma_placeholders(defs: Definitions, e: Expr, f: Expr, d: DefId)
    ensures
        e.default_equivalent ==> placeholder(defs, e),
        (e.kind matches ExprKind::Call(g, args) && *g == f && args@.len() == 0 && (
        f.kind matches ExprKind::Path(p) && (p.res matches crate::hir::Res::Def(_, x) && x == d))
            && (defs.known(d) == Known::PtrNull || defs.known(d) == Known::PtrNullMut))
            ==> placeholder(defs, e),
        !e.default_equivalent && !(e.kind is Call) ==> !placeholder(defs, e),
{
}

/// Every read of a field of such a struct is on record with the tests it comes
/// under; an assignment to it is recorded as one, and what a derive wrote is
/// passed over.
pub proof fn lemma_read_is_recorded(
    defs: Definitions,
    s: DependentView,
    e: Expr,
    parents: Seq<Parent>,
    base: Expr,
    name: Symbol,
    did: DefId,
)
    requires
        e.kind == ExprKind::Field(Box::new(base), name),
        crate::ty::adt_id(crate::ty::peeled(base.adjusted)) == Some(did),
        own_record(defs, did),
        struct_field_at(defs, did, name) is Some,
    ensures
        e.origin.in_derive ==> after_expr(defs, s, e, parents) == s,
        !e.origin.in_derive && parents.len() > 0 && (parents[0] matches Parent::Expr(p) && (
        p.kind matches ExprKind::Assign(l, _) && l.id == e.id)) ==> after_expr(
            defs,
            s,
            e,
            parents,
        ).assigned.contains((did, name)) && after_expr(defs, s, e, parents).reads == s.reads,
        !e.origin.in_derive && !(parents.len() > 0 && (parents[0] matches Parent::Expr(p) && (
        p.kind matches ExprKind::Assign(l, _) && l.id == e.id))) ==> after_expr(
            defs,
            s,
            e,
            parents,
        ).reads == s.reads.push(
            ReadView {
                adt: did,
                field: name,
                tests: dominating(defs, base, parents, 0, e.id, None, Seq::empty()),
            },
        ),
{
    lemma_relevant(defs, base.adjusted, did);
    crate::table::lemma_added(s.assigned, (did, name));
}

/// A pattern that takes a struct apart reads each field it names with nothing
/// tested.
pub proof fn lemma_destructuring_is_a_bare_read(
    defs: Definitions,
    s: DependentView,
    p: Pat,
    did: DefId,
    i: int,
)
    requires
        crate::ty::adt_id(crate::ty::peeled(p.ty)) == Some(did),
        own_record(defs, did),
        !p.in_derive,
        p.kind matches PatKind::Struct(_, fs) && 0 <= i < fs@.len(),
    ensures
        p.kind matches PatKind::Struct(_, fs) && after_pat(defs, s, p).reads.contains(
            ReadView { adt: did, field: fs@[i].name, tests: Seq::empty() },
        ),
{
    lemma_relevant(defs, p.ty, did);
    match p.kind {
        PatKind::Struct(_, fs) => {
            let more = bare_reads(did, fs@);
            let all = s.reads + more;
            assert(all[s.reads.len() + i] == more[i]);
        },
        _ => {},
    }
}

/// A literal that takes the rest from another value, code a derive wrote, and
/// a type that is not looked at leave nothing on record.
pub proof fn lemma_what_is_not_recorded(
    defs: Definitions,
    s: DependentView,
    e: Expr,
    parents: Seq<Parent>,
)
    ensures
        (e.kind matches ExprKind::Struct(_, _, tail) && !(tail is Nothing)) ==> after_expr(
            defs,
            s,
            e,
            parents,
        ) == s,
        (e.kind is Struct && relevant(defs, e.ty) is None) ==> after_expr(defs, s, e, parents) == s,
        e.kind is Field && e.origin.in_derive ==> after_expr(defs, s, e, parents) == s,
        e.kind matches ExprKind::Field(base, _) ==> (relevant(defs, base.adjusted) is None
            ==> after_expr(defs, s, e, parents) == s),
        !(e.kind is Struct) && !(e.kind is Field) ==> after_expr(defs, s, e, parents) == s,
{
}

} // verus!
