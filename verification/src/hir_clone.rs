//! Which local of one body stands for which of another when two pieces of code
//! are compared up to renaming: the bindings of two parameter lists in source
//! order, or the locals two expressions read from outside themselves in order
//! of first use.

use crate::defs::{FnSig, Input};
use crate::hir::{
    Arm, Block, Expr, ExprKind, FieldInit, FieldPat, Pat, PatKind, QPath, Res, Stmt, StmtKind,
    StructTail,
};
use crate::ids::HirId;
use crate::table::{find_key, is_in, value_at};
use crate::ty::{ty_eq, Ty};
use vstd::prelude::*;

verus! {

// ---------------------------------------------------------------- bindings

/// The bindings a pattern introduces, in source order, of an or-pattern only
/// those of its first alternative.
pub open spec fn bindings(p: Pat) -> Seq<HirId>
    decreases p,
{
    match p.kind {
        PatKind::Wild => Seq::empty(),
        PatKind::Binding(id, _, sub) => seq![id] + match sub {
            Some(q) => bindings(*q),
            None => Seq::empty(),
        },
        PatKind::Path(_) => Seq::empty(),
        PatKind::Lit(_, _) => Seq::empty(),
        PatKind::TupleStruct(_, ps) => all_bindings(ps@),
        PatKind::Struct(_, fs) => field_bindings(fs@),
        PatKind::Or(ps) => if ps@.len() > 0 {
            bindings(ps@[0])
        } else {
            Seq::empty()
        },
        PatKind::Ref(q) => bindings(*q),
        PatKind::Deref(q) => bindings(*q),
        PatKind::BoxOf(q) => bindings(*q),
        PatKind::Sequence(ps, _) => all_bindings(ps@),
        PatKind::Other(ps) => all_bindings(ps@),
    }
}

pub open spec fn all_bindings(ps: Seq<Pat>) -> Seq<HirId>
    decreases ps,
{
    if ps.len() == 0 {
        Seq::empty()
    } else {
        bindings(ps[0]) + all_bindings(ps.drop_first())
    }
}

pub open spec fn field_bindings(fs: Seq<FieldPat>) -> Seq<HirId>
    decreases fs,
{
    if fs.len() == 0 {
        Seq::empty()
    } else {
        bindings(fs[0].pat) + field_bindings(fs.drop_first())
    }
}

fn collect_bindings(p: &Pat, out: &mut Vec<HirId>)
    ensures
        final(out)@ == old(out)@ + bindings(*p),
    decreases p, 0nat,
{
    let ghost start = out@;
    match &p.kind {
        PatKind::Wild => {},
        PatKind::Binding(id, _, sub) => {
            out.push(*id);
            match sub {
                Some(q) => collect_bindings(q, out),
                None => {},
            }
        },
        PatKind::Path(_) => {},
        PatKind::Lit(_, _) => {},
        PatKind::TupleStruct(_, ps) => collect_all_bindings(ps, 0, out),
        PatKind::Struct(_, fs) => collect_field_bindings(fs, 0, out),
        PatKind::Or(ps) => {
            if ps.len() > 0 {
                assert(decreases_to!(ps => ps@[0]));
                collect_bindings(&ps[0], out);
            }
        },
        PatKind::Ref(q) => collect_bindings(q, out),
        PatKind::Deref(q) => collect_bindings(q, out),
        PatKind::BoxOf(q) => collect_bindings(q, out),
        PatKind::Sequence(ps, _) => collect_all_bindings(ps, 0, out),
        PatKind::Other(ps) => collect_all_bindings(ps, 0, out),
    }
    assert(out@ =~= start + bindings(*p));
}

fn collect_all_bindings(ps: &Vec<Pat>, from: usize, out: &mut Vec<HirId>)
    requires
        from <= ps@.len(),
    ensures
        final(out)@ == old(out)@ + all_bindings(ps@.skip(from as int)),
        from == 0 ==> final(out)@ == old(out)@ + all_bindings(ps@),
    decreases ps, ps@.len() - from,
{
    let ghost start = out@;
    assert(from == 0 ==> ps@.skip(0) =~= ps@);
    if from < ps.len() {
        assert(ps@.skip(from as int).drop_first() =~= ps@.skip(from + 1));
        collect_bindings(&ps[from], out);
        collect_all_bindings(ps, from + 1, out);
    }
    assert(out@ =~= start + all_bindings(ps@.skip(from as int)));
}

fn collect_field_bindings(fs: &Vec<FieldPat>, from: usize, out: &mut Vec<HirId>)
    requires
        from <= fs@.len(),
    ensures
        final(out)@ == old(out)@ + field_bindings(fs@.skip(from as int)),
        from == 0 ==> final(out)@ == old(out)@ + field_bindings(fs@),
    decreases fs, fs@.len() - from,
{
    let ghost start = out@;
    assert(from == 0 ==> fs@.skip(0) =~= fs@);
    if from < fs.len() {
        assert(fs@.skip(from as int).drop_first() =~= fs@.skip(from + 1));
        assert(decreases_to!(fs => fs@[from as int]));
        collect_bindings(&fs[from].pat, out);
        collect_field_bindings(fs, from + 1, out);
    }
    assert(out@ =~= start + field_bindings(fs@.skip(from as int)));
}

/// The bindings a body's parameter patterns introduce, in source order.
pub fn param_bindings(params: &Vec<Pat>) -> (r: Vec<HirId>)
    ensures
        r@ == all_bindings(params@),
{
    let mut out: Vec<HirId> = Vec::new();
    collect_all_bindings(params, 0, &mut out);
    assert(out@ =~= all_bindings(params@));
    out
}

// ---------------------------------------------------------------- locals

/// A local bound or read.
#[derive(Clone, Copy, Debug, PartialEq, Eq, Structural)]
pub enum Touch {
    Bind(HirId),
    Read(HirId),
}

/// The bindings of a pattern, of every alternative.
pub open spec fn pat_touches(p: Pat) -> Seq<Touch>
    decreases p,
{
    match p.kind {
        PatKind::Wild => Seq::empty(),
        PatKind::Binding(id, _, sub) => seq![Touch::Bind(id)] + match sub {
            Some(q) => pat_touches(*q),
            None => Seq::empty(),
        },
        PatKind::Path(_) => Seq::empty(),
        PatKind::Lit(_, _) => Seq::empty(),
        PatKind::TupleStruct(_, ps) => pats_touches(ps@),
        PatKind::Struct(_, fs) => field_pats_touches(fs@),
        PatKind::Or(ps) => pats_touches(ps@),
        PatKind::Ref(q) => pat_touches(*q),
        PatKind::Deref(q) => pat_touches(*q),
        PatKind::BoxOf(q) => pat_touches(*q),
        PatKind::Sequence(ps, _) => pats_touches(ps@),
        PatKind::Other(ps) => pats_touches(ps@),
    }
}

pub open spec fn pats_touches(ps: Seq<Pat>) -> Seq<Touch>
    decreases ps,
{
    if ps.len() == 0 {
        Seq::empty()
    } else {
        pat_touches(ps[0]) + pats_touches(ps.drop_first())
    }
}

pub open spec fn field_pats_touches(fs: Seq<FieldPat>) -> Seq<Touch>
    decreases fs,
{
    if fs.len() == 0 {
        Seq::empty()
    } else {
        pat_touches(fs[0].pat) + field_pats_touches(fs.drop_first())
    }
}

/// The local a path reads.
pub open spec fn path_touches(p: QPath) -> Seq<Touch> {
    if p.type_relative || p.has_self {
        Seq::empty()
    } else {
        match p.res {
            Res::Local(id) => seq![Touch::Read(id)],
            _ => Seq::empty(),
        }
    }
}

/// The locals an expression binds and reads, in evaluation order. Closure
/// bodies are bodies of their own.
pub open spec fn touches(e: Expr) -> Seq<Touch>
    decreases e,
{
    match e.kind {
        ExprKind::Path(p) => path_touches(p),
        ExprKind::Lit(_) => Seq::empty(),
        ExprKind::Unary(_, a) => touches(*a),
        ExprKind::Binary(_, a, b) => touches(*a) + touches(*b),
        ExprKind::Cast(a) => touches(*a),
        ExprKind::AddrOf(_, _, a) => touches(*a),
        ExprKind::DropTemps(a) => touches(*a),
        ExprKind::Field(a, _) => touches(*a),
        ExprKind::Index(a, b) => touches(*a) + touches(*b),
        ExprKind::Call(f, args) => touches(*f) + all_touches(args@),
        ExprKind::MethodCall(_, recv, args) => touches(*recv) + all_touches(args@),
        ExprKind::Struct(_, fields, tail) => init_touches(fields@) + match tail {
            StructTail::Base(b) => touches(*b),
            _ => Seq::empty(),
        },
        ExprKind::If(c, t, els) => touches(*c) + touches(*t) + match els {
            Some(x) => touches(*x),
            None => Seq::empty(),
        },
        ExprKind::Let(p, init) => touches(*init) + pat_touches(p),
        ExprKind::Match(scrut, arms, _) => touches(*scrut) + arm_touches(arms@),
        ExprKind::Block(b) => block_touches(b),
        ExprKind::Ret(v) => match v {
            Some(x) => touches(*x),
            None => Seq::empty(),
        },
        ExprKind::Break(_, v) => match v {
            Some(x) => touches(*x),
            None => Seq::empty(),
        },
        ExprKind::Assign(l, r) => touches(*r) + touches(*l),
        ExprKind::AssignOp(l, r) => touches(*r) + touches(*l),
        ExprKind::Array(items) => all_touches(items@),
        ExprKind::Range(lo, hi) => (match lo {
            Some(x) => touches(*x),
            None => Seq::empty(),
        }) + (match hi {
            Some(x) => touches(*x),
            None => Seq::empty(),
        }),
        ExprKind::Closure(_, _) => Seq::empty(),
        ExprKind::Other(items) => all_touches(items@),
    }
}

pub open spec fn all_touches(es: Seq<Expr>) -> Seq<Touch>
    decreases es,
{
    if es.len() == 0 {
        Seq::empty()
    } else {
        touches(es[0]) + all_touches(es.drop_first())
    }
}

pub open spec fn init_touches(fs: Seq<FieldInit>) -> Seq<Touch>
    decreases fs,
{
    if fs.len() == 0 {
        Seq::empty()
    } else {
        touches(fs[0].value) + init_touches(fs.drop_first())
    }
}

pub open spec fn arm_touches(arms: Seq<Arm>) -> Seq<Touch>
    decreases arms,
{
    if arms.len() == 0 {
        Seq::empty()
    } else {
        pat_touches(arms[0].pat) + (match arms[0].guard {
            Some(g) => touches(*g),
            None => Seq::empty(),
        }) + touches(arms[0].body) + arm_touches(arms.drop_first())
    }
}

pub open spec fn block_touches(b: Block) -> Seq<Touch>
    decreases b,
{
    stmt_touches(b.stmts@) + match b.expr {
        Some(x) => touches(*x),
        None => Seq::empty(),
    }
}

pub open spec fn stmt_touches(ss: Seq<Stmt>) -> Seq<Touch>
    decreases ss,
{
    if ss.len() == 0 {
        Seq::empty()
    } else {
        (match ss[0].kind {
            StmtKind::Let(l) => (match l.init {
                Some(x) => touches(*x),
                None => Seq::empty(),
            }) + pat_touches(l.pat) + match l.els {
                Some(b) => block_touches(b),
                None => Seq::empty(),
            },
            StmtKind::Item => Seq::empty(),
            StmtKind::Expr(x) => touches(x),
            StmtKind::Semi(x) => touches(x),
        }) + stmt_touches(ss.drop_first())
    }
}

fn collect_pat(p: &Pat, out: &mut Vec<Touch>)
    ensures
        final(out)@ == old(out)@ + pat_touches(*p),
    decreases p, 0nat,
{
    let ghost start = out@;
    match &p.kind {
        PatKind::Wild => {},
        PatKind::Binding(id, _, sub) => {
            out.push(Touch::Bind(*id));
            match sub {
                Some(q) => collect_pat(q, out),
                None => {},
            }
        },
        PatKind::Path(_) => {},
        PatKind::Lit(_, _) => {},
        PatKind::TupleStruct(_, ps) => collect_pats(ps, 0, out),
        PatKind::Struct(_, fs) => collect_field_pats(fs, 0, out),
        PatKind::Or(ps) => collect_pats(ps, 0, out),
        PatKind::Ref(q) => collect_pat(q, out),
        PatKind::Deref(q) => collect_pat(q, out),
        PatKind::BoxOf(q) => collect_pat(q, out),
        PatKind::Sequence(ps, _) => collect_pats(ps, 0, out),
        PatKind::Other(ps) => collect_pats(ps, 0, out),
    }
    assert(out@ =~= start + pat_touches(*p));
}

fn collect_pats(ps: &Vec<Pat>, from: usize, out: &mut Vec<Touch>)
    requires
        from <= ps@.len(),
    ensures
        final(out)@ == old(out)@ + pats_touches(ps@.skip(from as int)),
        from == 0 ==> final(out)@ == old(out)@ + pats_touches(ps@),
    decreases ps, ps@.len() - from,
{
    let ghost start = out@;
    assert(from == 0 ==> ps@.skip(0) =~= ps@);
    if from < ps.len() {
        assert(ps@.skip(from as int).drop_first() =~= ps@.skip(from + 1));
        collect_pat(&ps[from], out);
        collect_pats(ps, from + 1, out);
    }
    assert(out@ =~= start + pats_touches(ps@.skip(from as int)));
}

fn collect_field_pats(fs: &Vec<FieldPat>, from: usize, out: &mut Vec<Touch>)
    requires
        from <= fs@.len(),
    ensures
        final(out)@ == old(out)@ + field_pats_touches(fs@.skip(from as int)),
        from == 0 ==> final(out)@ == old(out)@ + field_pats_touches(fs@),
    decreases fs, fs@.len() - from,
{
    let ghost start = out@;
    assert(from == 0 ==> fs@.skip(0) =~= fs@);
    if from < fs.len() {
        assert(fs@.skip(from as int).drop_first() =~= fs@.skip(from + 1));
        assert(decreases_to!(fs => fs@[from as int]));
        collect_pat(&fs[from].pat, out);
        collect_field_pats(fs, from + 1, out);
    }
    assert(out@ =~= start + field_pats_touches(fs@.skip(from as int)));
}

fn collect_expr(e: &Expr, out: &mut Vec<Touch>)
    ensures
        final(out)@ == old(out)@ + touches(*e),
    decreases e, 0nat,
{
    let ghost start = out@;
    match &e.kind {
        ExprKind::Path(p) => {
            if !p.type_relative && !p.has_self {
                match p.res {
                    Res::Local(id) => out.push(Touch::Read(id)),
                    _ => {},
                }
            }
        },
        ExprKind::Lit(_) => {},
        ExprKind::Unary(_, a) => collect_expr(a, out),
        ExprKind::Binary(_, a, b) => {
            collect_expr(a, out);
            collect_expr(b, out);
        },
        ExprKind::Cast(a) => collect_expr(a, out),
        ExprKind::AddrOf(_, _, a) => collect_expr(a, out),
        ExprKind::DropTemps(a) => collect_expr(a, out),
        ExprKind::Field(a, _) => collect_expr(a, out),
        ExprKind::Index(a, b) => {
            collect_expr(a, out);
            collect_expr(b, out);
        },
        ExprKind::Call(f, args) => {
            collect_expr(f, out);
            collect_exprs(args, 0, out);
        },
        ExprKind::MethodCall(_, recv, args) => {
            collect_expr(recv, out);
            collect_exprs(args, 0, out);
        },
        ExprKind::Struct(_, fields, tail) => {
            collect_inits(fields, 0, out);
            match tail {
                StructTail::Base(b) => collect_expr(b, out),
                _ => {},
            }
        },
        ExprKind::If(c, t, els) => {
            collect_expr(c, out);
            collect_expr(t, out);
            match els {
                Some(x) => collect_expr(x, out),
                None => {},
            }
        },
        ExprKind::Let(p, init) => {
            collect_expr(init, out);
            collect_pat(p, out);
        },
        ExprKind::Match(scrut, arms, _) => {
            collect_expr(scrut, out);
            collect_arms(arms, 0, out);
        },
        ExprKind::Block(b) => collect_block(b, out),
        ExprKind::Ret(v) => {
            match v {
                Some(x) => collect_expr(x, out),
                None => {},
            }
        },
        ExprKind::Break(_, v) => {
            match v {
                Some(x) => collect_expr(x, out),
                None => {},
            }
        },
        ExprKind::Assign(l, r) => {
            collect_expr(r, out);
            collect_expr(l, out);
        },
        ExprKind::AssignOp(l, r) => {
            collect_expr(r, out);
            collect_expr(l, out);
        },
        ExprKind::Array(items) => collect_exprs(items, 0, out),
        ExprKind::Range(lo, hi) => {
            match lo {
                Some(x) => collect_expr(x, out),
                None => {},
            }
            match hi {
                Some(x) => collect_expr(x, out),
                None => {},
            }
        },
        ExprKind::Closure(_, _) => {},
        ExprKind::Other(items) => collect_exprs(items, 0, out),
    }
    assert(out@ =~= start + touches(*e));
}

fn collect_exprs(es: &Vec<Expr>, from: usize, out: &mut Vec<Touch>)
    requires
        from <= es@.len(),
    ensures
        final(out)@ == old(out)@ + all_touches(es@.skip(from as int)),
        from == 0 ==> final(out)@ == old(out)@ + all_touches(es@),
    decreases es, es@.len() - from,
{
    let ghost start = out@;
    assert(from == 0 ==> es@.skip(0) =~= es@);
    if from < es.len() {
        assert(es@.skip(from as int).drop_first() =~= es@.skip(from + 1));
        collect_expr(&es[from], out);
        collect_exprs(es, from + 1, out);
    }
    assert(out@ =~= start + all_touches(es@.skip(from as int)));
}

fn collect_inits(fs: &Vec<FieldInit>, from: usize, out: &mut Vec<Touch>)
    requires
        from <= fs@.len(),
    ensures
        final(out)@ == old(out)@ + init_touches(fs@.skip(from as int)),
        from == 0 ==> final(out)@ == old(out)@ + init_touches(fs@),
    decreases fs, fs@.len() - from,
{
    let ghost start = out@;
    assert(from == 0 ==> fs@.skip(0) =~= fs@);
    if from < fs.len() {
        assert(fs@.skip(from as int).drop_first() =~= fs@.skip(from + 1));
        assert(decreases_to!(fs => fs@[from as int]));
        collect_expr(&fs[from].value, out);
        collect_inits(fs, from + 1, out);
    }
    assert(out@ =~= start + init_touches(fs@.skip(from as int)));
}

fn collect_arms(arms: &Vec<Arm>, from: usize, out: &mut Vec<Touch>)
    requires
        from <= arms@.len(),
    ensures
        final(out)@ == old(out)@ + arm_touches(arms@.skip(from as int)),
        from == 0 ==> final(out)@ == old(out)@ + arm_touches(arms@),
    decreases arms, arms@.len() - from,
{
    let ghost start = out@;
    assert(from == 0 ==> arms@.skip(0) =~= arms@);
    if from < arms.len() {
        assert(arms@.skip(from as int).drop_first() =~= arms@.skip(from + 1));
        assert(decreases_to!(arms => arms@[from as int]));
        collect_pat(&arms[from].pat, out);
        match &arms[from].guard {
            Some(g) => collect_expr(g, out),
            None => {},
        }
        collect_expr(&arms[from].body, out);
        collect_arms(arms, from + 1, out);
    }
    assert(out@ =~= start + arm_touches(arms@.skip(from as int)));
}

fn collect_block(b: &Block, out: &mut Vec<Touch>)
    ensures
        final(out)@ == old(out)@ + block_touches(*b),
    decreases b, 0nat,
{
    let ghost start = out@;
    collect_stmts(&b.stmts, 0, out);
    match &b.expr {
        Some(x) => collect_expr(x, out),
        None => {},
    }
    assert(out@ =~= start + block_touches(*b));
}

fn collect_stmts(ss: &Vec<Stmt>, from: usize, out: &mut Vec<Touch>)
    requires
        from <= ss@.len(),
    ensures
        final(out)@ == old(out)@ + stmt_touches(ss@.skip(from as int)),
        from == 0 ==> final(out)@ == old(out)@ + stmt_touches(ss@),
    decreases ss, ss@.len() - from,
{
    let ghost start = out@;
    assert(from == 0 ==> ss@.skip(0) =~= ss@);
    if from < ss.len() {
        assert(ss@.skip(from as int).drop_first() =~= ss@.skip(from + 1));
        assert(decreases_to!(ss => ss@[from as int]));
        match &ss[from].kind {
            StmtKind::Let(l) => {
                match &l.init {
                    Some(x) => collect_expr(x, out),
                    None => {},
                }
                collect_pat(&l.pat, out);
                match &l.els {
                    Some(b) => collect_block(b, out),
                    None => {},
                }
            },
            StmtKind::Item => {},
            StmtKind::Expr(x) => collect_expr(x, out),
            StmtKind::Semi(x) => collect_expr(x, out),
        }
        collect_stmts(ss, from + 1, out);
    }
    assert(out@ =~= start + stmt_touches(ss@.skip(from as int)));
}

/// The locals bound and those read free so far.
pub struct Seen {
    pub bound: Seq<HirId>,
    pub free: Seq<HirId>,
}

/// What is seen once one more local is bound or read.
pub open spec fn seen_with(s: Seen, t: Touch) -> Seen {
    match t {
        Touch::Bind(id) => Seen { bound: s.bound.push(id), free: s.free },
        Touch::Read(id) => if s.bound.contains(id) || s.free.contains(id) {
            s
        } else {
            Seen { bound: s.bound, free: s.free.push(id) }
        },
    }
}

pub open spec fn seen(ts: Seq<Touch>) -> Seen
    decreases ts.len(),
{
    if ts.len() == 0 {
        Seen { bound: Seq::empty(), free: Seq::empty() }
    } else {
        seen_with(seen(ts.drop_last()), ts.last())
    }
}

/// The locals an expression reads but does not bind, in order of first use.
pub open spec fn outer_locals(e: Expr) -> Seq<HirId> {
    seen(touches(e)).free
}

/// The locals an expression reads but does not bind, in order of first use.
pub fn free_locals(e: &Expr) -> (r: Vec<HirId>)
    ensures
        r@ == outer_locals(*e),
{
    let mut ts: Vec<Touch> = Vec::new();
    collect_expr(e, &mut ts);
    assert(ts@ =~= touches(*e));
    let mut bound: Vec<HirId> = Vec::new();
    let mut free: Vec<HirId> = Vec::new();
    let mut i: usize = 0;
    while i < ts.len()
        invariant
            i <= ts@.len(),
            bound@ == seen(ts@.take(i as int)).bound,
            free@ == seen(ts@.take(i as int)).free,
        decreases ts.len() - i,
    {
        assert(ts@.take(i + 1).drop_last() =~= ts@.take(i as int));
        match ts[i] {
            Touch::Bind(id) => bound.push(id),
            Touch::Read(id) => {
                if !is_in(&bound, &id) && !is_in(&free, &id) {
                    free.push(id);
                }
            },
        }
        i = i + 1;
    }
    assert(ts@.take(i as int) =~= ts@);
    free
}

// ---------------------------------------------------------------- pairing

/// The locals of two lists of one length, position by position.
pub open spec fn zipped(l: Seq<HirId>, r: Seq<HirId>) -> Seq<(HirId, HirId)> {
    Seq::new(l.len(), |i: int| (l[i], r[i]))
}

fn zip_locals(l: &Vec<HirId>, r: &Vec<HirId>) -> (out: Vec<(HirId, HirId)>)
    requires
        l@.len() == r@.len(),
    ensures
        out@ == zipped(l@, r@),
{
    let mut out: Vec<(HirId, HirId)> = Vec::new();
    let mut i: usize = 0;
    while i < l.len()
        invariant
            i <= l@.len() == r@.len(),
            out@ =~= zipped(l@, r@).take(i as int),
        decreases l.len() - i,
    {
        out.push((l[i], r[i]));
        i = i + 1;
    }
    assert(out@ =~= zipped(l@, r@));
    out
}

/// Which parameter binding of one body stands for which of the other; none
/// where the two take different numbers of them, and so are never equal.
pub fn body_pairing(l: &Vec<Pat>, r: &Vec<Pat>) -> (out: Option<Vec<(HirId, HirId)>>)
    ensures
        match out {
            Some(v) => all_bindings(l@).len() == all_bindings(r@).len() && v@ == zipped(
                all_bindings(l@),
                all_bindings(r@),
            ),
            None => all_bindings(l@).len() != all_bindings(r@).len(),
        },
{
    let lp = param_bindings(l);
    let rp = param_bindings(r);
    if lp.len() != rp.len() {
        return None;
    }
    Some(zip_locals(&lp, &rp))
}

/// The two locals have a type each in their own body, and it is the same.
pub open spec fn same_type(
    lt: Seq<(HirId, Ty)>,
    rt: Seq<(HirId, Ty)>,
    a: HirId,
    b: HirId,
) -> bool {
    value_at(lt, a) matches Some(x) && value_at(rt, b) matches Some(y) && ty_eq(x, y)
}

fn types_agree(lt: &Vec<(HirId, Ty)>, rt: &Vec<(HirId, Ty)>, a: HirId, b: HirId) -> (r: bool)
    ensures
        r == same_type(lt@, rt@, a, b),
{
    match (find_key(lt, &a), find_key(rt, &b)) {
        (Some(i), Some(j)) => lt[i].1.same_as(&rt[j].1),
        _ => false,
    }
}

/// The locals two expressions read from outside themselves pair up: as many
/// on either side, each pair of one type.
pub open spec fn pairs_up(
    l: Seq<HirId>,
    lt: Seq<(HirId, Ty)>,
    r: Seq<HirId>,
    rt: Seq<(HirId, Ty)>,
) -> bool {
    l.len() == r.len() && forall|i: int|
        0 <= i < l.len() ==> same_type(lt, rt, #[trigger] l[i], r[i])
}

/// Which local of one expression stands for which of the other, given each
/// body's locals with their types; none where they do not pair up, and so the
/// two are never equal.
pub fn expr_pairing(l: &Expr, lt: &Vec<(HirId, Ty)>, r: &Expr, rt: &Vec<(HirId, Ty)>) -> (out:
    Option<Vec<(HirId, HirId)>>)
    ensures
        match out {
            Some(v) => pairs_up(outer_locals(*l), lt@, outer_locals(*r), rt@) && v@ == zipped(
                outer_locals(*l),
                outer_locals(*r),
            ),
            None => !pairs_up(outer_locals(*l), lt@, outer_locals(*r), rt@),
        },
{
    let lf = free_locals(l);
    let rf = free_locals(r);
    if lf.len() != rf.len() {
        return None;
    }
    let mut i: usize = 0;
    while i < lf.len()
        invariant
            i <= lf@.len() == rf@.len(),
            lf@ == outer_locals(*l),
            rf@ == outer_locals(*r),
            forall|k: int| 0 <= k < i ==> same_type(lt@, rt@, #[trigger] lf@[k], rf@[k]),
        decreases lf.len() - i,
    {
        if !types_agree(lt, rt, lf[i], rf[i]) {
            assert(!same_type(lt@, rt@, lf@[i as int], rf@[i as int]));
            return None;
        }
        i = i + 1;
    }
    Some(zip_locals(&lf, &rf))
}

/// The two parameters have one type.
pub open spec fn inputs_equal(l: Seq<Input>, r: Seq<Input>) -> bool {
    l.len() == r.len() && forall|i: int|
        0 <= i < l.len() ==> ty_eq((#[trigger] l[i]).ty, r[i].ty)
}

/// Signatures equal: same arity, each input and the output the same type.
/// For methods the first input is `Self`, which is what keeps `Foo::is_empty`
/// and `Bar::is_empty` apart.
pub fn fn_sigs_equal(l: &FnSig, r: &FnSig) -> (out: bool)
    ensures
        out == (inputs_equal(l.inputs@, r.inputs@) && ty_eq(l.output, r.output)),
{
    if l.inputs.len() != r.inputs.len() {
        return false;
    }
    let mut i: usize = 0;
    while i < l.inputs.len()
        invariant
            i <= l.inputs@.len() == r.inputs@.len(),
            forall|k: int| 0 <= k < i ==> ty_eq((#[trigger] l.inputs@[k]).ty, r.inputs@[k].ty),
        decreases l.inputs.len() - i,
    {
        if !l.inputs[i].ty.same_as(&r.inputs[i].ty) {
            assert(!ty_eq(l.inputs@[i as int].ty, r.inputs@[i as int].ty));
            return false;
        }
        i = i + 1;
    }
    l.output.same_as(&r.output)
}

/// A pairing of free locals is one to one: neither side repeats a local.
pub proof fn lemma_free_locals_are_distinct(e: Expr)
    ensures
        outer_locals(e).no_duplicates(),
{
    lemma_seen_distinct(touches(e));
}

proof fn lemma_seen_distinct(ts: Seq<Touch>)
    ensures
        seen(ts).free.no_duplicates(),
    decreases ts.len(),
{
    if ts.len() > 0 {
        lemma_seen_distinct(ts.drop_last());
    }
}

proof fn lemma_list_touched(es: Seq<Expr>, i: int, t: Touch)
    requires
        0 <= i < es.len(),
        touches(es[i]).contains(t),
    ensures
        all_touches(es).contains(t),
    decreases es.len(),
{
    let rest = es.drop_first();
    crate::table::lemma_either(touches(es[0]), all_touches(rest), t);
    if i > 0 {
        assert(rest[i - 1] == es[i]);
        lemma_list_touched(rest, i - 1, t);
    }
}

proof fn lemma_init_touched(fs: Seq<FieldInit>, i: int, t: Touch)
    requires
        0 <= i < fs.len(),
        touches(fs[i].value).contains(t),
    ensures
        init_touches(fs).contains(t),
    decreases fs.len(),
{
    let rest = fs.drop_first();
    crate::table::lemma_either(touches(fs[0].value), init_touches(rest), t);
    if i > 0 {
        assert(rest[i - 1] == fs[i]);
        lemma_init_touched(rest, i - 1, t);
    }
}

proof fn lemma_arm_touched(arms: Seq<Arm>, i: int, x: Expr, t: Touch)
    requires
        0 <= i < arms.len(),
        arms[i].body == x || arms[i].guard == Some(Box::new(x)),
        touches(x).contains(t),
    ensures
        arm_touches(arms).contains(t),
    decreases arms.len(),
{
    let rest = arms.drop_first();
    let pat = pat_touches(arms[0].pat);
    let guard = match arms[0].guard {
        Some(g) => touches(*g),
        None => Seq::<Touch>::empty(),
    };
    let body = touches(arms[0].body);
    crate::table::lemma_either(pat, guard, t);
    crate::table::lemma_either(pat + guard, body, t);
    crate::table::lemma_either(pat + guard + body, arm_touches(rest), t);
    if i > 0 {
        assert(rest[i - 1] == arms[i]);
        lemma_arm_touched(rest, i - 1, x, t);
    }
}

proof fn lemma_block_touched(b: Block, x: Expr, t: Touch)
    requires
        crate::hir::in_block(b, x),
        touches(x).contains(t),
    ensures
        block_touches(b).contains(t),
    decreases b,
{
    let tail = match b.expr {
        Some(y) => touches(*y),
        None => Seq::<Touch>::empty(),
    };
    crate::table::lemma_either(stmt_touches(b.stmts@), tail, t);
    if b.expr != Some(Box::new(x)) {
        let i = choose|i: int| 0 <= i < b.stmts@.len() && crate::hir::in_stmt(#[trigger] b.stmts@[i], x);
        lemma_stmt_touched(b.stmts@, i, x, t);
    }
}

proof fn lemma_stmt_touched(ss: Seq<Stmt>, i: int, x: Expr, t: Touch)
    requires
        0 <= i < ss.len(),
        crate::hir::in_stmt(ss[i], x),
        touches(x).contains(t),
    ensures
        stmt_touches(ss).contains(t),
    decreases ss,
{
    let rest = ss.drop_first();
    let first = match ss[0].kind {
        StmtKind::Let(l) => (match l.init {
            Some(y) => touches(*y),
            None => Seq::<Touch>::empty(),
        }) + pat_touches(l.pat) + match l.els {
            Some(b) => block_touches(b),
            None => Seq::<Touch>::empty(),
        },
        StmtKind::Item => Seq::<Touch>::empty(),
        StmtKind::Expr(y) => touches(y),
        StmtKind::Semi(y) => touches(y),
    };
    crate::table::lemma_either(first, stmt_touches(rest), t);
    if i > 0 {
        assert(rest[i - 1] == ss[i]);
        lemma_stmt_touched(rest, i - 1, x, t);
    } else {
        match ss[0].kind {
            StmtKind::Let(l) => {
                let init = match l.init {
                    Some(y) => touches(*y),
                    None => Seq::<Touch>::empty(),
                };
                let els = match l.els {
                    Some(b) => block_touches(b),
                    None => Seq::<Touch>::empty(),
                };
                crate::table::lemma_either(init, pat_touches(l.pat), t);
                crate::table::lemma_either(init + pat_touches(l.pat), els, t);
                if l.init != Some(Box::new(x)) {
                    match l.els {
                        Some(b) => {
                            lemma_block_touched(b, x, t);
                        },
                        None => {},
                    }
                }
            },
            _ => {},
        }
    }
}

proof fn lemma_part_touched(e: Expr, x: Expr, t: Touch)
    requires
        crate::hir::is_part(e, x),
        !(e.kind is Closure),
        touches(x).contains(t),
    ensures
        touches(e).contains(t),
{
    match e.kind {
        ExprKind::Binary(_, a, b) => {
            crate::table::lemma_either(touches(*a), touches(*b), t);
        },
        ExprKind::Index(a, b) => {
            crate::table::lemma_either(touches(*a), touches(*b), t);
        },
        ExprKind::Call(f, args) => {
            crate::table::lemma_either(touches(*f), all_touches(args@), t);
            if x != *f {
                let i = choose|i: int| 0 <= i < args@.len() && args@[i] == x;
                lemma_list_touched(args@, i, t);
            }
        },
        ExprKind::MethodCall(_, recv, args) => {
            crate::table::lemma_either(touches(*recv), all_touches(args@), t);
            if x != *recv {
                let i = choose|i: int| 0 <= i < args@.len() && args@[i] == x;
                lemma_list_touched(args@, i, t);
            }
        },
        ExprKind::Struct(_, fields, tail) => {
            let base = match tail {
                StructTail::Base(b) => touches(*b),
                _ => Seq::<Touch>::empty(),
            };
            crate::table::lemma_either(init_touches(fields@), base, t);
            if tail != StructTail::Base(Box::new(x)) {
                let i = choose|i: int|
                    0 <= i < fields@.len() && (#[trigger] fields@[i]).value == x;
                lemma_init_touched(fields@, i, t);
            }
        },
        ExprKind::If(c, y, els) => {
            let no = match els {
                Some(n) => touches(*n),
                None => Seq::<Touch>::empty(),
            };
            crate::table::lemma_either(touches(*c), touches(*y), t);
            crate::table::lemma_either(touches(*c) + touches(*y), no, t);
        },
        ExprKind::Let(p, init) => {
            crate::table::lemma_either(touches(*init), pat_touches(p), t);
        },
        ExprKind::Match(scrut, arms, _) => {
            crate::table::lemma_either(touches(*scrut), arm_touches(arms@), t);
            if x != *scrut {
                let i = choose|i: int|
                    0 <= i < arms@.len() && ((#[trigger] arms@[i]).body == x || arms@[i].guard
                        == Some(Box::new(x)));
                lemma_arm_touched(arms@, i, x, t);
            }
        },
        ExprKind::Block(b) => {
            lemma_block_touched(b, x, t);
        },
        ExprKind::Assign(l, r) => {
            crate::table::lemma_either(touches(*r), touches(*l), t);
        },
        ExprKind::AssignOp(l, r) => {
            crate::table::lemma_either(touches(*r), touches(*l), t);
        },
        ExprKind::Array(items) => {
            let i = choose|i: int| 0 <= i < items@.len() && items@[i] == x;
            lemma_list_touched(items@, i, t);
        },
        ExprKind::Range(lo, hi) => {
            let a = match lo {
                Some(y) => touches(*y),
                None => Seq::<Touch>::empty(),
            };
            let b = match hi {
                Some(y) => touches(*y),
                None => Seq::<Touch>::empty(),
            };
            crate::table::lemma_either(a, b, t);
        },
        ExprKind::Other(items) => {
            let i = choose|i: int| 0 <= i < items@.len() && items@[i] == x;
            lemma_list_touched(items@, i, t);
        },
        _ => {},
    }
}

/// Every local that is read anywhere in an expression, outside closures, is
/// touched.
pub proof fn lemma_every_read_is_touched(path: Seq<Expr>, id: HirId)
    requires
        crate::hir::nested(path),
        crate::hir::enters(path, false),
        path.last().kind matches ExprKind::Path(p) && !p.type_relative && !p.has_self && p.res
            == Res::Local(id),
    ensures
        touches(path[0]).contains(Touch::Read(id)),
    decreases path.len(),
{
    if path.len() == 1 {
        assert(touches(path[0])[0] == Touch::Read(id));
    } else {
        let rest = path.drop_first();
        assert forall|i: int| #![trigger rest[i]] 0 <= i < rest.len() - 1 implies crate::hir::is_part(
            rest[i],
            rest[i + 1],
        ) by {
            assert(path[i + 1] == rest[i]);
        }
        assert forall|i: int| 0 <= i < rest.len() - 1 implies !((#[trigger] rest[i]).kind
            is Closure) by {
            assert(path[i + 1] == rest[i]);
        }
        lemma_every_read_is_touched(rest, id);
        assert(path[1] == rest[0]);
        lemma_part_touched(path[0], path[1], Touch::Read(id));
    }
}

/// A local comes from outside exactly if it is read before anything binds it.
pub proof fn lemma_outer_is_read_before_bound(ts: Seq<Touch>, id: HirId)
    ensures
        seen(ts).bound.contains(id) <==> ts.contains(Touch::Bind(id)),
        seen(ts).free.contains(id) <==> exists|i: int|
            0 <= i < ts.len() && ts[i] == Touch::Read(id) && !ts.take(i).contains(Touch::Bind(id)),
    decreases ts.len(),
{
    if ts.len() > 0 {
        let front = ts.drop_last();
        let n = front.len() as int;
        let t = ts.last();
        lemma_outer_is_read_before_bound(front, id);
        assert(ts =~= front.push(t));
        crate::table::lemma_pushed(front, t, Touch::Bind(id));
        assert(ts.take(n) =~= front);
        assert forall|i: int| 0 <= i < n implies #[trigger] ts.take(i) =~= front.take(i) by {}
        match t {
            Touch::Bind(x) => {
                crate::table::lemma_pushed(seen(front).bound, x, id);
            },
            Touch::Read(x) => {
                crate::table::lemma_pushed(seen(front).free, x, id);
            },
        }
        if seen(front).free.contains(id) {
            let i = choose|i: int|
                0 <= i < front.len() && front[i] == Touch::Read(id) && !front.take(i).contains(
                    Touch::Bind(id),
                );
            assert(ts[i] == Touch::Read(id) && !ts.take(i).contains(Touch::Bind(id)));
        }
        if exists|i: int|
            0 <= i < ts.len() && ts[i] == Touch::Read(id) && !ts.take(i).contains(Touch::Bind(id)) {
            let i = choose|i: int|
                0 <= i < ts.len() && ts[i] == Touch::Read(id) && !ts.take(i).contains(
                    Touch::Bind(id),
                );
            if i < n {
                assert(front[i] == Touch::Read(id) && !front.take(i).contains(Touch::Bind(id)));
            }
        }
        if t == Touch::Read(id) && !front.contains(Touch::Bind(id)) {
            assert(ts[n] == Touch::Read(id) && !ts.take(n).contains(Touch::Bind(id)));
        }
    }
}

/// A pattern binds its names, in the order they are written, and those of its
/// parts; of alternatives, which all bind the same names, the first counts.
pub proof fn lemma_patterns_bind(p: Pat, q: Pat, id: HirId, name: crate::ids::Symbol)
    ensures
        p.kind == PatKind::Binding(id, name, None) ==> bindings(p) == seq![id],
        p.kind == PatKind::Binding(id, name, Some(Box::new(q))) ==> bindings(p) == seq![id]
            + bindings(q),
        p.kind == PatKind::Ref(Box::new(q)) || p.kind == PatKind::Deref(Box::new(q)) || p.kind
            == PatKind::BoxOf(Box::new(q)) ==> bindings(p) == bindings(q),
        (p.kind matches PatKind::Or(ps) && ps@.len() > 0 && ps@[0] == q) ==> bindings(p)
            == bindings(q),
        p.kind is Wild || p.kind is Lit || p.kind is Path ==> bindings(p).len() == 0,
{
    if p.kind == PatKind::Binding(id, name, None) {
        assert(bindings(p) =~= seq![id]);
    }
}

/// Whatever a parameter of a list binds, the list binds.
pub proof fn lemma_every_part_binds(ps: Seq<Pat>, i: int, id: HirId)
    requires
        0 <= i < ps.len(),
        bindings(ps[i]).contains(id),
    ensures
        all_bindings(ps).contains(id),
    decreases ps.len(),
{
    let rest = ps.drop_first();
    crate::table::lemma_either(bindings(ps[0]), all_bindings(rest), id);
    if i > 0 {
        assert(rest[i - 1] == ps[i]);
        lemma_every_part_binds(rest, i - 1, id);
    }
}

/// Signatures that differ in number, in one input or in the output are not
/// equal; a signature equals one of the same types.
pub proof fn lemma_inputs_equal_by_position(l: Seq<Input>, r: Seq<Input>, i: int)
    ensures
        l.len() != r.len() ==> !inputs_equal(l, r),
        0 <= i < l.len() && i < r.len() && !ty_eq(l[i].ty, r[i].ty) ==> !inputs_equal(l, r),
        l.len() == r.len() && (forall|k: int|
            0 <= k < l.len() ==> ty_eq((#[trigger] l[k]).ty, r[k].ty)) ==> inputs_equal(l, r),
{
}

/// Locals pair up only if there are as many of either, each with a type, and
/// pair by pair the same.
pub proof fn lemma_pairing_needs_equal_types(
    l: Seq<HirId>,
    lt: Seq<(HirId, Ty)>,
    r: Seq<HirId>,
    rt: Seq<(HirId, Ty)>,
    i: int,
)
    ensures
        l.len() != r.len() ==> !pairs_up(l, lt, r, rt),
        0 <= i < l.len() && i < r.len() && (value_at(lt, l[i]) is None || value_at(rt, r[i]) is None)
            ==> !pairs_up(l, lt, r, rt),
        0 <= i < l.len() && i < r.len() && (value_at(lt, l[i]) matches Some(x) && value_at(
            rt,
            r[i],
        ) matches Some(y) && !ty_eq(x, y)) ==> !pairs_up(l, lt, r, rt),
        l.len() == 0 && r.len() == 0 ==> pairs_up(l, lt, r, rt),
{
    if pairs_up(l, lt, r, rt) && 0 <= i < l.len() {
        assert(same_type(lt, rt, l[i], r[i]));
    }
}

/// A path reads a local only by its own plain name.
pub proof fn lemma_paths_read_locals(p: QPath, id: HirId)
    ensures
        !p.type_relative && !p.has_self && p.res == Res::Local(id) ==> path_touches(p) == seq![
            Touch::Read(id),
        ],
        p.type_relative || p.has_self || !(p.res is Local) ==> path_touches(p).len() == 0,
{
}

} // verus!
