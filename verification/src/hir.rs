//! Expressions, patterns and blocks with everything resolved and typed, as
//! the lints read them.

use crate::defs::DefKind;
use crate::ids::{DefId, HirId, Span, Symbol};
use crate::ty::Ty;
use vstd::prelude::*;

verus! {

/// What a path names.
#[derive(Clone, Copy, Debug, PartialEq, Eq, Structural)]
pub enum Res {
    Local(HirId),
    Def(DefKind, DefId),
    Other,
}

/// A path as written and as resolved.
#[derive(Debug)]
pub struct QPath {
    /// `Type::name`, resolved through the type.
    pub type_relative: bool,
    /// It starts with a type in angle brackets.
    pub has_self: bool,
    pub segments: Vec<Symbol>,
    pub res: Res,
    pub span: Span,
    /// The source text, where there is any.
    pub text: Option<String>,
}

#[derive(Clone, Copy, Debug, PartialEq, Eq, Structural)]
pub enum LitKind {
    Bool(bool),
    Int(u128),
    Other,
}

#[derive(Debug)]
pub struct Lit {
    pub kind: LitKind,
    /// How the literal prints for debugging.
    pub text: String,
}

#[derive(Clone, Copy, Debug, PartialEq, Eq, Structural)]
pub enum UnOp {
    Deref,
    Not,
    Neg,
}

#[derive(Clone, Copy, Debug, PartialEq, Eq, Structural)]
pub enum BinOp {
    Plus,
    Minus,
    Times,
    Div,
    Rem,
    And,
    Or,
    BitXor,
    BitAnd,
    BitOr,
    Shl,
    Shr,
    EqualTo,
    Less,
    LessEqual,
    NotEqual,
    GreaterEqual,
    Greater,
}

/// How an expression came to be in the source.
#[derive(Debug)]
pub struct Origin {
    pub from_expansion: bool,
    pub in_derive: bool,
    pub in_external_macro: bool,
    pub for_loop: bool,
    /// The names of the macros it expands from, innermost first.
    pub macros: Vec<Symbol>,
    /// The innermost one is a formatting macro.
    pub from_format: bool,
}

#[derive(Debug)]
pub struct FieldInit {
    pub name: Symbol,
    pub value: Expr,
}

#[derive(Debug)]
pub enum StructTail {
    Nothing,
    Base(Box<Expr>),
    Defaults,
}

#[derive(Clone, Copy, Debug, PartialEq, Eq, Structural)]
pub enum MatchSource {
    Normal,
    Desugared,
}

#[derive(Debug)]
pub enum ExprKind {
    Path(QPath),
    Lit(Lit),
    Unary(UnOp, Box<Expr>),
    Binary(BinOp, Box<Expr>, Box<Expr>),
    Cast(Box<Expr>),
    /// A borrow: raw or not, mutable or not.
    AddrOf(bool, bool, Box<Expr>),
    DropTemps(Box<Expr>),
    Field(Box<Expr>, Symbol),
    Index(Box<Expr>, Box<Expr>),
    Call(Box<Expr>, Vec<Expr>),
    MethodCall(Symbol, Box<Expr>, Vec<Expr>),
    Struct(QPath, Vec<FieldInit>, StructTail),
    If(Box<Expr>, Box<Expr>, Option<Box<Expr>>),
    Let(Pat, Box<Expr>),
    Match(Box<Expr>, Vec<Arm>, MatchSource),
    Block(Block),
    Ret(Option<Box<Expr>>),
    /// A `break`: the loop or labelled block it leaves, and what it carries.
    Break(Option<HirId>, Option<Box<Expr>>),
    Assign(Box<Expr>, Box<Expr>),
    AssignOp(Box<Expr>, Box<Expr>),
    Array(Vec<Expr>),
    /// A range, with its ends.
    Range(Option<Box<Expr>>, Option<Box<Expr>>),
    /// A closure, with its parameters and its body.
    Closure(Vec<Pat>, Box<Expr>),
    /// Any other expression and its direct parts, in order.
    Other(Vec<Expr>),
}

#[derive(Debug)]
pub struct Expr {
    pub id: HirId,
    pub span: Span,
    pub ty: Ty,
    /// The type after automatic derefs and borrows.
    pub adjusted: Ty,
    /// How the generic arguments of the type behind the references of
    /// `adjusted` print.
    pub arg_texts: Vec<String>,
    /// How the type prints.
    pub ty_text: String,
    /// How the type prints with one reference or pointer taken off, with two
    /// taken off, and so on.
    pub pointee_texts: Vec<String>,
    /// The type behind all of them has no interior mutability.
    pub pointee_frozen: bool,
    pub kind: ExprKind,
    pub origin: Origin,
    /// What a method call or an overloaded index resolves to.
    pub method: Option<DefId>,
    /// Expressions with one number here denote the same value.
    pub value_class: Option<u32>,
    /// Expressions with one number here are structurally equal.
    pub structure: u32,
    /// A hash of the structure, blind to which local is named.
    pub shape: u64,
    /// It is what `Default` would give.
    pub default_equivalent: bool,
    /// It is borrowed mutably without being written so.
    pub auto_mut_borrow: bool,
    /// The source text, where there is any.
    pub snippet: Option<String>,
}

#[derive(Debug)]
pub enum PatKind {
    Wild,
    /// A binding, its name and the pattern behind `@`.
    Binding(HirId, Symbol, Option<Box<Pat>>),
    Path(QPath),
    /// A literal; whether it is negated.
    Lit(Lit, bool),
    TupleStruct(QPath, Vec<Pat>),
    Struct(QPath, Vec<FieldPat>),
    Or(Vec<Pat>),
    Ref(Box<Pat>),
    Deref(Box<Pat>),
    BoxOf(Box<Pat>),
    /// A tuple, array or slice pattern and its parts; whether every value of
    /// the type has that many: a tuple and an array do, and a slice does where
    /// the pattern is a rest alone.
    Sequence(Vec<Pat>, bool),
    Other(Vec<Pat>),
}

#[derive(Debug)]
pub struct FieldPat {
    pub name: Symbol,
    pub pat: Pat,
}

#[derive(Debug)]
pub struct Pat {
    pub id: HirId,
    pub span: Span,
    pub ty: Ty,
    pub kind: PatKind,
    /// It stands in code a derive wrote.
    pub in_derive: bool,
}

#[derive(Debug)]
pub struct Arm {
    pub id: HirId,
    pub span: Span,
    pub pat: Pat,
    pub guard: Option<Box<Expr>>,
    pub body: Expr,
}

#[derive(Debug)]
pub struct LetStmt {
    pub id: HirId,
    pub pat: Pat,
    pub init: Option<Box<Expr>>,
    pub els: Option<Block>,
}

#[derive(Debug)]
pub enum StmtKind {
    Let(LetStmt),
    Item,
    Expr(Expr),
    Semi(Expr),
}

#[derive(Debug)]
pub struct Stmt {
    pub id: HirId,
    pub kind: StmtKind,
}

#[derive(Debug)]
pub struct Block {
    pub id: HirId,
    pub span: Span,
    pub stmts: Vec<Stmt>,
    pub expr: Option<Box<Expr>>,
    /// It is an `unsafe` block someone wrote.
    pub user_unsafe: bool,
    pub from_expansion: bool,
    pub labelled: bool,
}

/// A node around an expression.
#[derive(Debug)]
pub enum Parent<'a> {
    Expr(&'a Expr),
    Arm(&'a Arm),
    Block(&'a Block),
    /// An item, or an item of a trait, an impl or a foreign block.
    Item(HirId),
    Other(HirId),
}

/// The node's identity.
pub open spec fn parent_id(p: Parent) -> HirId {
    match p {
        Parent::Expr(e) => e.id,
        Parent::Arm(a) => a.id,
        Parent::Block(b) => b.id,
        Parent::Item(id) => id,
        Parent::Other(id) => id,
    }
}

impl<'a> Parent<'a> {
    pub fn id(&self) -> (r: HirId)
        ensures
            r == parent_id(*self),
    {
        match self {
            Parent::Expr(e) => e.id,
            Parent::Arm(a) => a.id,
            Parent::Block(b) => b.id,
            Parent::Item(id) => *id,
            Parent::Other(id) => *id,
        }
    }
}

/// The nearest block around an expression, inside the item it belongs to.
pub open spec fn enclosing_block(parents: Seq<Parent>) -> Option<HirId>
    decreases parents.len(),
{
    if parents.len() == 0 {
        None
    } else {
        match parents[0] {
            Parent::Block(b) => Some(b.id),
            Parent::Item(_) => None,
            _ => enclosing_block(parents.drop_first()),
        }
    }
}

pub fn block_around(parents: &Vec<Parent>) -> (r: Option<HirId>)
    ensures
        r == enclosing_block(parents@),
{
    let mut i: usize = 0;
    assert(parents@.skip(0) =~= parents@);
    while i < parents.len()
        invariant
            i <= parents@.len(),
            enclosing_block(parents@) == enclosing_block(parents@.skip(i as int)),
        decreases parents.len() - i,
    {
        assert(parents@.skip(i as int).drop_first() =~= parents@.skip(i + 1));
        match &parents[i] {
            Parent::Block(b) => {
                return Some(b.id);
            },
            Parent::Item(_) => {
                return None;
            },
            _ => {},
        }
        i = i + 1;
    }
    None
}

// ---------------------------------------------------------------- walking

/// An expression and every expression in it, an expression before its parts.
/// `closures` tells whether closure bodies are entered.
pub open spec fn walk(e: Expr, closures: bool) -> Seq<Expr>
    decreases e,
{
    seq![e] + match e.kind {
        ExprKind::Path(_) => Seq::empty(),
        ExprKind::Lit(_) => Seq::empty(),
        ExprKind::Unary(_, a) => walk(*a, closures),
        ExprKind::Binary(_, a, b) => walk(*a, closures) + walk(*b, closures),
        ExprKind::Cast(a) => walk(*a, closures),
        ExprKind::AddrOf(_, _, a) => walk(*a, closures),
        ExprKind::DropTemps(a) => walk(*a, closures),
        ExprKind::Field(a, _) => walk(*a, closures),
        ExprKind::Index(a, b) => walk(*a, closures) + walk(*b, closures),
        ExprKind::Call(f, args) => walk(*f, closures) + walk_all(args@, closures),
        ExprKind::MethodCall(_, recv, args) => walk(*recv, closures) + walk_all(args@, closures),
        ExprKind::Struct(_, fields, tail) => walk_fields(fields@, closures) + match tail {
            StructTail::Base(b) => walk(*b, closures),
            _ => Seq::empty(),
        },
        ExprKind::If(c, t, els) => walk(*c, closures) + walk(*t, closures) + match els {
            Some(x) => walk(*x, closures),
            None => Seq::empty(),
        },
        ExprKind::Let(_, init) => walk(*init, closures),
        ExprKind::Match(scrut, arms, _) => walk(*scrut, closures) + walk_arms(arms@, closures),
        ExprKind::Block(b) => walk_block(b, closures),
        ExprKind::Ret(v) => match v {
            Some(x) => walk(*x, closures),
            None => Seq::empty(),
        },
        ExprKind::Break(_, v) => match v {
            Some(x) => walk(*x, closures),
            None => Seq::empty(),
        },
        ExprKind::Assign(l, r) => walk(*r, closures) + walk(*l, closures),
        ExprKind::AssignOp(l, r) => walk(*r, closures) + walk(*l, closures),
        ExprKind::Array(items) => walk_all(items@, closures),
        ExprKind::Range(lo, hi) => (match lo {
            Some(x) => walk(*x, closures),
            None => Seq::empty(),
        }) + (match hi {
            Some(x) => walk(*x, closures),
            None => Seq::empty(),
        }),
        ExprKind::Closure(_, body) => if closures {
            walk(*body, closures)
        } else {
            Seq::empty()
        },
        ExprKind::Other(items) => walk_all(items@, closures),
    }
}

pub open spec fn walk_all(es: Seq<Expr>, closures: bool) -> Seq<Expr>
    decreases es,
{
    if es.len() == 0 {
        Seq::empty()
    } else {
        walk(es[0], closures) + walk_all(es.drop_first(), closures)
    }
}

pub open spec fn walk_fields(fs: Seq<FieldInit>, closures: bool) -> Seq<Expr>
    decreases fs,
{
    if fs.len() == 0 {
        Seq::empty()
    } else {
        walk(fs[0].value, closures) + walk_fields(fs.drop_first(), closures)
    }
}

pub open spec fn walk_arms(arms: Seq<Arm>, closures: bool) -> Seq<Expr>
    decreases arms,
{
    if arms.len() == 0 {
        Seq::empty()
    } else {
        (match arms[0].guard {
            Some(g) => walk(*g, closures),
            None => Seq::empty(),
        }) + walk(arms[0].body, closures) + walk_arms(arms.drop_first(), closures)
    }
}

pub open spec fn walk_block(b: Block, closures: bool) -> Seq<Expr>
    decreases b,
{
    walk_stmts(b.stmts@, closures) + match b.expr {
        Some(x) => walk(*x, closures),
        None => Seq::empty(),
    }
}

pub open spec fn walk_stmts(ss: Seq<Stmt>, closures: bool) -> Seq<Expr>
    decreases ss,
{
    if ss.len() == 0 {
        Seq::empty()
    } else {
        (match ss[0].kind {
            StmtKind::Let(l) => (match l.init {
                Some(x) => walk(*x, closures),
                None => Seq::empty(),
            }) + match l.els {
                Some(b) => walk_block(b, closures),
                None => Seq::empty(),
            },
            StmtKind::Item => Seq::empty(),
            StmtKind::Expr(x) => walk(x, closures),
            StmtKind::Semi(x) => walk(x, closures),
        }) + walk_stmts(ss.drop_first(), closures)
    }
}

/// What a list of references refers to.
pub open spec fn targets(v: Seq<&Expr>) -> Seq<Expr> {
    Seq::new(v.len(), |i: int| *v[i])
}

/// Appends an expression and every expression in it.
fn collect_walk<'a>(e: &'a Expr, closures: bool, out: &mut Vec<&'a Expr>)
    ensures
        targets(final(out)@) == targets(old(out)@) + walk(*e, closures),
    decreases e, 0nat,
{
    let ghost start = targets(out@);
    out.push(e);
    assert(targets(out@) =~= start + seq![*e]);
    match &e.kind {
        ExprKind::Path(_) => {},
        ExprKind::Lit(_) => {},
        ExprKind::Unary(_, a) => collect_walk(a, closures, out),
        ExprKind::Binary(_, a, b) => {
            collect_walk(a, closures, out);
            collect_walk(b, closures, out);
        },
        ExprKind::Cast(a) => collect_walk(a, closures, out),
        ExprKind::AddrOf(_, _, a) => collect_walk(a, closures, out),
        ExprKind::DropTemps(a) => collect_walk(a, closures, out),
        ExprKind::Field(a, _) => collect_walk(a, closures, out),
        ExprKind::Index(a, b) => {
            collect_walk(a, closures, out);
            collect_walk(b, closures, out);
        },
        ExprKind::Call(f, args) => {
            collect_walk(f, closures, out);
            collect_all(args, 0, closures, out);
        },
        ExprKind::MethodCall(_, recv, args) => {
            collect_walk(recv, closures, out);
            collect_all(args, 0, closures, out);
        },
        ExprKind::Struct(_, fields, tail) => {
            collect_fields(fields, 0, closures, out);
            match tail {
                StructTail::Base(b) => collect_walk(b, closures, out),
                _ => {},
            }
        },
        ExprKind::If(c, t, els) => {
            collect_walk(c, closures, out);
            collect_walk(t, closures, out);
            match els {
                Some(x) => collect_walk(x, closures, out),
                None => {},
            }
        },
        ExprKind::Let(_, init) => collect_walk(init, closures, out),
        ExprKind::Match(scrut, arms, _) => {
            collect_walk(scrut, closures, out);
            collect_arms(arms, 0, closures, out);
        },
        ExprKind::Block(b) => collect_block(b, closures, out),
        ExprKind::Ret(v) => {
            match v {
                Some(x) => collect_walk(x, closures, out),
                None => {},
            }
        },
        ExprKind::Break(_, v) => {
            match v {
                Some(x) => collect_walk(x, closures, out),
                None => {},
            }
        },
        ExprKind::Assign(l, r) => {
            collect_walk(r, closures, out);
            collect_walk(l, closures, out);
        },
        ExprKind::AssignOp(l, r) => {
            collect_walk(r, closures, out);
            collect_walk(l, closures, out);
        },
        ExprKind::Array(items) => collect_all(items, 0, closures, out),
        ExprKind::Range(lo, hi) => {
            match lo {
                Some(x) => collect_walk(x, closures, out),
                None => {},
            }
            match hi {
                Some(x) => collect_walk(x, closures, out),
                None => {},
            }
        },
        ExprKind::Closure(_, body) => {
            if closures {
                collect_walk(body, closures, out);
            }
        },
        ExprKind::Other(items) => collect_all(items, 0, closures, out),
    }
    assert(targets(out@) =~= start + walk(*e, closures));
}

fn collect_all<'a>(es: &'a Vec<Expr>, from: usize, closures: bool, out: &mut Vec<&'a Expr>)
    requires
        from <= es@.len(),
    ensures
        targets(final(out)@) == targets(old(out)@) + walk_all(es@.skip(from as int), closures),
        from == 0 ==> targets(final(out)@) == targets(old(out)@) + walk_all(es@, closures),
    decreases es, es@.len() - from,
{
    let ghost start = targets(out@);
    assert(from == 0 ==> es@.skip(0) =~= es@);
    if from < es.len() {
        assert(es@.skip(from as int).drop_first() =~= es@.skip(from + 1));
        collect_walk(&es[from], closures, out);
        collect_all(es, from + 1, closures, out);
    }
    assert(targets(out@) =~= start + walk_all(es@.skip(from as int), closures));
}

fn collect_fields<'a>(fs: &'a Vec<FieldInit>, from: usize, closures: bool, out: &mut Vec<&'a Expr>)
    requires
        from <= fs@.len(),
    ensures
        targets(final(out)@) == targets(old(out)@) + walk_fields(fs@.skip(from as int), closures),
        from == 0 ==> targets(final(out)@) == targets(old(out)@) + walk_fields(fs@, closures),
    decreases fs, fs@.len() - from,
{
    let ghost start = targets(out@);
    assert(from == 0 ==> fs@.skip(0) =~= fs@);
    if from < fs.len() {
        assert(fs@.skip(from as int).drop_first() =~= fs@.skip(from + 1));
        assert(decreases_to!(fs => fs@[from as int]));
        collect_walk(&fs[from].value, closures, out);
        collect_fields(fs, from + 1, closures, out);
    }
    assert(targets(out@) =~= start + walk_fields(fs@.skip(from as int), closures));
}

fn collect_arms<'a>(arms: &'a Vec<Arm>, from: usize, closures: bool, out: &mut Vec<&'a Expr>)
    requires
        from <= arms@.len(),
    ensures
        targets(final(out)@) == targets(old(out)@) + walk_arms(arms@.skip(from as int), closures),
        from == 0 ==> targets(final(out)@) == targets(old(out)@) + walk_arms(arms@, closures),
    decreases arms, arms@.len() - from,
{
    let ghost start = targets(out@);
    assert(from == 0 ==> arms@.skip(0) =~= arms@);
    if from < arms.len() {
        assert(arms@.skip(from as int).drop_first() =~= arms@.skip(from + 1));
        assert(decreases_to!(arms => arms@[from as int]));
        match &arms[from].guard {
            Some(g) => collect_walk(g, closures, out),
            None => {},
        }
        collect_walk(&arms[from].body, closures, out);
        collect_arms(arms, from + 1, closures, out);
    }
    assert(targets(out@) =~= start + walk_arms(arms@.skip(from as int), closures));
}

fn collect_block<'a>(b: &'a Block, closures: bool, out: &mut Vec<&'a Expr>)
    ensures
        targets(final(out)@) == targets(old(out)@) + walk_block(*b, closures),
    decreases b, 0nat,
{
    let ghost start = targets(out@);
    collect_stmts(&b.stmts, 0, closures, out);
    match &b.expr {
        Some(x) => collect_walk(x, closures, out),
        None => {},
    }
    assert(targets(out@) =~= start + walk_block(*b, closures));
}

fn collect_stmts<'a>(ss: &'a Vec<Stmt>, from: usize, closures: bool, out: &mut Vec<&'a Expr>)
    requires
        from <= ss@.len(),
    ensures
        targets(final(out)@) == targets(old(out)@) + walk_stmts(ss@.skip(from as int), closures),
        from == 0 ==> targets(final(out)@) == targets(old(out)@) + walk_stmts(ss@, closures),
    decreases ss, ss@.len() - from,
{
    let ghost start = targets(out@);
    assert(from == 0 ==> ss@.skip(0) =~= ss@);
    if from < ss.len() {
        assert(ss@.skip(from as int).drop_first() =~= ss@.skip(from + 1));
        assert(decreases_to!(ss => ss@[from as int]));
        match &ss[from].kind {
            StmtKind::Let(l) => {
                match &l.init {
                    Some(x) => collect_walk(x, closures, out),
                    None => {},
                }
                match &l.els {
                    Some(b) => collect_block(b, closures, out),
                    None => {},
                }
            },
            StmtKind::Item => {},
            StmtKind::Expr(x) => collect_walk(x, closures, out),
            StmtKind::Semi(x) => collect_walk(x, closures, out),
        }
        collect_stmts(ss, from + 1, closures, out);
    }
    assert(targets(out@) =~= start + walk_stmts(ss@.skip(from as int), closures));
}

/// An expression and every expression in it, an expression before its parts.
pub fn walked<'a>(e: &'a Expr, closures: bool) -> (r: Vec<&'a Expr>)
    ensures
        targets(r@) == walk(*e, closures),
{
    let mut out: Vec<&'a Expr> = Vec::new();
    assert(targets(out@) =~= Seq::<Expr>::empty());
    collect_walk(e, closures, &mut out);
    assert(targets(out@) =~= walk(*e, closures));
    out
}

// ---------------------------------------------------------------- parts

/// `x` is written directly in `e`: an operand, an argument, a branch, a
/// statement or the tail of its block, the body of its closure.
pub open spec fn is_part(e: Expr, x: Expr) -> bool {
    match e.kind {
        ExprKind::Path(_) => false,
        ExprKind::Lit(_) => false,
        ExprKind::Unary(_, a) => x == *a,
        ExprKind::Binary(_, a, b) => x == *a || x == *b,
        ExprKind::Cast(a) => x == *a,
        ExprKind::AddrOf(_, _, a) => x == *a,
        ExprKind::DropTemps(a) => x == *a,
        ExprKind::Field(a, _) => x == *a,
        ExprKind::Index(a, b) => x == *a || x == *b,
        ExprKind::Call(f, args) => x == *f || args@.contains(x),
        ExprKind::MethodCall(_, recv, args) => x == *recv || args@.contains(x),
        ExprKind::Struct(_, fields, tail) => (exists|i: int|
            0 <= i < fields@.len() && (#[trigger] fields@[i]).value == x) || tail
            == StructTail::Base(Box::new(x)),
        ExprKind::If(c, t, els) => x == *c || x == *t || els == Some(Box::new(x)),
        ExprKind::Let(_, init) => x == *init,
        ExprKind::Match(scrut, arms, _) => x == *scrut || exists|i: int|
            0 <= i < arms@.len() && ((#[trigger] arms@[i]).body == x || arms@[i].guard == Some(
                Box::new(x),
            )),
        ExprKind::Block(b) => in_block(b, x),
        ExprKind::Ret(v) => v == Some(Box::new(x)),
        ExprKind::Break(_, v) => v == Some(Box::new(x)),
        ExprKind::Assign(l, r) => x == *l || x == *r,
        ExprKind::AssignOp(l, r) => x == *l || x == *r,
        ExprKind::Array(items) => items@.contains(x),
        ExprKind::Range(lo, hi) => lo == Some(Box::new(x)) || hi == Some(Box::new(x)),
        ExprKind::Closure(_, body) => x == *body,
        ExprKind::Other(items) => items@.contains(x),
    }
}

/// `x` is the tail of the block, one of its statements, what a `let` of it
/// binds, or the like in such a `let`'s `else`.
pub open spec fn in_block(b: Block, x: Expr) -> bool
    decreases b,
{
    b.expr == Some(Box::new(x)) || exists|i: int|
        0 <= i < b.stmts@.len() && in_stmt(#[trigger] b.stmts@[i], x)
}

pub open spec fn in_stmt(s: Stmt, x: Expr) -> bool
    decreases s,
{
    match s.kind {
        StmtKind::Let(l) => l.init == Some(Box::new(x)) || match l.els {
            Some(b) => in_block(b, x),
            None => false,
        },
        StmtKind::Item => false,
        StmtKind::Expr(y) => x == y,
        StmtKind::Semi(y) => x == y,
    }
}

/// Each of the expressions is written directly in the one before it.
pub open spec fn nested(path: Seq<Expr>) -> bool {
    path.len() > 0 && forall|i: int|
        #![trigger path[i]]
        0 <= i < path.len() - 1 ==> is_part(path[i], path[i + 1])
}

/// Closures are entered, or none of the expressions on the way is one.
pub open spec fn enters(path: Seq<Expr>, closures: bool) -> bool {
    closures || forall|i: int|
        0 <= i < path.len() - 1 ==> !((#[trigger] path[i]).kind is Closure)
}

pub open spec fn all_in(inner: Seq<Expr>, outer: Seq<Expr>) -> bool {
    forall|z: Expr| #[trigger] inner.contains(z) ==> outer.contains(z)
}

proof fn lemma_in_sum(a: Seq<Expr>, b: Seq<Expr>)
    ensures
        all_in(a, a + b),
        all_in(b, a + b),
{
    assert forall|z: Expr| #[trigger] a.contains(z) implies (a + b).contains(z) by {
        let i = choose|i: int| 0 <= i < a.len() && a[i] == z;
        assert((a + b)[i] == z);
    }
    assert forall|z: Expr| #[trigger] b.contains(z) implies (a + b).contains(z) by {
        let i = choose|i: int| 0 <= i < b.len() && b[i] == z;
        assert((a + b)[a.len() + i] == z);
    }
}

proof fn lemma_list_walked(es: Seq<Expr>, i: int, c: bool)
    requires
        0 <= i < es.len(),
    ensures
        all_in(walk(es[i], c), walk_all(es, c)),
    decreases es.len(),
{
    lemma_in_sum(walk(es[0], c), walk_all(es.drop_first(), c));
    if i > 0 {
        assert(es.drop_first()[i - 1] == es[i]);
        lemma_list_walked(es.drop_first(), i - 1, c);
    }
}

proof fn lemma_fields_walked(fs: Seq<FieldInit>, i: int, c: bool)
    requires
        0 <= i < fs.len(),
    ensures
        all_in(walk(fs[i].value, c), walk_fields(fs, c)),
    decreases fs.len(),
{
    lemma_in_sum(walk(fs[0].value, c), walk_fields(fs.drop_first(), c));
    if i > 0 {
        assert(fs.drop_first()[i - 1] == fs[i]);
        lemma_fields_walked(fs.drop_first(), i - 1, c);
    }
}

proof fn lemma_arms_walked(arms: Seq<Arm>, i: int, c: bool)
    requires
        0 <= i < arms.len(),
    ensures
        all_in(walk(arms[i].body, c), walk_arms(arms, c)),
        arms[i].guard matches Some(g) ==> all_in(walk(*g, c), walk_arms(arms, c)),
    decreases arms.len(),
{
    let guard = match arms[0].guard {
        Some(g) => walk(*g, c),
        None => Seq::empty(),
    };
    let body = walk(arms[0].body, c);
    let rest = walk_arms(arms.drop_first(), c);
    lemma_in_sum(guard, body);
    lemma_in_sum(guard + body, rest);
    if i > 0 {
        assert(arms.drop_first()[i - 1] == arms[i]);
        lemma_arms_walked(arms.drop_first(), i - 1, c);
    }
}

proof fn lemma_block_walked(b: Block, x: Expr, c: bool)
    requires
        in_block(b, x),
    ensures
        all_in(walk(x, c), walk_block(b, c)),
    decreases b, 1nat,
{
    let tail = match b.expr {
        Some(y) => walk(*y, c),
        None => Seq::empty(),
    };
    lemma_in_sum(walk_stmts(b.stmts@, c), tail);
    if b.expr != Some(Box::new(x)) {
        let i = choose|i: int| 0 <= i < b.stmts@.len() && in_stmt(#[trigger] b.stmts@[i], x);
        assert(decreases_to!(b.stmts => b.stmts@[i]));
        lemma_stmt_walked(b.stmts@[i], x, c);
        lemma_stmts_walked(b.stmts@, i, c);
    }
}

/// What a statement's own expressions walk to.
spec fn walk_stmt(s: Stmt, c: bool) -> Seq<Expr> {
    match s.kind {
        StmtKind::Let(l) => (match l.init {
            Some(x) => walk(*x, c),
            None => Seq::empty(),
        }) + match l.els {
            Some(b) => walk_block(b, c),
            None => Seq::empty(),
        },
        StmtKind::Item => Seq::empty(),
        StmtKind::Expr(x) => walk(x, c),
        StmtKind::Semi(x) => walk(x, c),
    }
}

proof fn lemma_stmts_walked(ss: Seq<Stmt>, i: int, c: bool)
    requires
        0 <= i < ss.len(),
    ensures
        all_in(walk_stmt(ss[i], c), walk_stmts(ss, c)),
    decreases ss.len(),
{
    lemma_in_sum(walk_stmt(ss[0], c), walk_stmts(ss.drop_first(), c));
    if i > 0 {
        assert(ss.drop_first()[i - 1] == ss[i]);
        lemma_stmts_walked(ss.drop_first(), i - 1, c);
    }
}

proof fn lemma_stmt_walked(s: Stmt, x: Expr, c: bool)
    requires
        in_stmt(s, x),
    ensures
        all_in(walk(x, c), walk_stmt(s, c)),
    decreases s, 0nat,
{
    match s.kind {
        StmtKind::Let(l) => {
            let init = match l.init {
                Some(y) => walk(*y, c),
                None => Seq::empty(),
            };
            let els = match l.els {
                Some(b) => walk_block(b, c),
                None => Seq::empty(),
            };
            lemma_in_sum(init, els);
            if l.init != Some(Box::new(x)) {
                lemma_block_walked(l.els->Some_0, x, c);
            }
        },
        _ => {},
    }
}

proof fn lemma_part_walked(e: Expr, x: Expr, c: bool)
    requires
        is_part(e, x),
        c || !(e.kind is Closure),
    ensures
        all_in(walk(x, c), walk(e, c)),
{
    let inner = walk(e, c).skip(1);
    assert(walk(e, c) =~= seq![e] + inner);
    lemma_in_sum(seq![e], inner);
    match e.kind {
        ExprKind::Binary(_, a, b) => {
            assert(inner =~= walk(*a, c) + walk(*b, c));
            lemma_in_sum(walk(*a, c), walk(*b, c));
        },
        ExprKind::Index(a, b) => {
            assert(inner =~= walk(*a, c) + walk(*b, c));
            lemma_in_sum(walk(*a, c), walk(*b, c));
        },
        ExprKind::Assign(l, r) => {
            assert(inner =~= walk(*r, c) + walk(*l, c));
            lemma_in_sum(walk(*r, c), walk(*l, c));
        },
        ExprKind::AssignOp(l, r) => {
            assert(inner =~= walk(*r, c) + walk(*l, c));
            lemma_in_sum(walk(*r, c), walk(*l, c));
        },
        ExprKind::Call(f, args) => {
            assert(inner =~= walk(*f, c) + walk_all(args@, c));
            lemma_in_sum(walk(*f, c), walk_all(args@, c));
            if x != *f {
                lemma_list_walked(args@, choose|i: int| 0 <= i < args@.len() && args@[i] == x, c);
            }
        },
        ExprKind::MethodCall(_, f, args) => {
            assert(inner =~= walk(*f, c) + walk_all(args@, c));
            lemma_in_sum(walk(*f, c), walk_all(args@, c));
            if x != *f {
                lemma_list_walked(args@, choose|i: int| 0 <= i < args@.len() && args@[i] == x, c);
            }
        },
        ExprKind::Struct(_, fields, tail) => {
            let base = match tail {
                StructTail::Base(b) => walk(*b, c),
                _ => Seq::empty(),
            };
            assert(inner =~= walk_fields(fields@, c) + base);
            lemma_in_sum(walk_fields(fields@, c), base);
            if tail != StructTail::Base(Box::new(x)) {
                let i = choose|i: int| 0 <= i < fields@.len() && (#[trigger] fields@[i]).value == x;
                lemma_fields_walked(fields@, i, c);
            }
        },
        ExprKind::If(cond, t, els) => {
            let last = match els {
                Some(y) => walk(*y, c),
                None => Seq::empty(),
            };
            assert(inner =~= walk(*cond, c) + walk(*t, c) + last);
            lemma_in_sum(walk(*cond, c), walk(*t, c));
            lemma_in_sum(walk(*cond, c) + walk(*t, c), last);
        },
        ExprKind::Match(scrut, arms, _) => {
            assert(inner =~= walk(*scrut, c) + walk_arms(arms@, c));
            lemma_in_sum(walk(*scrut, c), walk_arms(arms@, c));
            if x != *scrut {
                let i = choose|i: int|
                    0 <= i < arms@.len() && ((#[trigger] arms@[i]).body == x || arms@[i].guard
                        == Some(Box::new(x)));
                lemma_arms_walked(arms@, i, c);
            }
        },
        ExprKind::Block(b) => {
            assert(inner =~= walk_block(b, c));
            lemma_block_walked(b, x, c);
        },
        ExprKind::Array(items) => {
            assert(inner =~= walk_all(items@, c));
            lemma_list_walked(items@, choose|i: int| 0 <= i < items@.len() && items@[i] == x, c);
        },
        ExprKind::Other(items) => {
            assert(inner =~= walk_all(items@, c));
            lemma_list_walked(items@, choose|i: int| 0 <= i < items@.len() && items@[i] == x, c);
        },
        ExprKind::Range(lo, hi) => {
            let a = match lo {
                Some(y) => walk(*y, c),
                None => Seq::empty(),
            };
            let b = match hi {
                Some(y) => walk(*y, c),
                None => Seq::empty(),
            };
            assert(inner =~= a + b);
            lemma_in_sum(a, b);
        },
        _ => {
            assert(inner =~= walk(x, c));
        },
    }
}

/// A walk misses nothing: it comes by every expression written anywhere in
/// the one it starts from, at any depth, and into closures where it is to.
pub proof fn lemma_walk_misses_nothing(path: Seq<Expr>, closures: bool)
    requires
        nested(path),
        enters(path, closures),
    ensures
        walk(path[0], closures).contains(path.last()),
    decreases path.len(),
{
    assert(walk(path[0], closures)[0] == path[0]);
    if path.len() > 1 {
        let rest = path.drop_first();
        assert forall|i: int| #![trigger rest[i]] 0 <= i < rest.len() - 1 implies is_part(
            rest[i],
            rest[i + 1],
        ) by {
            assert(rest[i] == path[i + 1] && rest[i + 1] == path[i + 1 + 1]);
        }
        assert forall|i: int| 0 <= i < rest.len() - 1 && !closures implies !((
        #[trigger] rest[i]).kind is Closure) by {
            assert(rest[i] == path[i + 1]);
        }
        lemma_walk_misses_nothing(rest, closures);
        assert(path[0].kind is Closure ==> closures);
        assert(rest[0] == path[0int + 1]);
        lemma_part_walked(path[0], path[1], closures);
    }
}

} // verus!
