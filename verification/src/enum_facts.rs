//! Shared analysis for the panic-elimination lints: which variant a
//! constructor literal builds, which variant a pattern head names, and
//! whether a match arm is a panic rather than any other divergence.

use crate::defs::{DefKind, Definitions, Known};
use crate::hir::{Expr, ExprKind, Pat, PatKind, Res};
use crate::ids::{DefId, Symbol};
use crate::ty::Ty;
use vstd::prelude::*;

verus! {

/// The definition a definition stands in.
pub open spec fn parent_of(defs: Definitions, id: DefId) -> Option<DefId> {
    match defs.at(id) {
        Some(d) => d.parent,
        None => None,
    }
}

pub fn parent_def(defs: &Definitions, id: DefId) -> (r: Option<DefId>)
    ensures
        r == parent_of(*defs, id),
{
    match defs.get(id) {
        Some(d) => d.parent,
        None => None,
    }
}

/// The variant a path resolves to, as itself or through its constructor.
pub open spec fn res_variant(defs: Definitions, res: Res) -> Option<DefId> {
    match res {
        Res::Def(kind, id) => match kind {
            DefKind::Variant => Some(id),
            DefKind::Ctor(of_variant) => if of_variant {
                parent_of(defs, id)
            } else {
                None
            },
            _ => None,
        },
        _ => None,
    }
}

pub fn variant_of_res(defs: &Definitions, res: Res) -> (r: Option<DefId>)
    ensures
        r == res_variant(*defs, res),
{
    match res {
        Res::Def(DefKind::Variant, id) => Some(id),
        Res::Def(DefKind::Ctor(true), id) => parent_def(defs, id),
        _ => None,
    }
}

/// What the constructor an expression is spelled as resolves to.
pub open spec fn ctor_res(e: Expr) -> Option<Res> {
    match e.kind {
        ExprKind::Call(callee, _) => match callee.kind {
            ExprKind::Path(p) => Some(p.res),
            _ => None,
        },
        ExprKind::Path(p) => Some(p.res),
        ExprKind::Struct(p, _, _) => Some(p.res),
        _ => None,
    }
}

pub fn res_of_ctor(e: &Expr) -> (r: Option<Res>)
    ensures
        r == ctor_res(*e),
{
    match &e.kind {
        ExprKind::Call(callee, _) => match &callee.kind {
            ExprKind::Path(p) => Some(p.res),
            _ => None,
        },
        ExprKind::Path(p) => Some(p.res),
        ExprKind::Struct(p, _, _) => Some(p.res),
        _ => None,
    }
}

/// The variant a constructor-literal argument passes, or None for anything
/// short of a literal constructor.
pub open spec fn literal_variant(defs: Definitions, e: Expr) -> Option<DefId> {
    match ctor_res(e) {
        Some(res) => res_variant(defs, res),
        None => None,
    }
}

pub fn ctor_literal_variant(defs: &Definitions, e: &Expr) -> (r: Option<DefId>)
    ensures
        r == literal_variant(*defs, *e),
{
    match res_of_ctor(e) {
        Some(res) => variant_of_res(defs, res),
        None => None,
    }
}

/// What a pattern names at its head.
pub open spec fn head_res(pat: Pat) -> Option<Res> {
    match pat.kind {
        PatKind::TupleStruct(p, _) => Some(p.res),
        PatKind::Struct(p, _) => Some(p.res),
        PatKind::Path(p) => Some(p.res),
        _ => None,
    }
}

pub fn res_of_head(pat: &Pat) -> (r: Option<Res>)
    ensures
        r == head_res(*pat),
{
    match &pat.kind {
        PatKind::TupleStruct(p, _) => Some(p.res),
        PatKind::Struct(p, _) => Some(p.res),
        PatKind::Path(p) => Some(p.res),
        _ => None,
    }
}

/// The variant a match-arm pattern names at its head.
pub open spec fn head_variant(defs: Definitions, pat: Pat) -> Option<DefId> {
    match head_res(pat) {
        Some(res) => res_variant(defs, res),
        None => None,
    }
}

pub fn arm_variant(defs: &Definitions, pat: &Pat) -> (r: Option<DefId>)
    ensures
        r == head_variant(*defs, *pat),
{
    match res_of_head(pat) {
        Some(res) => variant_of_res(defs, res),
        None => None,
    }
}

/// The macros whose expansion is a panic.
pub open spec fn panics(name: Seq<char>) -> bool {
    name == "panic"@ || name == "unreachable"@ || name == "todo"@ || name == "unimplemented"@
}

/// Some macro of the list is of the panic family.
pub open spec fn from_panic(defs: Definitions, macros: Seq<Symbol>) -> bool {
    exists|i: int| 0 <= i < macros.len() && panics(defs.text(#[trigger] macros[i]))
}

fn any_panics(defs: &Definitions, macros: &Vec<Symbol>) -> (r: bool)
    ensures
        r == from_panic(*defs, macros@),
{
    let mut i: usize = 0;
    while i < macros.len()
        invariant
            i <= macros@.len(),
            forall|k: int| 0 <= k < i ==> !panics(defs.text(#[trigger] macros@[k])),
        decreases macros.len() - i,
    {
        let m: Symbol = macros[i];
        if defs.reads(m, "panic") || defs.reads(m, "unreachable") || defs.reads(m, "todo")
            || defs.reads(m, "unimplemented") {
            assert(panics(defs.text(macros@[i as int])));
            return true;
        }
        i = i + 1;
    }
    false
}

/// A diverging arm that is a panic, not a `return`/`continue`: never-typed
/// AND rooted in a panic-family macro.
pub open spec fn panic_arm(defs: Definitions, body: Expr) -> bool {
    body.ty is Never && from_panic(defs, crate::hir_shapes::inside_blocks(body).origin.macros@)
}

pub fn is_panic_arm(defs: &Definitions, body: &Expr) -> (r: bool)
    ensures
        r == panic_arm(*defs, *body),
{
    let never = match &body.ty {
        Ty::Never => true,
        _ => false,
    };
    never && any_panics(defs, &crate::hir_shapes::peel_blocks_unsafe(body).origin.macros)
}

/// The path of the `Option` variant `None`.
pub open spec fn names_none(defs: Definitions, e: Expr) -> bool {
    match e.kind {
        ExprKind::Path(p) => res_variant(defs, p.res) matches Some(v) && defs.known(v)
            == Known::NoneVariant,
        _ => false,
    }
}

pub fn is_none_expr(defs: &Definitions, e: &Expr) -> (r: bool)
    ensures
        r == names_none(*defs, *e),
{
    match &e.kind {
        ExprKind::Path(p) => match variant_of_res(defs, p.res) {
            Some(v) => defs.known_as(v) == Known::NoneVariant,
            None => false,
        },
        _ => false,
    }
}

/// What `Some(..)` wraps.
pub open spec fn wrapped_in_some(defs: Definitions, e: Expr) -> Option<Expr> {
    match e.kind {
        ExprKind::Call(f, args) => match f.kind {
            ExprKind::Path(p) => if args@.len() == 1 && (res_variant(defs, p.res) matches Some(v)
                && defs.known(v) == Known::SomeVariant) {
                Some(args@[0])
            } else {
                None
            },
            _ => None,
        },
        _ => None,
    }
}

pub fn as_some_expr<'a>(defs: &Definitions, e: &'a Expr) -> (r: Option<&'a Expr>)
    ensures
        match r {
            Some(x) => wrapped_in_some(*defs, *e) == Some(*x),
            None => wrapped_in_some(*defs, *e) is None,
        },
{
    match &e.kind {
        ExprKind::Call(f, args) => match &f.kind {
            ExprKind::Path(p) => {
                let some = match variant_of_res(defs, p.res) {
                    Some(v) => defs.known_as(v) == Known::SomeVariant,
                    None => false,
                };
                if args.len() == 1 && some {
                    Some(&args[0])
                } else {
                    None
                }
            },
            _ => None,
        },
        _ => None,
    }
}

/// The resolution names the variant, by itself or by its constructor.
pub open spec fn names_variant(defs: Definitions, res: Res, v: DefId) -> bool {
    res == Res::Def(DefKind::Variant, v) || (res matches Res::Def(DefKind::Ctor(true), c) && (
    defs.at(c) matches Some(d) && d.parent == Some(v)))
}

/// A variant is named by its own path and by its constructor's, and by nothing
/// else: not by a struct's constructor, a constant, a function or a local.
pub proof fn lemma_variant_named(defs: Definitions, res: Res, v: DefId)
    ensures
        res_variant(defs, res) == Some(v) <==> names_variant(defs, res, v),
{
}

/// A literal that names a variant, alone, called or with braces, builds it; an
/// expression of any other form builds none.
pub proof fn lemma_literal_builds(defs: Definitions, e: Expr, v: DefId)
    ensures
        (e.kind matches ExprKind::Path(p) && names_variant(defs, p.res, v)) ==> literal_variant(
            defs,
            e,
        ) == Some(v),
        (e.kind matches ExprKind::Struct(p, _, _) && names_variant(defs, p.res, v))
            ==> literal_variant(defs, e) == Some(v),
        (e.kind matches ExprKind::Call(f, _) && (f.kind matches ExprKind::Path(p) && names_variant(
            defs,
            p.res,
            v,
        ))) ==> literal_variant(defs, e) == Some(v),
        !(e.kind is Path) && !(e.kind is Struct) && !(e.kind is Call) ==> literal_variant(defs, e)
            is None,
{
}

/// A pattern whose head names a variant, bare, with parts or with fields, is
/// of that variant; a pattern without a head is of none.
pub proof fn lemma_pattern_heads(defs: Definitions, pat: Pat, v: DefId)
    ensures
        (pat.kind matches PatKind::Path(p) && names_variant(defs, p.res, v)) ==> head_variant(
            defs,
            pat,
        ) == Some(v),
        (pat.kind matches PatKind::TupleStruct(p, _) && names_variant(defs, p.res, v))
            ==> head_variant(defs, pat) == Some(v),
        (pat.kind matches PatKind::Struct(p, _) && names_variant(defs, p.res, v)) ==> head_variant(
            defs,
            pat,
        ) == Some(v),
        !(pat.kind is Path) && !(pat.kind is TupleStruct) && !(pat.kind is Struct) ==> head_variant(
            defs,
            pat,
        ) is None,
{
}

/// Whatever diverges by a macro of the panic family is a panic, inside blocks
/// or not; what does not diverge, or diverges by itself, is none.
pub proof fn lemma_panics(defs: Definitions, body: Expr, i: int)
    ensures
        body.ty is Never && !(body.kind is Block) && 0 <= i < body.origin.macros@.len() && (
        defs.text(body.origin.macros@[i]) == "panic"@ || defs.text(body.origin.macros@[i])
            == "unreachable"@ || defs.text(body.origin.macros@[i]) == "todo"@ || defs.text(
            body.origin.macros@[i],
        ) == "unimplemented"@) ==> panic_arm(defs, body),
        !(body.ty is Never) ==> !panic_arm(defs, body),
        !(body.kind is Block) && body.origin.macros@.len() == 0 ==> !panic_arm(defs, body),
        (body.kind matches ExprKind::Block(b) && b.stmts@.len() == 0 && (b.expr matches Some(x)
            && panic_arm(defs, *x))) && body.ty is Never ==> panic_arm(defs, body),
{
    if 0 <= i < body.origin.macros@.len() && panics(defs.text(body.origin.macros@[i])) {
        assert(from_panic(defs, body.origin.macros@));
    }
}

/// `None` is a path to the variant, and `Some(x)` a call of the other with one
/// argument.
pub proof fn lemma_option_literals(defs: Definitions, e: Expr, v: DefId, x: Expr)
    ensures
        (e.kind matches ExprKind::Path(p) && names_variant(defs, p.res, v)) && defs.known(v)
            == Known::NoneVariant ==> names_none(defs, e),
        (e.kind matches ExprKind::Call(f, args) && args@.len() == 1 && args@[0] == x && (
        f.kind matches ExprKind::Path(p) && names_variant(defs, p.res, v))) && defs.known(v)
            == Known::SomeVariant ==> wrapped_in_some(defs, e) == Some(x),
        !(e.kind is Path) ==> !names_none(defs, e),
        !(e.kind is Call) ==> wrapped_in_some(defs, e) is None,
        (e.kind matches ExprKind::Path(p) && names_variant(defs, p.res, v)) && defs.known(v)
            != Known::NoneVariant ==> !names_none(defs, e),
{
}

} // verus!
