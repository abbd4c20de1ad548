//! The site where a typed error is collapsed into a string:
//! `.map_err(|e| e.to_string())` on a `Result` whose error type is not a
//! string already.

use crate::adt_facts::{err_ty, is_known_ty, known_ty, result_err_ty};
use crate::defs::{Definitions, Known};
use crate::hir::{targets, walk, walk_all, walked, Expr, ExprKind, Pat, PatKind, Res};
use crate::hir_shapes::{called_def, callee_of};
use crate::ids::HirId;
use crate::report::{emit, finding, views, Finding, FindingView, Lint};
use crate::text::same;
use crate::ty::{adt_id, peeled, Ty};
use vstd::prelude::*;
use vstd::string::*;

verus! {

/// `String`, or `str` behind references.
pub open spec fn is_string(defs: Definitions, ty: Ty) -> bool {
    is_known_ty(defs, peeled(ty), Known::StringType) || peeled(ty) is Str
}

fn string_like(defs: &Definitions, ty: &Ty) -> (r: bool)
    ensures
        r == is_string(*defs, *ty),
{
    let t = ty.peel_refs();
    known_ty(defs, t, Known::StringType) || t.is_str()
}

/// The local a closure of one plain parameter binds it to.
pub open spec fn only_param(params: Seq<Pat>) -> Option<HirId> {
    if params.len() == 1 {
        match params[0].kind {
            PatKind::Binding(id, _, None) => Some(id),
            _ => None,
        }
    } else {
        None
    }
}

fn param_of(params: &Vec<Pat>) -> (r: Option<HirId>)
    ensures
        r == only_param(params@),
{
    if params.len() == 1 {
        match &params[0].kind {
            PatKind::Binding(id, _, None) => Some(*id),
            _ => None,
        }
    } else {
        None
    }
}

/// The expression is the local itself.
pub open spec fn reads_local(e: Expr, id: HirId) -> bool {
    match e.kind {
        ExprKind::Path(p) => p.res == Res::Local(id),
        _ => false,
    }
}

fn is_param(e: &Expr, id: HirId) -> (r: bool)
    ensures
        r == reads_local(*e, id),
{
    match &e.kind {
        ExprKind::Path(p) => match p.res {
            Res::Local(l) => l == id,
            _ => false,
        },
        _ => false,
    }
}

/// The expression reads the local somewhere.
pub open spec fn mentions_local(e: Expr, id: HirId) -> bool {
    exists|i: int| 0 <= i < walk(e, true).len() && reads_local(#[trigger] walk(e, true)[i], id)
}

fn mentions_param(e: &Expr, id: HirId) -> (r: bool)
    ensures
        r == mentions_local(*e, id),
{
    let es = walked(e, true);
    let ghost all = walk(*e, true);
    let mut i: usize = 0;
    while i < es.len()
        invariant
            i <= es@.len(),
            all == walk(*e, true),
            targets(es@) == all,
            forall|j: int| 0 <= j < i ==> !reads_local(#[trigger] all[j], id),
        decreases es.len() - i,
    {
        assert(all[i as int] == *es@[i as int]);
        assert(all.len() == es@.len());
        if is_param(es[i], id) {
            assert(reads_local(walk(*e, true)[i as int], id));
            return true;
        }
        i = i + 1;
    }
    assert(all.len() == es@.len());
    false
}

/// The body is exactly `param.to_string()`, `String::from(param)` or a
/// `format!` of the parameter: a stringification and nothing else.
pub open spec fn stringifies(defs: Definitions, params: Seq<Pat>, body: Expr) -> bool {
    match only_param(params) {
        Some(id) => (body.origin.from_format && mentions_local(body, id)) || match body.kind {
            ExprKind::MethodCall(name, recv, args) => args@.len() == 0 && defs.text(name)
                == "to_string"@ && reads_local(*recv, id),
            ExprKind::Call(_, args) => args@.len() == 1 && reads_local(args@[0], id) && (called_def(
                body,
            ) matches Some(d) && defs.path_text(d) == "std::string::String::from"@),
            _ => false,
        },
        None => false,
    }
}

pub fn closure_body_stringifies(defs: &Definitions, params: &Vec<Pat>, body: &Expr) -> (r: bool)
    ensures
        r == stringifies(*defs, params@, *body),
{
    let id = match param_of(params) {
        Some(id) => id,
        None => {
            return false;
        },
    };
    (body.origin.from_format && mentions_param(body, id)) || match &body.kind {
        ExprKind::MethodCall(name, recv, args) => args.len() == 0 && defs.reads(*name, "to_string")
            && is_param(recv, id),
        ExprKind::Call(_, args) => args.len() == 1 && is_param(&args[0], id) && match callee_of(
            body,
        ) {
            Some(c) => same(defs.path_of(c.def), "std::string::String::from"),
            None => false,
        },
        _ => false,
    }
}

/// An error type that is a struct, enum or union and no string.
pub open spec fn typed_error(defs: Definitions, ty: Ty) -> bool {
    adt_id(peeled(ty)) is Some && !is_known_ty(defs, peeled(ty), Known::StringType)
}

/// How the error type of the receiver prints.
pub open spec fn error_text(recv: Expr) -> Seq<char> {
    if recv.arg_texts@.len() > 1 {
        recv.arg_texts@[1]@
    } else {
        ""@
    }
}

/// What the lint says of an expression.
pub open spec fn collapses(defs: Definitions, e: Expr) -> Seq<FindingView> {
    match e.kind {
        ExprKind::MethodCall(name, recv, args) => if args@.len() != 1 || defs.text(name)
            != "map_err"@ {
            Seq::empty()
        } else {
            match (err_ty(defs, peeled(recv.adjusted)), err_ty(defs, e.ty), args@[0].kind) {
                (Some(from), Some(to), ExprKind::Closure(params, body)) => if typed_error(defs, from)
                    && is_string(defs, to) && stringifies(defs, params@, *body) {
                    seq![
                        finding(
                            Lint::StringifiedError,
                            e.span,
                            "typed error `"@ + error_text(*recv) + "` collapsed into a string"@,
                            "return the error type, or an error enum with a variant that wraps it"@,
                        ),
                    ]
                } else {
                    Seq::empty()
                },
                _ => Seq::empty(),
            }
        },
        _ => Seq::empty(),
    }
}

/// What the lint says of an expression.
pub fn check_expr(defs: &Definitions, e: &Expr) -> (r: Vec<Finding>)
    ensures
        views(r@) == collapses(*defs, *e),
{
    let mut out: Vec<Finding> = Vec::new();
    assert(views(out@) =~= Seq::<FindingView>::empty());
    let (name, recv, args) = match &e.kind {
        ExprKind::MethodCall(n, r, a) => (*n, r, a),
        _ => {
            return out;
        },
    };
    if args.len() != 1 || !defs.reads(name, "map_err") {
        return out;
    }
    match (
        result_err_ty(defs, recv.adjusted.peel_refs()),
        result_err_ty(defs, &e.ty),
        &args[0].kind,
    ) {
        (Some(from), Some(to), ExprKind::Closure(params, body)) => {
            let t = from.peel_refs();
            let typed = t.adt().is_some() && !known_ty(defs, t, Known::StringType);
            if typed && string_like(defs, to) && closure_body_stringifies(
                defs,
                params,
                body,
            ) {
                let mut msg = String::from_str("typed error `");
                msg.append(
                    if recv.arg_texts.len() > 1 {
                        recv.arg_texts[1].as_str()
                    } else {
                        ""
                    },
                );
                msg.append("` collapsed into a string");
                emit(
                    &mut out,
                    Lint::StringifiedError,
                    e.span,
                    msg,
                    "return the error type, or an error enum with a variant that wraps it",
                );
                assert(views(out@) =~= collapses(*defs, *e));
            }
        },
        _ => {},
    }
    out
}

/// An error that is a string already loses nothing by becoming one.
pub proof fn lemma_string_error_is_quiet(defs: Definitions, e: Expr)
    requires
        e.kind matches ExprKind::MethodCall(_, recv, _) && (err_ty(
            defs,
            peeled(recv.adjusted),
        ) matches Some(from) && is_known_ty(defs, peeled(from), Known::StringType)),
    ensures
        collapses(defs, e).len() == 0,
{
}

/// A closure that never looks at its parameter collapses nothing by it: only
/// what is made of the error itself is reported.
pub proof fn lemma_unread_error_is_quiet(
    defs: Definitions,
    params: Seq<Pat>,
    body: Expr,
    id: HirId,
)
    requires
        only_param(params) == Some(id),
        !mentions_local(body, id),
    ensures
        !stringifies(defs, params, body),
{
    let all = walk(body, true);
    match body.kind {
        ExprKind::MethodCall(_, recv, args) => {
            if reads_local(*recv, id) {
                let inner = walk(*recv, true);
                assert(inner[0] == *recv);
                assert(all[1] == *recv);
            }
        },
        ExprKind::Call(f, args) => {
            if args@.len() == 1 && reads_local(args@[0], id) {
                let front = walk(*f, true);
                let k = 1 + front.len();
                assert(walk(args@[0], true)[0] == args@[0]);
                assert(walk_all(args@, true)[0] == args@[0]);
                assert(all[k as int] == args@[0]);
            }
        },
        _ => {},
    }
}

/// The closure is a stringification of its one parameter: `p.to_string()`,
/// `String::from(p)`, or a `format!` in which it occurs.
pub open spec fn makes_a_string_of(
    defs: Definitions,
    params: Seq<Pat>,
    body: Expr,
    id: HirId,
    path: Seq<Expr>,
) -> bool {
    &&& params.len() == 1
    &&& params[0].kind matches PatKind::Binding(i, _, None) && i == id
    &&& {
        ||| body.kind matches ExprKind::MethodCall(name, recv, args) && args@.len() == 0
            && defs.text(name) == "to_string"@ && (recv.kind matches ExprKind::Path(p) && p.res
            == Res::Local(id))
        ||| body.kind matches ExprKind::Call(f, args) && args@.len() == 1 && (
        args@[0].kind matches ExprKind::Path(p) && p.res == Res::Local(id)) && (
        f.kind matches ExprKind::Path(q) && (q.res matches Res::Def(_, d) && defs.path_text(d)
            == "std::string::String::from"@))
        ||| body.origin.from_format && crate::hir::nested(path) && path[0] == body && (
        path.last().kind matches ExprKind::Path(p) && p.res == Res::Local(id))
    }
}

/// `map_err` of a typed error into a string, by a closure that is a
/// stringification of the error, is reported, once and where it stands.
pub proof fn lemma_collapsed_error_is_reported(
    defs: Definitions,
    e: Expr,
    recv: Expr,
    params: Seq<Pat>,
    body: Expr,
    id: HirId,
    path: Seq<Expr>,
    from: Ty,
    to: Ty,
)
    requires
        e.kind matches ExprKind::MethodCall(name, r, args) && *r == recv && defs.text(name)
            == "map_err"@ && args@.len() == 1 && (args@[0].kind matches ExprKind::Closure(ps, b)
            && ps@ == params && *b == body),
        peeled(recv.adjusted) matches Ty::Adt(d, xs) && defs.known(d) == Known::ResultType
            && xs@.len() == 2 && xs@[1] == from,
        e.ty matches Ty::Adt(d, xs) && defs.known(d) == Known::ResultType && xs@.len() == 2
            && xs@[1] == to,
        peeled(from) matches Ty::Adt(d, _) && defs.known(d) != Known::StringType,
        peeled(to) is Str || (peeled(to) matches Ty::Adt(d, _) && defs.known(d)
            == Known::StringType),
        makes_a_string_of(defs, params, body, id, path),
    ensures
        collapses(defs, e).len() == 1,
        collapses(defs, e)[0].lint == Lint::StringifiedError,
        collapses(defs, e)[0].at == e.span,
{
    if crate::hir::nested(path) && path[0] == body {
        crate::hir::lemma_walk_misses_nothing(path, true);
        let all = walk(body, true);
        let i = choose|i: int| 0 <= i < all.len() && all[i] == path.last();
        assert(reads_local(all[i], id) == reads_local(path.last(), id));
    }
    assert(stringifies(defs, params, body));
}

/// Another method, a result that keeps a typed error and a closure that is no
/// closure are left alone.
pub proof fn lemma_kept_error_is_quiet(defs: Definitions, e: Expr)
    requires
        !(e.kind is MethodCall) || (e.kind matches ExprKind::MethodCall(name, _, args) && (defs.text(
            name,
        ) != "map_err"@ || args@.len() != 1 || !(args@[0].kind is Closure))) || (
        e.ty matches Ty::Adt(d, xs) && defs.known(d) == Known::ResultType && xs@.len() == 2 && !(
        peeled(xs@[1]) is Str) && !(peeled(xs@[1]) matches Ty::Adt(s, _) && defs.known(s)
            == Known::StringType)),
    ensures
        collapses(defs, e).len() == 0,
{
}

} // verus!
