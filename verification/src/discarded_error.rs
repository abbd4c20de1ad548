//! `.ok();` in statement position: the `Result` becomes an `Option` that is
//! dropped at once, so the error is unobservable. A deliberate discard is
//! written `let _ = ...`, which states the intent; `.ok();` reads like
//! handling and handles nothing.

use crate::defs::{Definitions, Known};
use crate::hir::{ExprKind, Stmt, StmtKind};
use crate::hir_shapes::{adjusted_adt, adt_behind};
use crate::report::{emit, finding, views, Finding, FindingView, Lint};
use vstd::prelude::*;
use vstd::string::*;

verus! {

/// What the lint says of a statement.
pub open spec fn discards(defs: Definitions, s: Stmt) -> Seq<FindingView> {
    match s.kind {
        StmtKind::Semi(e) => match e.kind {
            ExprKind::MethodCall(name, recv, args) => if args@.len() == 0 && defs.text(name)
                == "ok"@ && (adjusted_adt(*recv) matches Some(d) && defs.known(d)
                == Known::ResultType) {
                seq![
                    finding(
                        Lint::DiscardedError,
                        e.span,
                        "`.ok()` in statement position discards the error unobserved"@,
                        "handle the error, or state the discard with `let _ = ...`"@,
                    ),
                ]
            } else {
                Seq::empty()
            },
            _ => Seq::empty(),
        },
        _ => Seq::empty(),
    }
}

/// What the lint says of a statement.
pub fn check_stmt(defs: &Definitions, s: &Stmt) -> (r: Vec<Finding>)
    ensures
        views(r@) == discards(*defs, *s),
{
    let mut out: Vec<Finding> = Vec::new();
    assert(views(out@) =~= Seq::<FindingView>::empty());
    let e = match &s.kind {
        StmtKind::Semi(e) => e,
        _ => {
            return out;
        },
    };
    match &e.kind {
        ExprKind::MethodCall(name, recv, args) => {
            let on_result = match adt_behind(recv) {
                Some(d) => defs.known_as(d) == Known::ResultType,
                None => false,
            };
            if args.len() == 0 && defs.reads(*name, "ok") && on_result {
                emit(
                    &mut out,
                    Lint::DiscardedError,
                    e.span,
                    String::from_str("`.ok()` in statement position discards the error unobserved"),
                    "handle the error, or state the discard with `let _ = ...`",
                );
                assert(views(out@) =~= discards(*defs, *s));
            }
        },
        _ => {},
    }
    out
}

/// Naming the discard is enough: no `let` is ever reported.
pub proof fn lemma_stated_discard_is_quiet(defs: Definitions, s: Stmt)
    requires
        s.kind is Let,
    ensures
        discards(defs, s).len() == 0,
{
}

/// Every `.ok();` on a `Result`, owned or behind references, is reported, once
/// and where it stands, and nothing else is.
pub proof fn lemma_dropped_ok_is_reported(
    defs: Definitions,
    s: Stmt,
    e: crate::hir::Expr,
    name: crate::ids::Symbol,
    recv: crate::hir::Expr,
)
    requires
        s.kind == StmtKind::Semi(e),
        e.kind matches ExprKind::MethodCall(n, r, _) && n == name && *r == recv,
    ensures
        (e.kind matches ExprKind::MethodCall(_, _, args) && args@.len() == 0) && defs.text(name)
            == "ok"@ && (crate::ty::peeled(recv.adjusted) matches crate::ty::Ty::Adt(d, _)
            && defs.known(d) == Known::ResultType) ==> discards(defs, s).len() == 1 && discards(
            defs,
            s,
        )[0].lint == Lint::DiscardedError && discards(defs, s)[0].at == e.span,
        discards(defs, s).len() > 0 ==> defs.text(name) == "ok"@ && (crate::ty::peeled(
            recv.adjusted,
        ) matches crate::ty::Ty::Adt(d, _) && defs.known(d) == Known::ResultType),
{
}

/// An expression whose value is used is no discard: only a statement that ends
/// in a semicolon is.
pub proof fn lemma_used_value_is_quiet(defs: Definitions, s: Stmt)
    requires
        !(s.kind is Semi),
    ensures
        discards(defs, s).len() == 0,
{
}

} // verus!
