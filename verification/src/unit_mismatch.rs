//! Addition, subtraction and comparison between values whose names claim
//! different units: `timeout_ms + deadline_ns` compiles and is always wrong.
//! Multiplication and division stay silent, since they are how units
//! legitimately convert.

use crate::defs::Definitions;
use crate::hir::{BinOp, Expr, ExprKind, QPath};
use crate::ids::Symbol;
use crate::report::{emit, finding, views, Finding, FindingView, Lint};
use crate::text::{rsplit_once, same, split_last};
use vstd::prelude::*;
use vstd::string::*;

verus! {

/// Unit classes by name suffix. Aliases share a class; a mismatch is two
/// operands from different classes.
pub open spec fn class_of(suffix: Seq<char>) -> Option<Seq<char>> {
    if suffix == "ns"@ || suffix == "nanos"@ {
        Some("ns"@)
    } else if suffix == "us"@ || suffix == "micros"@ {
        Some("us"@)
    } else if suffix == "ms"@ || suffix == "millis"@ {
        Some("ms"@)
    } else if suffix == "sec"@ || suffix == "secs"@ || suffix == "seconds"@ {
        Some("s"@)
    } else if suffix == "mins"@ || suffix == "minutes"@ {
        Some("min"@)
    } else if suffix == "bytes"@ {
        Some("bytes"@)
    } else if suffix == "kb"@ || suffix == "kib"@ {
        Some("kb"@)
    } else if suffix == "mb"@ || suffix == "mib"@ {
        Some("mb"@)
    } else if suffix == "gb"@ || suffix == "gib"@ {
        Some("gb"@)
    } else if suffix == "tenths"@ {
        Some("tenths"@)
    } else {
        None
    }
}

pub fn unit_class(suffix: &str) -> (r: Option<&'static str>)
    ensures
        match r {
            Some(c) => class_of(suffix@) == Some(c@),
            None => class_of(suffix@) is None,
        },
{
    if same(suffix, "ns") || same(suffix, "nanos") {
        Some("ns")
    } else if same(suffix, "us") || same(suffix, "micros") {
        Some("us")
    } else if same(suffix, "ms") || same(suffix, "millis") {
        Some("ms")
    } else if same(suffix, "sec") || same(suffix, "secs") || same(suffix, "seconds") {
        Some("s")
    } else if same(suffix, "mins") || same(suffix, "minutes") {
        Some("min")
    } else if same(suffix, "bytes") {
        Some("bytes")
    } else if same(suffix, "kb") || same(suffix, "kib") {
        Some("kb")
    } else if same(suffix, "mb") || same(suffix, "mib") {
        Some("mb")
    } else if same(suffix, "gb") || same(suffix, "gib") {
        Some("gb")
    } else if same(suffix, "tenths") {
        Some("tenths")
    } else {
        None
    }
}

/// The last name of a path that is resolved as written.
pub open spec fn last_segment(p: QPath) -> Option<Symbol> {
    if p.type_relative || p.segments@.len() == 0 {
        None
    } else {
        Some(p.segments@.last())
    }
}

fn final_segment(p: &QPath) -> (r: Option<Symbol>)
    ensures
        r == last_segment(*p),
{
    if p.type_relative || p.segments.len() == 0 {
        None
    } else {
        Some(p.segments[p.segments.len() - 1])
    }
}

/// The name an expression goes by: the final identifier of a path, field
/// access, or call. Casts and references are transparent: they change
/// representation, not the unit the name asserts.
pub open spec fn claiming_name(e: Expr) -> Option<Symbol>
    decreases e,
{
    match e.kind {
        ExprKind::Cast(inner) => claiming_name(*inner),
        ExprKind::AddrOf(_, _, inner) => claiming_name(*inner),
        ExprKind::Unary(_, inner) => claiming_name(*inner),
        ExprKind::Field(_, name) => Some(name),
        ExprKind::Path(p) => last_segment(p),
        ExprKind::MethodCall(name, _, _) => Some(name),
        ExprKind::Call(callee, _) => match callee.kind {
            ExprKind::Path(p) => last_segment(p),
            _ => None,
        },
        _ => None,
    }
}

fn name_of_claim(e: &Expr) -> (r: Option<Symbol>)
    ensures
        r == claiming_name(*e),
    decreases e,
{
    match &e.kind {
        ExprKind::Cast(inner) => name_of_claim(inner),
        ExprKind::AddrOf(_, _, inner) => name_of_claim(inner),
        ExprKind::Unary(_, inner) => name_of_claim(inner),
        ExprKind::Field(_, name) => Some(*name),
        ExprKind::Path(p) => final_segment(p),
        ExprKind::MethodCall(name, _, _) => Some(*name),
        ExprKind::Call(callee, _) => match &callee.kind {
            ExprKind::Path(p) => final_segment(p),
            _ => None,
        },
        _ => None,
    }
}

/// The unit an expression's name claims, and the name.
pub open spec fn unit_claim(defs: Definitions, e: Expr) -> Option<(Seq<char>, Seq<char>)> {
    match claiming_name(e) {
        Some(n) => match split_last(defs.text(n), "_"@) {
            Some((_, suffix)) => match class_of(suffix) {
                Some(c) => Some((c, defs.text(n))),
                None => None,
            },
            None => None,
        },
        None => None,
    }
}

pub fn claimed_unit(defs: &Definitions, e: &Expr) -> (r: Option<(&'static str, String)>)
    ensures
        match r {
            Some((c, n)) => unit_claim(*defs, *e) == Some((c@, n@)),
            None => unit_claim(*defs, *e) is None,
        },
{
    match name_of_claim(e) {
        Some(n) => match rsplit_once(defs.text_of(n), "_") {
            Some((_, suffix)) => match unit_class(suffix.as_str()) {
                Some(c) => Some((c, String::from_str(defs.text_of(n)))),
                None => None,
            },
            None => None,
        },
        None => None,
    }
}

/// The operator is addition or subtraction.
pub open spec fn adds(op: BinOp) -> bool {
    op == BinOp::Plus || op == BinOp::Minus
}

/// The operator is a comparison.
pub open spec fn compares(op: BinOp) -> bool {
    op == BinOp::Less || op == BinOp::LessEqual || op == BinOp::Greater || op
        == BinOp::GreaterEqual || op == BinOp::EqualTo || op == BinOp::NotEqual
}

/// What the lint says of an expression.
pub open spec fn mismatches(defs: Definitions, e: Expr) -> Seq<FindingView> {
    match e.kind {
        ExprKind::Binary(op, lhs, rhs) => if !(adds(op) || compares(op))
            || e.origin.from_expansion {
            Seq::empty()
        } else {
            match (unit_claim(defs, *lhs), unit_claim(defs, *rhs)) {
                (Some((lc, ln)), Some((rc, rn))) => if lc == rc {
                    Seq::empty()
                } else {
                    seq![
                        finding(
                            Lint::UnitMismatch,
                            e.span,
                            "`"@ + ln + "` claims "@ + lc + " and `"@ + rn + "` claims "@ + rc
                                + "; "@ + (if adds(op) {
                                "arithmetic"@
                            } else {
                                "comparison"@
                            }) + " between them mixes units"@,
                            "convert one side, or rename whichever name is lying about its unit"@,
                        ),
                    ]
                },
                _ => Seq::empty(),
            }
        },
        _ => Seq::empty(),
    }
}

/// What the lint says of an expression.
pub fn check_expr(defs: &Definitions, e: &Expr) -> (r: Vec<Finding>)
    ensures
        views(r@) == mismatches(*defs, *e),
{
    let mut out: Vec<Finding> = Vec::new();
    assert(views(out@) =~= Seq::<FindingView>::empty());
    let (op, lhs, rhs) = match &e.kind {
        ExprKind::Binary(o, l, r) => (*o, l, r),
        _ => {
            return out;
        },
    };
    let arithmetic = op == BinOp::Plus || op == BinOp::Minus;
    let comparison = op == BinOp::Less || op == BinOp::LessEqual || op == BinOp::Greater || op
        == BinOp::GreaterEqual || op == BinOp::EqualTo || op == BinOp::NotEqual;
    if !(arithmetic || comparison) || e.origin.from_expansion {
        return out;
    }
    match (claimed_unit(defs, lhs), claimed_unit(defs, rhs)) {
        (Some((lc, ln)), Some((rc, rn))) => {
            if !same(lc, rc) {
                let mut msg = String::from_str("`");
                msg.append(ln.as_str());
                msg.append("` claims ");
                msg.append(lc);
                msg.append(" and `");
                msg.append(rn.as_str());
                msg.append("` claims ");
                msg.append(rc);
                msg.append("; ");
                msg.append(
                    if arithmetic {
                        "arithmetic"
                    } else {
                        "comparison"
                    },
                );
                msg.append(" between them mixes units");
                emit(
                    &mut out,
                    Lint::UnitMismatch,
                    e.span,
                    msg,
                    "convert one side, or rename whichever name is lying about its unit",
                );
                assert(views(out@) =~= mismatches(*defs, *e));
            }
        },
        _ => {},
    }
    out
}

/// Multiplication and division convert units, and are never reported.
pub proof fn lemma_conversion_is_silent(defs: Definitions, e: Expr, op: BinOp)
    requires
        op == BinOp::Times || op == BinOp::Div,
        e.kind matches ExprKind::Binary(o, _, _) && o == op,
    ensures
        mismatches(defs, e).len() == 0,
{
}

/// A reference or a cast claims the unit of what is behind it.
pub proof fn lemma_claim_sees_through(defs: Definitions, e: Expr, inner: Expr)
    requires
        (e.kind matches ExprKind::Cast(i) && *i == inner) || (e.kind matches ExprKind::AddrOf(
            _,
            _,
            i,
        ) && *i == inner),
    ensures
        unit_claim(defs, e) == unit_claim(defs, inner),
{
}

/// Operands that claim one class are never reported, whatever their names.
pub proof fn lemma_one_class_is_silent(defs: Definitions, e: Expr, lhs: Expr, rhs: Expr)
    requires
        e.kind matches ExprKind::Binary(_, l, r) && *l == lhs && *r == rhs,
        unit_claim(defs, lhs) matches Some(a) && unit_claim(defs, rhs) matches Some(b) && a.0
            == b.0,
    ensures
        mismatches(defs, e).len() == 0,
{
}

/// Whatever is added, subtracted or compared by hand is reported, once and at
/// the operation, if the two sides' names claim different units.
pub proof fn lemma_mixed_units_are_reported(
    defs: Definitions,
    e: Expr,
    op: BinOp,
    lhs: Expr,
    rhs: Expr,
)
    requires
        e.kind matches ExprKind::Binary(o, l, r) && o == op && *l == lhs && *r == rhs,
        op == BinOp::Plus || op == BinOp::Minus || op == BinOp::Less || op == BinOp::LessEqual || op
            == BinOp::Greater || op == BinOp::GreaterEqual || op == BinOp::EqualTo || op
            == BinOp::NotEqual,
        !e.origin.from_expansion,
        unit_claim(defs, lhs) matches Some(a) && unit_claim(defs, rhs) matches Some(b) && a.0
            != b.0,
    ensures
        mismatches(defs, e).len() == 1,
        mismatches(defs, e)[0].lint == Lint::UnitMismatch,
        mismatches(defs, e)[0].at == e.span,
        mismatches(defs, e)[0].message == {
            let a = unit_claim(defs, lhs)->Some_0;
            let b = unit_claim(defs, rhs)->Some_0;
            let what = if op == BinOp::Plus || op == BinOp::Minus {
                "arithmetic"@
            } else {
                "comparison"@
            };
            "`"@ + a.1 + "` claims "@ + a.0 + " and `"@ + b.1 + "` claims "@ + b.0 + "; "@ + what
                + " between them mixes units"@
        },
{
}

/// Nothing else is reported: an operation that is neither, one a macro wrote,
/// and one with a side that claims no unit or the same unit are left alone.
pub proof fn lemma_only_mixed_units_are_reported(defs: Definitions, e: Expr)
    requires
        mismatches(defs, e).len() > 0,
    ensures
        !e.origin.from_expansion,
        e.kind matches ExprKind::Binary(op, l, r) && !(op == BinOp::Times || op == BinOp::Div || op
            == BinOp::Rem || op == BinOp::And || op == BinOp::Or || op == BinOp::BitXor || op
            == BinOp::BitAnd || op == BinOp::BitOr || op == BinOp::Shl || op == BinOp::Shr) && (
        unit_claim(defs, *l) matches Some(a) && unit_claim(defs, *r) matches Some(b) && a.0 != b.0),
{
}

/// The expression goes by the name: a field, a method or function called, or
/// the end of a path.
pub open spec fn goes_by(e: Expr, name: Symbol) -> bool {
    match e.kind {
        ExprKind::Field(_, n) => n == name,
        ExprKind::MethodCall(n, _, _) => n == name,
        ExprKind::Path(p) => !p.type_relative && p.segments@.len() > 0 && p.segments@[p.segments@.len()
            - 1] == name,
        ExprKind::Call(callee, _) => callee.kind matches ExprKind::Path(p) && !p.type_relative
            && p.segments@.len() > 0 && p.segments@[p.segments@.len() - 1] == name,
        _ => false,
    }
}

proof fn lemma_unit_words()
    ensures
        class_of("ns"@) == Some("ns"@) && class_of("nanos"@) == Some("ns"@),
        class_of("us"@) == Some("us"@) && class_of("micros"@) == Some("us"@),
        class_of("ms"@) == Some("ms"@) && class_of("millis"@) == Some("ms"@),
        class_of("sec"@) == Some("s"@) && class_of("secs"@) == Some("s"@) && class_of("seconds"@)
            == Some("s"@),
        class_of("mins"@) == Some("min"@) && class_of("minutes"@) == Some("min"@),
        class_of("bytes"@) == Some("bytes"@),
        class_of("kb"@) == Some("kb"@) && class_of("kib"@) == Some("kb"@),
        class_of("mb"@) == Some("mb"@) && class_of("mib"@) == Some("mb"@),
        class_of("gb"@) == Some("gb"@) && class_of("gib"@) == Some("gb"@),
        class_of("tenths"@) == Some("tenths"@),
{
    reveal_strlit("ns");
    reveal_strlit("nanos");
    reveal_strlit("us");
    reveal_strlit("micros");
    reveal_strlit("ms");
    reveal_strlit("millis");
    reveal_strlit("sec");
    reveal_strlit("secs");
    reveal_strlit("seconds");
    reveal_strlit("mins");
    reveal_strlit("minutes");
    reveal_strlit("bytes");
    reveal_strlit("kb");
    reveal_strlit("kib");
    reveal_strlit("mb");
    reveal_strlit("mib");
    reveal_strlit("gb");
    reveal_strlit("gib");
    reveal_strlit("tenths");
    assert("ns"@[0] == 'n' && "nanos"@[0] == 'n' && "us"@[0] == 'u' && "micros"@[1] == 'i');
    assert("ms"@[1] == 's' && "millis"@[2] == 'l' && "micros"@[2] == 'c' && "minutes"@[2] == 'n');
    assert("mins"@[2] == 'n' && "mib"@[2] == 'b' && "mb"@[1] == 'b' && "gb"@[0] == 'g');
    assert("kb"@[0] == 'k' && "kib"@[0] == 'k' && "gib"@[0] == 'g' && "tenths"@[0] == 't');
    assert("bytes"@[0] == 'b' && "sec"@[0] == 's' && "secs"@[0] == 's' && "seconds"@[0] == 's');
    assert("mb"@[0] == 'm' && "ms"@[0] == 'm' && "mins"@[0] == 'm' && "mib"@[0] == 'm');
}

/// A name that ends in `_` and a unit claims that unit, in full or in short,
/// wherever the name stands; a name with another ending claims none.
pub proof fn lemma_suffix_is_the_claim(
    defs: Definitions,
    e: Expr,
    name: Symbol,
    head: Seq<char>,
    suffix: Seq<char>,
)
    requires
        goes_by(e, name),
        defs.text(name) == head + seq!['_'] + suffix,
        !suffix.contains('_'),
    ensures
        suffix == "ns"@ || suffix == "nanos"@ ==> unit_claim(defs, e) == Some(
            ("ns"@, defs.text(name)),
        ),
        suffix == "us"@ || suffix == "micros"@ ==> unit_claim(defs, e) == Some(
            ("us"@, defs.text(name)),
        ),
        suffix == "ms"@ || suffix == "millis"@ ==> unit_claim(defs, e) == Some(
            ("ms"@, defs.text(name)),
        ),
        suffix == "sec"@ || suffix == "secs"@ || suffix == "seconds"@ ==> unit_claim(defs, e)
            == Some(("s"@, defs.text(name))),
        suffix == "mins"@ || suffix == "minutes"@ ==> unit_claim(defs, e) == Some(
            ("min"@, defs.text(name)),
        ),
        suffix == "bytes"@ ==> unit_claim(defs, e) == Some(("bytes"@, defs.text(name))),
        suffix == "kb"@ || suffix == "kib"@ ==> unit_claim(defs, e) == Some(
            ("kb"@, defs.text(name)),
        ),
        suffix == "mb"@ || suffix == "mib"@ ==> unit_claim(defs, e) == Some(
            ("mb"@, defs.text(name)),
        ),
        suffix == "gb"@ || suffix == "gib"@ ==> unit_claim(defs, e) == Some(
            ("gb"@, defs.text(name)),
        ),
        suffix == "tenths"@ ==> unit_claim(defs, e) == Some(("tenths"@, defs.text(name))),
        unit_claim(defs, e) is Some ==> suffix == "ns"@ || suffix == "nanos"@ || suffix == "us"@
            || suffix == "micros"@ || suffix == "ms"@ || suffix == "millis"@ || suffix == "sec"@
            || suffix == "secs"@ || suffix == "seconds"@ || suffix == "mins"@ || suffix
            == "minutes"@ || suffix == "bytes"@ || suffix == "kb"@ || suffix == "kib"@ || suffix
            == "mb"@ || suffix == "mib"@ || suffix == "gb"@ || suffix == "gib"@ || suffix
            == "tenths"@,
{
    lemma_unit_words();
    reveal_strlit("_");
    assert("_"@ =~= seq!['_']);
    crate::text::lemma_split_last_char(head, '_', suffix);
    assert(claiming_name(e) == Some(name));
}

/// A sign, a negation or a dereference keeps the claim of what is behind it.
pub proof fn lemma_claim_sees_through_operators(
    defs: Definitions,
    e: Expr,
    op: crate::hir::UnOp,
    inner: Expr,
)
    requires
        e.kind matches ExprKind::Unary(o, i) && o == op && *i == inner,
    ensures
        unit_claim(defs, e) == unit_claim(defs, inner),
{
}

/// Which side is which makes no difference: the swapped operation is reported
/// exactly if this one is.
pub proof fn lemma_mixing_is_symmetric(defs: Definitions, e: Expr, swapped: Expr)
    requires
        e.kind matches ExprKind::Binary(o, l, r) && (swapped.kind matches ExprKind::Binary(p, m, n)
            && o == p && l == n && r == m),
        e.origin.from_expansion == swapped.origin.from_expansion,
    ensures
        mismatches(defs, e).len() == mismatches(defs, swapped).len(),
{
}

} // verus!
