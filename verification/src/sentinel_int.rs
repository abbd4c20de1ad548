//! An integer struct field that some function compares against a sentinel
//! (`T::MAX`, `-1`, a constant named `INVALID`, `NONE` or `SENTINEL`) and that
//! another function indexes with or offsets a pointer by without testing it.
//!
//! Reported on the unchecked reader. A function checks the field if it
//! compares the field, or a local read off it, against anything, clamps it,
//! or directly calls a predicate that does; a function all of whose visible
//! callers check is their unchecked half and stays quiet. A field that is
//! only ever assigned `MAX` is a bound, not a missing value, and is left
//! alone: writing a sentinel leaves no trace here.

use crate::adt_facts::{enclosing_fn, owner_fn, struct_field, struct_field_at};
use crate::defs::{DefKind, Definitions};
use crate::hir::{BinOp, Expr, ExprKind, LetStmt, LitKind, Parent, PatKind, Res, UnOp};
use crate::hir_shapes::{
    adjusted_adt, adt_behind, called_def, callee_of, in_callee_position, inside_blocks, is_callee,
    peel_blocks_unsafe,
};
use crate::ids::{DefId, HirId, Span, Symbol};
use crate::report::{
    by_position, dedup_places, emit, finding, one_per_place, sort_by_position, views, Finding,
    FindingView, Lint,
};
use crate::table::{add_new, find_key, is_in, put, put_key, value_at, with_added};
use crate::text::{
    char_texts, decimal, has_prefix, number, pieces, reads_as, same, split_char, starts_with,
};
use vstd::prelude::*;
use vstd::string::*;

verus! {

/// A struct and one of its integer fields.
pub type Field = (DefId, Symbol);

#[derive(Clone, Copy, Debug, PartialEq, Eq, Structural)]
pub enum Use {
    Index,
    Offset,
}

/// A use of a field's value in a function.
#[derive(Clone, Copy, Debug, PartialEq, Eq, Structural)]
pub struct Read {
    pub body: DefId,
    pub span: Span,
    pub how: Use,
}

/// What the crate was seen to do with integer fields.
#[derive(Debug)]
pub struct SentinelInt {
    /// Comparisons of a field against a sentinel, and how it was spelled.
    pub compared: Vec<(Field, String)>,
    pub reads: Vec<(Field, Read)>,
    /// The function tests the field, or a value read off it, somewhere.
    pub checked: Vec<(DefId, Field)>,
    /// Locals that carry a field's value.
    pub locals: Vec<(HirId, Field)>,
    /// A function and a local `bool`-returning function it calls directly.
    pub calls: Vec<(DefId, DefId)>,
    /// A local function and a function that calls it directly.
    pub callers: Vec<(DefId, DefId)>,
    /// Local functions referenced other than by a direct call: their callers
    /// are unknowable.
    pub poisoned: Vec<DefId>,
}

#[verifier::ext_equal]
pub struct SentinelView {
    pub compared: Seq<(Field, Seq<char>)>,
    pub reads: Seq<(Field, Read)>,
    pub checked: Seq<(DefId, Field)>,
    pub locals: Seq<(HirId, Field)>,
    pub calls: Seq<(DefId, DefId)>,
    pub callers: Seq<(DefId, DefId)>,
    pub poisoned: Seq<DefId>,
}

impl View for SentinelInt {
    type V = SentinelView;

    open spec fn view(&self) -> SentinelView {
        SentinelView {
            compared: self.compared@.map_values(|c: (Field, String)| (c.0, c.1@)),
            reads: self.reads@,
            checked: self.checked@,
            locals: self.locals@,
            calls: self.calls@,
            callers: self.callers@,
            poisoned: self.poisoned@,
        }
    }
}

// ---------------------------------------------------------------- sentinels

#[derive(Clone, Copy, Debug, PartialEq, Eq, Structural)]
pub enum Sentinel {
    Max,
    MinusOne,
    Named(DefId),
}

/// A word that says there is no value.
pub open spec fn absence_word(w: Seq<char>) -> bool {
    w == "INVALID"@ || w == "NONE"@ || w == "SENTINEL"@
}

/// `INVALID_ID`, `NONE`, `NOT_SET_SENTINEL`: a name one of whose words says
/// the value stands for no value.
pub open spec fn absence_name(name: Seq<char>) -> bool {
    exists|i: int|
        0 <= i < pieces(name, '_').len() && absence_word(#[trigger] pieces(name, '_')[i])
}

pub fn names_absence(name: &str) -> (r: bool)
    ensures
        r == absence_name(name@),
{
    let words = split_char(name, '_');
    let ghost want = pieces(name@, '_');
    let mut i: usize = 0;
    assert(want.len() == words@.len());
    while i < words.len()
        invariant
            i <= words@.len(),
            want == pieces(name@, '_'),
            char_texts(words@) == want,
            forall|j: int| 0 <= j < i ==> !absence_word(#[trigger] want[j]),
        decreases words.len() - i,
    {
        assert(want[i as int] == words@[i as int]@);
        if reads_as(&words[i], "INVALID") || reads_as(&words[i], "NONE") || reads_as(
            &words[i],
            "SENTINEL",
        ) {
            assert(absence_word(want[i as int]));
            return true;
        }
        i = i + 1;
    }
    false
}

/// The sentinel an expression spells, if it is one of the three forms.
pub open spec fn sentinel(defs: Definitions, e: Expr) -> Option<Sentinel> {
    let e = inside_blocks(e);
    if !(e.ty is Int) {
        None
    } else {
        match e.kind {
            ExprKind::Unary(UnOp::Neg, inner) => match inside_blocks(*inner).kind {
                ExprKind::Lit(l) => if l.kind == LitKind::Int(1) {
                    Some(Sentinel::MinusOne)
                } else {
                    None
                },
                _ => None,
            },
            ExprKind::Path(p) => match p.res {
                Res::Def(kind, did) => if kind != DefKind::Const && kind != DefKind::AssocConst {
                    None
                } else if defs.name_text(did) == "MAX"@ && defs.crate_text(did) == "core"@ {
                    Some(Sentinel::Max)
                } else if absence_name(defs.name_text(did)) {
                    Some(Sentinel::Named(did))
                } else {
                    None
                },
                _ => None,
            },
            _ => None,
        }
    }
}

pub fn sentinel_of(defs: &Definitions, e: &Expr) -> (r: Option<Sentinel>)
    ensures
        r == sentinel(*defs, *e),
{
    let e = peel_blocks_unsafe(e);
    if !e.ty.is_integral() {
        return None;
    }
    match &e.kind {
        ExprKind::Unary(UnOp::Neg, inner) => match &peel_blocks_unsafe(inner).kind {
            ExprKind::Lit(l) => match l.kind {
                LitKind::Int(n) => if n == 1 {
                    Some(Sentinel::MinusOne)
                } else {
                    None
                },
                _ => None,
            },
            _ => None,
        },
        ExprKind::Path(p) => match p.res {
            Res::Def(kind, did) => {
                if kind != DefKind::Const && kind != DefKind::AssocConst {
                    return None;
                }
                let name = defs.name_of(did);
                if same(name, "MAX") && same(defs.crate_of(did), "core") {
                    Some(Sentinel::Max)
                } else if names_absence(name) {
                    Some(Sentinel::Named(did))
                } else {
                    None
                }
            },
            _ => None,
        },
        _ => None,
    }
}

/// How the message names the sentinel `e` spells.
pub open spec fn spelling(defs: Definitions, s: Sentinel, e: Expr) -> Seq<char> {
    match s {
        Sentinel::Max => e.ty_text@ + "::MAX"@,
        Sentinel::MinusOne => "-1"@,
        Sentinel::Named(did) => defs.name_text(did),
    }
}

fn spell(defs: &Definitions, s: Sentinel, e: &Expr) -> (r: String)
    ensures
        r@ == spelling(*defs, s, *e),
{
    match s {
        Sentinel::Max => {
            let mut t = String::from_str(e.ty_text.as_str());
            t.append("::MAX");
            t
        },
        Sentinel::MinusOne => String::from_str("-1"),
        Sentinel::Named(did) => String::from_str(defs.name_of(did)),
    }
}

// ---------------------------------------------------------------- reads

/// `base.name` as a struct and its integer field.
pub open spec fn field_key(defs: Definitions, base: Expr, name: Symbol) -> Option<Field> {
    match adjusted_adt(base) {
        Some(did) => match struct_field_at(defs, did, name) {
            Some(f) => if defs.is_struct(did) && f.ty is Int {
                Some((did, name))
            } else {
                None
            },
            None => None,
        },
        None => None,
    }
}

fn key_of_field(defs: &Definitions, base: &Expr, name: Symbol) -> (r: Option<Field>)
    ensures
        r == field_key(*defs, *base, name),
{
    match adt_behind(base) {
        Some(did) => match struct_field(defs, did, name) {
            Some(f) => if defs.struct_here(did) && f.ty.is_integral() {
                Some((did, name))
            } else {
                None
            },
            None => None,
        },
        None => None,
    }
}

/// Value-preserving methods a field read is still visible through.
pub open spec fn adapter(name: Seq<char>) -> bool {
    name == "clone"@ || name == "into"@ || name == "try_into"@ || name == "unwrap"@ || name
        == "expect"@ || name == "cast_signed"@ || name == "cast_unsigned"@
}

fn is_adapter(name: &str) -> (r: bool)
    ensures
        r == adapter(name@),
{
    same(name, "clone") || same(name, "into") || same(name, "try_into") || same(name, "unwrap")
        || same(name, "expect") || same(name, "cast_signed") || same(name, "cast_unsigned")
}

/// Methods that index their receiver by their one argument and do not answer
/// for an index that is not there.
pub open spec fn indexer(name: Seq<char>) -> bool {
    name == "get_unchecked"@ || name == "get_unchecked_mut"@ || name == "split_at"@ || name
        == "split_at_mut"@ || name == "split_off"@ || name == "remove"@ || name == "swap_remove"@
}

fn is_indexer(name: &str) -> (r: bool)
    ensures
        r == indexer(name@),
{
    same(name, "get_unchecked") || same(name, "get_unchecked_mut") || same(name, "split_at")
        || same(name, "split_at_mut") || same(name, "split_off") || same(name, "remove") || same(
        name,
        "swap_remove",
    )
}

/// Methods that move a pointer.
pub open spec fn offsetter(name: Seq<char>) -> bool {
    name == "add"@ || name == "sub"@ || name == "offset"@ || name == "byte_add"@ || name
        == "byte_sub"@ || name == "byte_offset"@
}

fn is_offsetter(name: &str) -> (r: bool)
    ensures
        r == offsetter(name@),
{
    same(name, "add") || same(name, "sub") || same(name, "offset") || same(name, "byte_add")
        || same(name, "byte_sub") || same(name, "byte_offset")
}

/// Methods by which the author decides what an out-of-range value does.
pub open spec fn bounding(name: Seq<char>) -> bool {
    has_prefix(name, "checked_"@) || has_prefix(name, "saturating_"@) || has_prefix(
        name,
        "wrapping_"@,
    ) || has_prefix(name, "overflowing_"@) || name == "min"@ || name == "max"@ || name == "clamp"@
}

fn is_bounding(name: &str) -> (r: bool)
    ensures
        r == bounding(name@),
{
    starts_with(name, "checked_") || starts_with(name, "saturating_") || starts_with(
        name,
        "wrapping_",
    ) || starts_with(name, "overflowing_") || same(name, "min") || same(name, "max") || same(
        name,
        "clamp",
    )
}

/// `T::from` or `T::try_from`.
pub open spec fn converts(defs: Definitions, callee: Expr) -> bool {
    match callee.kind {
        ExprKind::Path(p) => p.type_relative && p.segments@.len() > 0 && (defs.text(
            p.segments@.last(),
        ) == "from"@ || defs.text(p.segments@.last()) == "try_from"@),
        _ => false,
    }
}

fn is_conversion(defs: &Definitions, callee: &Expr) -> (r: bool)
    ensures
        r == converts(*defs, *callee),
{
    match &callee.kind {
        ExprKind::Path(p) => {
            if !p.type_relative || p.segments.len() == 0 {
                return false;
            }
            let last = p.segments[p.segments.len() - 1];
            defs.reads(last, "from") || defs.reads(last, "try_from")
        },
        _ => false,
    }
}

/// Operators whose result still carries a sentinel among their operands.
pub open spec fn carries(op: BinOp) -> bool {
    op == BinOp::Plus || op == BinOp::Minus || op == BinOp::Times
}

/// The field whose value an expression carries: the field itself through
/// casts, borrows, derefs, arithmetic and value-preserving adapters, or a
/// local bound to one.
pub open spec fn carried(defs: Definitions, locals: Seq<(HirId, Field)>, e: Expr) -> Option<Field>
    decreases e,
{
    match e.kind {
        ExprKind::Block(b) => if b.stmts@.len() == 0 && b.expr is Some {
            carried(defs, locals, *b.expr->Some_0)
        } else {
            None
        },
        ExprKind::Cast(inner) => carried(defs, locals, *inner),
        ExprKind::AddrOf(_, _, inner) => carried(defs, locals, *inner),
        ExprKind::Unary(UnOp::Deref, inner) => carried(defs, locals, *inner),
        ExprKind::MethodCall(name, recv, args) => if args@.len() <= 1 && adapter(defs.text(name)) {
            carried(defs, locals, *recv)
        } else {
            None
        },
        ExprKind::Call(callee, args) => if args@.len() == 1 && converts(defs, *callee) {
            carried(defs, locals, args@[0])
        } else {
            None
        },
        ExprKind::Binary(op, l, r) => if carries(op) {
            match carried(defs, locals, *l) {
                Some(f) => Some(f),
                None => carried(defs, locals, *r),
            }
        } else {
            None
        },
        ExprKind::Field(base, name) => field_key(defs, *base, name),
        ExprKind::Path(p) => match p.res {
            Res::Local(id) => value_at(locals, id),
            _ => None,
        },
        _ => None,
    }
}

// ---------------------------------------------------------------- transitions

pub open spec fn with_checked(s: SentinelView, body: DefId, f: Option<Field>) -> SentinelView {
    match f {
        Some(f) => SentinelView { checked: with_added(s.checked, (body, f)), ..s },
        None => s,
    }
}

pub open spec fn with_read(
    s: SentinelView,
    body: DefId,
    f: Option<Field>,
    span: Span,
    how: Use,
) -> SentinelView {
    match f {
        Some(f) => SentinelView { reads: s.reads.push((f, Read { body, span, how })), ..s },
        None => s,
    }
}

/// `a` is compared with `b` in `body`.
pub open spec fn with_comparison(
    defs: Definitions,
    s: SentinelView,
    body: DefId,
    a: Expr,
    b: Expr,
) -> SentinelView {
    match carried(defs, s.locals, a) {
        Some(f) => {
            let t = with_checked(s, body, Some(f));
            match sentinel(defs, b) {
                Some(x) => SentinelView {
                    compared: t.compared.push((f, spelling(defs, x, b))),
                    ..t
                },
                None => t,
            }
        },
        None => s,
    }
}

/// An index operand: the value itself, or either end of a range.
pub open spec fn with_index(
    defs: Definitions,
    s: SentinelView,
    body: DefId,
    idx: Expr,
    span: Span,
) -> SentinelView {
    match idx.kind {
        ExprKind::Range(lo, hi) => {
            let t = match lo {
                Some(x) => with_read(s, body, carried(defs, s.locals, *x), span, Use::Index),
                None => s,
            };
            match hi {
                Some(x) => with_read(t, body, carried(defs, s.locals, *x), span, Use::Index),
                None => t,
            }
        },
        _ => with_read(s, body, carried(defs, s.locals, idx), span, Use::Index),
    }
}

/// Every operand of the first `k` is checked in `body`.
pub open spec fn with_operands(
    defs: Definitions,
    s: SentinelView,
    body: DefId,
    args: Seq<Expr>,
    k: int,
) -> SentinelView
    decreases k,
{
    if k <= 0 {
        s
    } else {
        let t = with_operands(defs, s, body, args, k - 1);
        with_checked(t, body, carried(defs, s.locals, args[k - 1]))
    }
}

/// What is known of who calls whom after an expression in `body`. Only a
/// predicate stands in for a comparison: a call that happens to compare
/// inside says nothing about the caller's own reads.
pub open spec fn with_call(
    defs: Definitions,
    s: SentinelView,
    body: DefId,
    e: Expr,
    parents: Seq<Parent>,
) -> SentinelView {
    match called_def(e) {
        Some(def) => if defs.local(def) && defs.is_fn(def) {
            let t = SentinelView { callers: with_added(s.callers, (def, body)), ..s };
            if defs.sig(def) matches Some(sig) && sig.output is Bool {
                SentinelView { calls: with_added(t.calls, (body, def)), ..t }
            } else {
                t
            }
        } else {
            s
        },
        None => match e.kind {
            ExprKind::Path(p) => match p.res {
                Res::Def(kind, def) => if !is_callee(e, parents) && (kind == DefKind::Function
                    || kind == DefKind::AssocFn) && defs.local(def) {
                    SentinelView { poisoned: with_added(s.poisoned, def), ..s }
                } else {
                    s
                },
                _ => s,
            },
            _ => s,
        },
    }
}

/// What has been seen once an expression in the body `owner` has been
/// visited.
pub open spec fn after_expr(
    defs: Definitions,
    s: SentinelView,
    owner: DefId,
    e: Expr,
    parents: Seq<Parent>,
) -> SentinelView {
    let body = enclosing_fn(defs, owner);
    let s = with_call(defs, s, body, e, parents);
    match e.kind {
        ExprKind::Binary(op, l, r) => if op == BinOp::EqualTo || op == BinOp::NotEqual {
            with_comparison(defs, with_comparison(defs, s, body, *l, *r), body, *r, *l)
        } else if op == BinOp::Less || op == BinOp::LessEqual || op == BinOp::Greater || op
            == BinOp::GreaterEqual {
            with_checked(
                with_checked(s, body, carried(defs, s.locals, *l)),
                body,
                carried(defs, s.locals, *r),
            )
        } else {
            s
        },
        ExprKind::Index(_, idx) => with_index(defs, s, body, *idx, e.span),
        ExprKind::MethodCall(name, recv, args) => {
            let t = if bounding(defs.text(name)) {
                with_operands(
                    defs,
                    with_checked(s, body, carried(defs, s.locals, *recv)),
                    body,
                    args@,
                    args@.len() as int,
                )
            } else {
                s
            };
            if args@.len() != 1 {
                t
            } else if indexer(defs.text(name)) {
                with_index(defs, t, body, args@[0], e.span)
            } else if offsetter(defs.text(name)) && recv.adjusted is RawPtr {
                with_read(t, body, carried(defs, s.locals, args@[0]), e.span, Use::Offset)
            } else {
                t
            }
        },
        _ => s,
    }
}

/// What has been seen once a `let` has been visited.
pub open spec fn after_local(defs: Definitions, s: SentinelView, l: LetStmt) -> SentinelView {
    match (l.init, l.pat.kind) {
        (Some(init), PatKind::Binding(id, _, None)) => match carried(defs, s.locals, *init) {
            Some(f) => SentinelView { locals: put(s.locals, id, f), ..s },
            None => s,
        },
        _ => s,
    }
}

// ---------------------------------------------------------------- conclusions

/// The function tests the field, itself or by a predicate it calls.
pub open spec fn checks(s: SentinelView, body: DefId, f: Field) -> bool {
    s.checked.contains((body, f)) || exists|i: int|
        0 <= i < s.calls.len() && (#[trigger] s.calls[i]).0 == body && s.checked.contains(
            (s.calls[i].1, f),
        )
}

/// Every visible caller of the function checks the field first.
pub open spec fn callers_check(s: SentinelView, body: DefId, f: Field) -> bool {
    &&& !s.poisoned.contains(body)
    &&& exists|i: int| 0 <= i < s.callers.len() && (#[trigger] s.callers[i]).0 == body
    &&& forall|i: int|
        0 <= i < s.callers.len() && (#[trigger] s.callers[i]).0 == body ==> checks(
            s,
            s.callers[i].1,
            f,
        )
}

/// How often the field is compared against a sentinel.
pub open spec fn comparisons(compared: Seq<(Field, Seq<char>)>, f: Field) -> nat
    decreases compared.len(),
{
    if compared.len() == 0 {
        0
    } else {
        comparisons(compared.drop_last(), f) + if compared.last().0 == f {
            1nat
        } else {
            0nat
        }
    }
}

/// The function's use of the field that comes first in the source.
pub open spec fn earliest(reads: Seq<(Field, Read)>, f: Field, body: DefId) -> Option<Read>
    decreases reads.len(),
{
    if reads.len() == 0 {
        None
    } else {
        let (g, r) = reads.last();
        let before = earliest(reads.drop_last(), f, body);
        if g == f && r.body == body {
            match before {
                Some(b) => if r.span.lo < b.span.lo {
                    Some(r)
                } else {
                    Some(b)
                },
                None => Some(r),
            }
        } else {
            before
        }
    }
}

pub open spec fn how_text(how: Use) -> Seq<char> {
    match how {
        Use::Index => "indexes with"@,
        Use::Offset => "offsets a pointer by"@,
    }
}

pub open spec fn reader_text(defs: Definitions, body: DefId) -> Seq<char> {
    if defs.name_text(body).len() == 0 {
        "this body"@
    } else {
        "`"@ + defs.name_text(body) + "`"@
    }
}

pub open spec fn sentinel_message(
    defs: Definitions,
    f: Field,
    read: Read,
    spelled: Seq<char>,
    count: nat,
) -> Seq<char> {
    "sentinel `"@ + spelled + "` can reach this use: "@ + reader_text(defs, read.body) + " "@
        + how_text(read.how) + " `"@ + defs.name_text(f.0) + "."@ + defs.text(f.1)
        + "` and nothing in it tests the field, which the crate compares against that sentinel at "@
        + decimal(count) + " other site"@ + (if count == 1 {
        ""@
    } else {
        "s"@
    })
}

/// What the lint says of a function's uses of a field.
pub open spec fn reader_finding(
    defs: Definitions,
    s: SentinelView,
    f: Field,
    body: DefId,
) -> Option<FindingView> {
    match (value_at(s.compared, f), earliest(s.reads, f, body)) {
        (Some(spelled), Some(read)) => if checks(s, body, f) || callers_check(s, body, f) {
            None
        } else {
            Some(
                finding(
                    Lint::SentinelInt,
                    read.span,
                    sentinel_message(defs, f, read, spelled, comparisons(s.compared, f)),
                    "the field's value set is `Option<int>`; store that (a `NonZero`/`NonMax` niche keeps the size) and no reader can index without deciding the empty case"@,
                ),
            )
        },
        _ => None,
    }
}

/// The fields and functions of the first `k` uses, each pair once.
pub open spec fn readers(reads: Seq<(Field, Read)>, k: int) -> Seq<(Field, DefId)>
    decreases k,
{
    if k <= 0 {
        Seq::empty()
    } else {
        with_added(readers(reads, k - 1), (reads[k - 1].0, reads[k - 1].1.body))
    }
}

pub open spec fn reader_findings(
    defs: Definitions,
    s: SentinelView,
    rs: Seq<(Field, DefId)>,
    k: int,
) -> Seq<FindingView>
    decreases k,
{
    if k <= 0 {
        Seq::empty()
    } else {
        let before = reader_findings(defs, s, rs, k - 1);
        match reader_finding(defs, s, rs[k - 1].0, rs[k - 1].1) {
            Some(f) => before.push(f),
            None => before,
        }
    }
}

/// What the lint says of the crate: one report per unchecked function, at its
/// first use, in source order, one per place.
pub open spec fn sentinel_findings(defs: Definitions, s: SentinelView) -> Seq<FindingView> {
    let rs = readers(s.reads, s.reads.len() as int);
    one_per_place(by_position(reader_findings(defs, s, rs, rs.len() as int)))
}

fn spell_how(how: Use) -> (r: &'static str)
    ensures
        r@ == how_text(how),
{
    match how {
        Use::Index => "indexes with",
        Use::Offset => "offsets a pointer by",
    }
}

fn write_message(defs: &Definitions, f: Field, read: Read, spelled: &str, count: usize) -> (r:
    String)
    ensures
        r@ == sentinel_message(*defs, f, read, spelled@, count as nat),
{
    let mut reader = String::from_str("`");
    reader.append(defs.name_of(read.body));
    reader.append("`");
    let empty: &str = "";
    proof {
        reveal_strlit("");
    }
    let nameless = same(defs.name_of(read.body), empty);
    assert(nameless == (defs.name_text(read.body).len() == 0)) by {
        if defs.name_text(read.body).len() == 0 {
            assert(defs.name_text(read.body) =~= ""@);
        }
    }
    let mut msg = String::from_str("sentinel `");
    msg.append(spelled);
    msg.append("` can reach this use: ");
    if nameless {
        msg.append("this body");
    } else {
        msg.append(reader.as_str());
    }
    msg.append(" ");
    msg.append(spell_how(read.how));
    msg.append(" `");
    msg.append(defs.name_of(f.0));
    msg.append(".");
    msg.append(defs.text_of(f.1));
    msg.append(
        "` and nothing in it tests the field, which the crate compares against that sentinel at ",
    );
    msg.append(number(count as u128).as_str());
    msg.append(" other site");
    if count == 1 {
        msg.append("");
    } else {
        msg.append("s");
    }
    msg
}

impl SentinelInt {
    pub fn new() -> (r: Self)
        ensures
            r@ == (SentinelView {
                compared: Seq::empty(),
                reads: Seq::empty(),
                checked: Seq::empty(),
                locals: Seq::empty(),
                calls: Seq::empty(),
                callers: Seq::empty(),
                poisoned: Seq::empty(),
            }),
    {
        let r = SentinelInt {
            compared: Vec::new(),
            reads: Vec::new(),
            checked: Vec::new(),
            locals: Vec::new(),
            calls: Vec::new(),
            callers: Vec::new(),
            poisoned: Vec::new(),
        };
        assert(r@.compared =~= Seq::<(Field, Seq<char>)>::empty());
        r
    }

    /// The field whose value an expression carries.
    pub fn read_of(&self, defs: &Definitions, e: &Expr) -> (r: Option<Field>)
        ensures
            r == carried(*defs, self@.locals, *e),
        decreases e,
    {
        match &e.kind {
            ExprKind::Block(b) => if b.stmts.len() == 0 {
                match &b.expr {
                    Some(x) => self.read_of(defs, x),
                    None => None,
                }
            } else {
                None
            },
            ExprKind::Cast(inner) => self.read_of(defs, inner),
            ExprKind::AddrOf(_, _, inner) => self.read_of(defs, inner),
            ExprKind::Unary(UnOp::Deref, inner) => self.read_of(defs, inner),
            ExprKind::MethodCall(name, recv, args) => if args.len() <= 1 && is_adapter(
                defs.text_of(*name),
            ) {
                self.read_of(defs, recv)
            } else {
                None
            },
            ExprKind::Call(callee, args) => if args.len() == 1 && is_conversion(defs, callee) {
                assert(decreases_to!(args => args@[0]));
                self.read_of(defs, &args[0])
            } else {
                None
            },
            ExprKind::Binary(op, l, r) => if *op == BinOp::Plus || *op == BinOp::Minus || *op
                == BinOp::Times {
                match self.read_of(defs, l) {
                    Some(f) => Some(f),
                    None => self.read_of(defs, r),
                }
            } else {
                None
            },
            ExprKind::Field(base, name) => key_of_field(defs, base, *name),
            ExprKind::Path(p) => match p.res {
                Res::Local(id) => match find_key(&self.locals, &id) {
                    Some(i) => Some(self.locals[i].1),
                    None => None,
                },
                _ => None,
            },
            _ => None,
        }
    }

    fn check(&mut self, body: DefId, f: Option<Field>)
        ensures
            final(self)@ == with_checked(old(self)@, body, f),
    {
        match f {
            Some(f) => {
                let ghost before = self@;
                add_new(&mut self.checked, (body, f));
                assert(self@ =~= with_checked(before, body, Some(f)));
            },
            None => {},
        }
    }

    fn read(&mut self, body: DefId, f: Option<Field>, span: Span, how: Use)
        ensures
            final(self)@ == with_read(old(self)@, body, f, span, how),
    {
        match f {
            Some(f) => {
                let ghost before = self@;
                self.reads.push((f, Read { body, span, how }));
                assert(self@ =~= with_read(before, body, Some(f), span, how));
            },
            None => {},
        }
    }

    fn compare_with(&mut self, defs: &Definitions, body: DefId, a: &Expr, b: &Expr)
        ensures
            final(self)@ == with_comparison(*defs, old(self)@, body, *a, *b),
    {
        match self.read_of(defs, a) {
            Some(f) => {
                self.check(body, Some(f));
                match sentinel_of(defs, b) {
                    Some(x) => {
                        let ghost before = self@;
                        let t = spell(defs, x, b);
                        self.compared.push((f, t));
                        assert(self@.compared =~= before.compared.push((f, t@)));
                        assert(self@ =~= (SentinelView {
                            compared: before.compared.push((f, t@)),
                            ..before
                        }));
                    },
                    None => {},
                }
            },
            None => {},
        }
    }

    fn indexed(&mut self, defs: &Definitions, body: DefId, idx: &Expr, span: Span)
        ensures
            final(self)@ == with_index(*defs, old(self)@, body, *idx, span),
    {
        match &idx.kind {
            ExprKind::Range(lo, hi) => {
                match lo {
                    Some(x) => {
                        let f = self.read_of(defs, x);
                        self.read(body, f, span, Use::Index);
                    },
                    None => {},
                }
                match hi {
                    Some(x) => {
                        let f = self.read_of(defs, x);
                        self.read(body, f, span, Use::Index);
                    },
                    None => {},
                }
            },
            _ => {
                let f = self.read_of(defs, idx);
                self.read(body, f, span, Use::Index);
            },
        }
    }

    fn record_call(&mut self, defs: &Definitions, body: DefId, e: &Expr, parents: &Vec<Parent>)
        ensures
            final(self)@ == with_call(*defs, old(self)@, body, *e, parents@),
    {
        let ghost before = self@;
        match callee_of(e) {
            Some(callee) => {
                let def = callee.def;
                if defs.is_local(def) && defs.function_here(def) {
                    add_new(&mut self.callers, (def, body));
                    let predicate = match defs.sig_of(def) {
                        Some(sig) => sig.output.is_bool(),
                        None => false,
                    };
                    if predicate {
                        add_new(&mut self.calls, (body, def));
                    }
                }
            },
            None => match &e.kind {
                ExprKind::Path(p) => {
                    let called = in_callee_position(e, parents);
                    match p.res {
                        Res::Def(kind, def) => {
                            if !called && (kind == DefKind::Function || kind == DefKind::AssocFn)
                                && defs.is_local(def) {
                                add_new(&mut self.poisoned, def);
                            }
                        },
                        _ => {},
                    }
                },
                _ => {},
            },
        }
        assert(self@ =~= with_call(*defs, before, body, *e, parents@));
    }

    /// Visits a `let`.
    pub fn check_local(&mut self, defs: &Definitions, l: &LetStmt)
        ensures
            final(self)@ == after_local(*defs, old(self)@, *l),
    {
        let ghost before = self@;
        match (&l.init, &l.pat.kind) {
            (Some(init), PatKind::Binding(id, _, None)) => {
                match self.read_of(defs, init) {
                    Some(f) => {
                        put_key(&mut self.locals, *id, f);
                        assert(self@ =~= after_local(*defs, before, *l));
                    },
                    None => {},
                }
            },
            _ => {},
        }
    }

    /// Visits an expression in the body `owner`; `parents` are the nodes
    /// around it, innermost first.
    pub fn check_expr(
        &mut self,
        defs: &Definitions,
        owner: DefId,
        e: &Expr,
        parents: &Vec<Parent>,
    )
        ensures
            final(self)@ == after_expr(*defs, old(self)@, owner, *e, parents@),
    {
        let body = owner_fn(defs, owner);
        self.record_call(defs, body, e, parents);
        match &e.kind {
            ExprKind::Binary(op, l, r) => {
                if *op == BinOp::EqualTo || *op == BinOp::NotEqual {
                    self.compare_with(defs, body, l, r);
                    self.compare_with(defs, body, r, l);
                } else if *op == BinOp::Less || *op == BinOp::LessEqual || *op == BinOp::Greater
                    || *op == BinOp::GreaterEqual {
                    let a = self.read_of(defs, l);
                    let b = self.read_of(defs, r);
                    self.check(body, a);
                    self.check(body, b);
                }
            },
            ExprKind::Index(_, idx) => self.indexed(defs, body, idx, e.span),
            ExprKind::MethodCall(name, recv, args) => {
                let name = defs.text_of(*name);
                let ghost s = self@;
                if is_bounding(name) {
                    let f = self.read_of(defs, recv);
                    self.check(body, f);
                    let ghost t = self@;
                    let mut i: usize = 0;
                    while i < args.len()
                        invariant
                            i <= args@.len(),
                            self@ == with_operands(*defs, t, body, args@, i as int),
                            self@.locals == t.locals,
                        decreases args.len() - i,
                    {
                        let g = self.read_of(defs, &args[i]);
                        self.check(body, g);
                        i = i + 1;
                    }
                }
                assert(self@.locals == s.locals);
                if args.len() == 1 {
                    if is_indexer(name) {
                        self.indexed(defs, body, &args[0], e.span);
                    } else if is_offsetter(name) && recv.adjusted.is_raw_ptr() {
                        let f = self.read_of(defs, &args[0]);
                        self.read(body, f, e.span, Use::Offset);
                    }
                }
            },
            _ => {},
        }
    }

    fn has_check(&self, body: DefId, f: Field) -> (r: bool)
        ensures
            r == checks(self@, body, f),
    {
        if is_in(&self.checked, &(body, f)) {
            return true;
        }
        let mut i: usize = 0;
        while i < self.calls.len()
            invariant
                i <= self.calls@.len(),
                forall|j: int|
                    0 <= j < i ==> !((#[trigger] self.calls@[j]).0 == body
                        && self.checked@.contains((self.calls@[j].1, f))),
            decreases self.calls.len() - i,
        {
            if self.calls[i].0 == body && is_in(&self.checked, &(self.calls[i].1, f)) {
                assert(self@.calls[i as int].0 == body);
                return true;
            }
            i = i + 1;
        }
        false
    }

    fn all_callers_check(&self, body: DefId, f: Field) -> (r: bool)
        ensures
            r == callers_check(self@, body, f),
    {
        if is_in(&self.poisoned, &body) {
            return false;
        }
        let ghost callers = self@.callers;
        let mut some = false;
        let mut i: usize = 0;
        while i < self.callers.len()
            invariant
                i <= self.callers@.len(),
                callers == self@.callers,
                callers == self.callers@,
                some == exists|j: int|
                    0 <= j < i && (#[trigger] callers[j]).0 == body,
                forall|j: int|
                    0 <= j < i && (#[trigger] callers[j]).0 == body ==> checks(
                        self@,
                        callers[j].1,
                        f,
                    ),
            decreases self.callers.len() - i,
        {
            if self.callers[i].0 == body {
                some = true;
                assert(callers[i as int].0 == body);
                if !self.has_check(self.callers[i].1, f) {
                    assert(callers[i as int].0 == body);
                    return false;
                }
            }
            i = i + 1;
        }
        some
    }

    /// How the first comparison of the field spells the sentinel, and how
    /// many there are.
    fn evidence(&self, f: Field) -> (r: Option<(&String, usize)>)
        ensures
            match r {
                Some(p) => value_at(self@.compared, f) == Some(p.0@) && p.1 == comparisons(
                    self@.compared,
                    f,
                ),
                None => value_at(self@.compared, f) is None,
            },
    {
        let ghost log = self@.compared;
        let mut first: Option<usize> = None;
        let mut count: usize = 0;
        let mut i: usize = 0;
        while i < self.compared.len()
            invariant
                i <= self.compared@.len(),
                log == self@.compared,
                count <= i,
                count == comparisons(log.take(i as int), f),
                match first {
                    Some(k) => k < i && log[k as int].0 == f && forall|j: int|
                        0 <= j < k ==> (#[trigger] log[j]).0 != f,
                    None => forall|j: int| 0 <= j < i ==> (#[trigger] log[j]).0 != f,
                },
            decreases self.compared.len() - i,
        {
            assert(log.take(i + 1).drop_last() =~= log.take(i as int));
            assert(log[i as int] == (self.compared@[i as int].0, self.compared@[i as int].1@));
            if self.compared[i].0.0 == f.0 && self.compared[i].0.1 == f.1 {
                if first.is_none() {
                    first = Some(i);
                }
                count = count + 1;
            }
            i = i + 1;
        }
        assert(log.take(i as int) =~= log);
        match first {
            Some(k) => {
                proof {
                    crate::table::lemma_key_at_is(log, f, k as int);
                    assert(log[k as int].1 == self.compared@[k as int].1@);
                }
                Some((&self.compared[k].1, count))
            },
            None => {
                proof {
                    crate::table::lemma_key_at_is(log, f, log.len() as int);
                }
                None
            },
        }
    }

    fn first_use(&self, f: Field, body: DefId) -> (r: Option<Read>)
        ensures
            r == earliest(self@.reads, f, body),
    {
        let ghost log = self@.reads;
        let mut best: Option<Read> = None;
        let mut i: usize = 0;
        while i < self.reads.len()
            invariant
                i <= self.reads@.len(),
                log == self.reads@,
                best == earliest(log.take(i as int), f, body),
            decreases self.reads.len() - i,
        {
            assert(log.take(i + 1).drop_last() =~= log.take(i as int));
            let (g, r) = self.reads[i];
            if g.0 == f.0 && g.1 == f.1 && r.body == body {
                match best {
                    Some(b) => {
                        if r.span.lo < b.span.lo {
                            best = Some(r);
                        }
                    },
                    None => {
                        best = Some(r);
                    },
                }
            }
            i = i + 1;
        }
        assert(log.take(i as int) =~= log);
        best
    }

    fn finding_for(&self, defs: &Definitions, f: Field, body: DefId, out: &mut Vec<Finding>)
        ensures
            match reader_finding(*defs, self@, f, body) {
                Some(x) => views(final(out)@) == views(old(out)@).push(x),
                None => views(final(out)@) == views(old(out)@),
            },
    {
        match (self.evidence(f), self.first_use(f, body)) {
            (Some((spelled, count)), Some(read)) => {
                if self.has_check(body, f) || self.all_callers_check(body, f) {
                    return;
                }
                let msg = write_message(defs, f, read, spelled.as_str(), count);
                emit(
                    out,
                    Lint::SentinelInt,
                    read.span,
                    msg,
                    "the field's value set is `Option<int>`; store that (a `NonZero`/`NonMax` niche keeps the size) and no reader can index without deciding the empty case",
                );
            },
            _ => {},
        }
    }

    /// What the lint says of the crate.
    pub fn check_crate_post(&self, defs: &Definitions) -> (r: Vec<Finding>)
        ensures
            views(r@) == sentinel_findings(*defs, self@),
    {
        let mut rs: Vec<(Field, DefId)> = Vec::new();
        let mut i: usize = 0;
        while i < self.reads.len()
            invariant
                i <= self.reads@.len(),
                rs@ == readers(self@.reads, i as int),
            decreases self.reads.len() - i,
        {
            add_new(&mut rs, (self.reads[i].0, self.reads[i].1.body));
            i = i + 1;
        }
        let mut out: Vec<Finding> = Vec::new();
        let mut k: usize = 0;
        assert(views(out@) =~= Seq::<FindingView>::empty());
        while k < rs.len()
            invariant
                k <= rs@.len(),
                views(out@) == reader_findings(*defs, self@, rs@, k as int),
            decreases rs.len() - k,
        {
            self.finding_for(defs, rs[k].0, rs[k].1, &mut out);
            k = k + 1;
        }
        dedup_places(sort_by_position(out))
    }
}

/// A function that tests the field is not reported for it.
pub proof fn lemma_checked_reader_is_quiet(
    defs: Definitions,
    s: SentinelView,
    f: Field,
    body: DefId,
)
    requires
        s.checked.contains((body, f)),
    ensures
        reader_finding(defs, s, f, body) is None,
{
}

/// A field no function compares against a sentinel is left alone.
pub proof fn lemma_uncompared_field_is_quiet(
    defs: Definitions,
    s: SentinelView,
    f: Field,
    body: DefId,
)
    requires
        forall|i: int| 0 <= i < s.compared.len() ==> (#[trigger] s.compared[i]).0 != f,
    ensures
        reader_finding(defs, s, f, body) is None,
{
    crate::table::lemma_key_at_is(s.compared, f, s.compared.len() as int);
}

// ---------------------------------------------------------------- laws

/// `-1` is a sentinel of every integer type, and no other negated literal is.
pub proof fn lemma_minus_one_is_a_sentinel(defs: Definitions, e: Expr, n: u128)
    requires
        e.ty is Int,
        e.kind matches ExprKind::Unary(UnOp::Neg, inner) && (inner.kind matches ExprKind::Lit(l)
            && l.kind == LitKind::Int(n)),
    ensures
        sentinel(defs, e) == if n == 1 {
            Some(Sentinel::MinusOne)
        } else {
            None
        },
        spelling(defs, Sentinel::MinusOne, e) == "-1"@,
{
}

/// `T::MAX` of the standard library is a sentinel; a constant of that name
/// from elsewhere is none.
pub proof fn lemma_max_is_a_sentinel(defs: Definitions, e: Expr, d: DefId)
    requires
        e.ty is Int,
        e.kind matches ExprKind::Path(p) && (p.res == Res::Def(DefKind::Const, d) || p.res
            == Res::Def(DefKind::AssocConst, d)),
        defs.name_text(d) == "MAX"@,
    ensures
        (sentinel(defs, e) == Some(Sentinel::Max)) <==> defs.crate_text(d) == "core"@,
        spelling(defs, Sentinel::Max, e) == e.ty_text@ + "::MAX"@,
{
}

/// The word stands in the name, alone or between underscores.
pub open spec fn word_stands(name: Seq<char>, w: Seq<char>) -> bool {
    ||| name == w
    ||| exists|a: Seq<char>| name == #[trigger] (a + seq!['_'] + w)
    ||| exists|b: Seq<char>| name == #[trigger] (w + seq!['_'] + b)
    ||| exists|a: Seq<char>, b: Seq<char>|
        name == #[trigger] (a + seq!['_'] + (w + seq!['_'] + b))
}

proof fn lemma_word_is_a_piece(name: Seq<char>, w: Seq<char>)
    requires
        !w.contains('_'),
        word_stands(name, w),
    ensures
        pieces(name, '_').contains(w),
{
    crate::text::lemma_one_piece(w, '_');
    assert(seq![w][0] == w);
    if name == w {
        assert(pieces(name, '_')[0] == w);
    } else if exists|a: Seq<char>| name == #[trigger] (a + seq!['_'] + w) {
        let a = choose|a: Seq<char>| name == #[trigger] (a + seq!['_'] + w);
        crate::text::lemma_pieces_join(a, '_', w);
        assert(pieces(name, '_')[pieces(a, '_').len() as int] == w);
    } else if exists|b: Seq<char>| name == #[trigger] (w + seq!['_'] + b) {
        let b = choose|b: Seq<char>| name == #[trigger] (w + seq!['_'] + b);
        crate::text::lemma_pieces_join(w, '_', b);
        assert(pieces(name, '_')[0] == w);
    } else {
        let (a, b) = choose|a: Seq<char>, b: Seq<char>|
            name == #[trigger] (a + seq!['_'] + (w + seq!['_'] + b));
        crate::text::lemma_pieces_join(a, '_', w + seq!['_'] + b);
        crate::text::lemma_pieces_join(w, '_', b);
        assert(pieces(name, '_')[pieces(a, '_').len() as int] == w);
    }
}

/// A constant one of whose words is `INVALID`, `NONE` or `SENTINEL` is a
/// sentinel, spelled by its name.
pub proof fn lemma_named_absence_is_a_sentinel(defs: Definitions, e: Expr, d: DefId)
    requires
        e.ty is Int,
        e.kind matches ExprKind::Path(p) && (p.res == Res::Def(DefKind::Const, d) || p.res
            == Res::Def(DefKind::AssocConst, d)),
        word_stands(defs.name_text(d), "INVALID"@) || word_stands(defs.name_text(d), "NONE"@)
            || word_stands(defs.name_text(d), "SENTINEL"@),
    ensures
        sentinel(defs, e) == Some(Sentinel::Named(d)),
        spelling(defs, Sentinel::Named(d), e) == defs.name_text(d),
{
    reveal_strlit("INVALID");
    reveal_strlit("NONE");
    reveal_strlit("SENTINEL");
    reveal_strlit("MAX");
    let name = defs.name_text(d);
    let w = if word_stands(name, "INVALID"@) {
        "INVALID"@
    } else if word_stands(name, "NONE"@) {
        "NONE"@
    } else {
        "SENTINEL"@
    };
    assert(!w.contains('_'));
    lemma_word_is_a_piece(name, w);
    let i = choose|i: int| 0 <= i < pieces(name, '_').len() && pieces(name, '_')[i] == w;
    assert(absence_word(pieces(name, '_')[i]));
    if name == "MAX"@ {
        assert(!name.contains('_'));
        crate::text::lemma_one_piece(name, '_');
        assert("MAX"@[0] == 'M');
        assert(w[0] != 'M');
    }
}

/// A block of nothing but an expression spells what the expression spells.
pub proof fn lemma_sentinel_in_a_block(defs: Definitions, e: Expr, inner: Expr)
    requires
        e.kind matches ExprKind::Block(b) && b.stmts@.len() == 0 && b.expr == Some(Box::new(inner)),
    ensures
        sentinel(defs, e) == sentinel(defs, inner),
{
}

/// A literal is no sentinel, and neither is a local, a static or anything
/// that is no integer.
pub proof fn lemma_ordinary_value_is_no_sentinel(defs: Definitions, e: Expr)
    requires
        !(e.kind is Block),
        !(e.ty is Int) || e.kind is Lit || (e.kind matches ExprKind::Path(p) && !(p.res matches Res::Def(
            k,
            _,
        ) && (k == DefKind::Const || k == DefKind::AssocConst))),
    ensures
        sentinel(defs, e) is None,
{
}

/// The expression is the struct's integer field, read off a value of it.
pub open spec fn reads_field(defs: Definitions, e: Expr, f: Field) -> bool {
    &&& e.kind matches ExprKind::Field(base, name) && name == f.1 && adjusted_adt(*base) == Some(
        f.0,
    )
    &&& defs.is_struct(f.0)
    &&& exists|i: int|
        0 <= i < defs.fields(f.0).len() && (#[trigger] defs.fields(f.0)[i]).name == f.1
            && defs.fields(f.0)[i].ty is Int && forall|j: int|
            0 <= j < i ==> (#[trigger] defs.fields(f.0)[j]).name != f.1
}

/// The expression is another one under a cast, a borrow, a dereference, an
/// empty block, a step that keeps the value, or as one side of a sum, a
/// difference or a product.
pub open spec fn keeps_value(defs: Definitions, e: Expr, inner: Expr) -> bool {
    match e.kind {
        ExprKind::Cast(x) => *x == inner,
        ExprKind::AddrOf(_, _, x) => *x == inner,
        ExprKind::Unary(op, x) => op == UnOp::Deref && *x == inner,
        ExprKind::Block(b) => b.stmts@.len() == 0 && b.expr == Some(Box::new(inner)),
        ExprKind::MethodCall(name, recv, args) => args@.len() <= 1 && *recv == inner && (defs.text(
            name,
        ) == "clone"@ || defs.text(name) == "into"@ || defs.text(name) == "try_into"@ || defs.text(
            name,
        ) == "unwrap"@ || defs.text(name) == "expect"@ || defs.text(name) == "cast_signed"@
            || defs.text(name) == "cast_unsigned"@),
        ExprKind::Call(callee, args) => args@.len() == 1 && args@[0] == inner && (
        callee.kind matches ExprKind::Path(p) && p.type_relative && p.segments@.len() > 0 && (
        defs.text(p.segments@[p.segments@.len() - 1]) == "from"@ || defs.text(
            p.segments@[p.segments@.len() - 1],
        ) == "try_from"@)),
        ExprKind::Binary(op, l, _) => *l == inner && (op == BinOp::Plus || op == BinOp::Minus || op
            == BinOp::Times),
        _ => false,
    }
}

/// A field read carries the field, and so does whatever keeps its value.
pub proof fn lemma_value_is_carried(
    defs: Definitions,
    locals: Seq<(HirId, Field)>,
    e: Expr,
    inner: Expr,
    f: Field,
)
    ensures
        reads_field(defs, e, f) ==> carried(defs, locals, e) == Some(f),
        keeps_value(defs, e, inner) && carried(defs, locals, inner) == Some(f) ==> carried(
            defs,
            locals,
            e,
        ) == Some(f),
{
    if reads_field(defs, e, f) {
        let i = choose|i: int|
            0 <= i < defs.fields(f.0).len() && (#[trigger] defs.fields(f.0)[i]).name == f.1
                && defs.fields(f.0)[i].ty is Int && forall|j: int|
                0 <= j < i ==> (#[trigger] defs.fields(f.0)[j]).name != f.1;
        crate::adt_facts::lemma_field_named(defs.fields(f.0), f.1);
        let k = crate::adt_facts::field_named(defs.fields(f.0), f.1)->Some_0;
        if k < i {
            assert(defs.fields(f.0)[k].name != f.1);
        }
        if i < k {
            assert(defs.fields(f.0)[i].name != f.1);
        }
    }
}

/// The right side of a sum, a difference or a product carries its field where
/// the left one carries none.
pub proof fn lemma_either_side_is_carried(
    defs: Definitions,
    locals: Seq<(HirId, Field)>,
    e: Expr,
    l: Expr,
    r: Expr,
)
    requires
        e.kind matches ExprKind::Binary(op, a, b) && *a == l && *b == r && (op == BinOp::Plus || op
            == BinOp::Minus || op == BinOp::Times),
    ensures
        carried(defs, locals, l) is None ==> carried(defs, locals, e) == carried(defs, locals, r),
{
}

/// A local bound to what carries a field carries it from then on.
pub proof fn lemma_bound_local_carries(
    defs: Definitions,
    s: SentinelView,
    l: LetStmt,
    init: Expr,
    id: HirId,
    e: Expr,
)
    requires
        l.init == Some(Box::new(init)),
        l.pat.kind matches PatKind::Binding(i, _, None) && i == id,
        carried(defs, s.locals, init) is Some,
        e.kind matches ExprKind::Path(p) && p.res == Res::Local(id),
    ensures
        carried(defs, after_local(defs, s, l).locals, e) == carried(defs, s.locals, init),
        after_local(defs, s, l).compared == s.compared,
        after_local(defs, s, l).reads == s.reads,
        after_local(defs, s, l).checked == s.checked,
{
    crate::table::lemma_put_and_get(s.locals, id, carried(defs, s.locals, init)->Some_0);
}

/// The first state holds nothing the second does not.
pub open spec fn grows(s: SentinelView, t: SentinelView) -> bool {
    &&& forall|c: (Field, Seq<char>)| #[trigger] s.compared.contains(c) ==> t.compared.contains(c)
    &&& forall|r: (Field, Read)| #[trigger] s.reads.contains(r) ==> t.reads.contains(r)
    &&& forall|c: (DefId, Field)| #[trigger] s.checked.contains(c) ==> t.checked.contains(c)
}

proof fn lemma_checked_grows(s: SentinelView, body: DefId, f: Option<Field>)
    ensures
        grows(s, with_checked(s, body, f)),
        f matches Some(x) ==> with_checked(s, body, f).checked.contains((body, x)),
        with_checked(s, body, f).locals == s.locals,
        with_checked(s, body, f).compared == s.compared,
        with_checked(s, body, f).reads == s.reads,
{
    match f {
        Some(x) => crate::table::lemma_added(s.checked, (body, x)),
        None => {},
    }
}

proof fn lemma_read_grows(s: SentinelView, body: DefId, f: Option<Field>, span: Span, how: Use)
    ensures
        grows(s, with_read(s, body, f, span, how)),
        f matches Some(x) ==> with_read(s, body, f, span, how).reads.contains(
            (x, Read { body, span, how }),
        ),
        with_read(s, body, f, span, how).locals == s.locals,
        with_read(s, body, f, span, how).compared == s.compared,
        with_read(s, body, f, span, how).checked == s.checked,
{
    match f {
        Some(x) => {
            let t = s.reads.push((x, Read { body, span, how }));
            assert(t[t.len() - 1] == (x, Read { body, span, how }));
            assert forall|r: (Field, Read)| #[trigger] s.reads.contains(r) implies t.contains(
                r,
            ) by {
                let i = choose|i: int| 0 <= i < s.reads.len() && s.reads[i] == r;
                assert(t[i] == r);
            }
        },
        None => {},
    }
}

proof fn lemma_comparison_grows(
    defs: Definitions,
    s: SentinelView,
    body: DefId,
    a: Expr,
    b: Expr,
)
    ensures
        ({
            let t = with_comparison(defs, s, body, a, b);
            &&& grows(s, t)
            &&& t.locals == s.locals
            &&& t.reads == s.reads
            &&& carried(defs, s.locals, a) matches Some(f) ==> t.checked.contains((body, f))
            &&& match (carried(defs, s.locals, a), sentinel(defs, b)) {
                (Some(f), Some(x)) => t.compared.contains((f, spelling(defs, x, b))),
                _ => true,
            }
        }),
{
    match carried(defs, s.locals, a) {
        Some(f) => {
            lemma_checked_grows(s, body, Some(f));
            match sentinel(defs, b) {
                Some(x) => {
                    let c = s.compared.push((f, spelling(defs, x, b)));
                    assert(c[c.len() - 1] == (f, spelling(defs, x, b)));
                    assert forall|y: (Field, Seq<char>)| #[trigger]
                        s.compared.contains(y) implies c.contains(y) by {
                        let i = choose|i: int| 0 <= i < s.compared.len() && s.compared[i] == y;
                        assert(c[i] == y);
                    }
                },
                None => {},
            }
        },
        None => {},
    }
}

proof fn lemma_call_keeps(
    defs: Definitions,
    s: SentinelView,
    body: DefId,
    e: Expr,
    parents: Seq<Parent>,
)
    ensures
        ({
            let t = with_call(defs, s, body, e, parents);
            t.locals == s.locals && t.compared == s.compared && t.reads == s.reads && t.checked
                == s.checked
        }),
{
}

/// A field compared with a sentinel for equality, on either side, is on
/// record as compared with it, and its function as checking it.
pub proof fn lemma_comparison_is_recorded(
    defs: Definitions,
    s: SentinelView,
    owner: DefId,
    e: Expr,
    parents: Seq<Parent>,
    value: Expr,
    mark: Expr,
    f: Field,
    x: Sentinel,
)
    requires
        e.kind matches ExprKind::Binary(op, l, r) && (op == BinOp::EqualTo || op == BinOp::NotEqual)
            && ((*l == value && *r == mark) || (*l == mark && *r == value)),
        carried(defs, s.locals, value) == Some(f),
        sentinel(defs, mark) == Some(x),
    ensures
        after_expr(defs, s, owner, e, parents).compared.contains((f, spelling(defs, x, mark))),
        after_expr(defs, s, owner, e, parents).checked.contains((enclosing_fn(defs, owner), f)),
{
    let body = enclosing_fn(defs, owner);
    lemma_call_keeps(defs, s, body, e, parents);
    let t = with_call(defs, s, body, e, parents);
    match e.kind {
        ExprKind::Binary(op, l, r) => {
            lemma_comparison_grows(defs, t, body, *l, *r);
            let u = with_comparison(defs, t, body, *l, *r);
            lemma_comparison_grows(defs, u, body, *r, *l);
        },
        _ => {},
    }
}

/// Comparing a field, or bounding it by a method that decides what an
/// out-of-range value does, makes its function one that checks the field.
pub proof fn lemma_test_is_recorded(
    defs: Definitions,
    s: SentinelView,
    owner: DefId,
    e: Expr,
    parents: Seq<Parent>,
    value: Expr,
    f: Field,
    rest: Seq<char>,
)
    requires
        carried(defs, s.locals, value) == Some(f),
        (e.kind matches ExprKind::Binary(op, l, r) && (op == BinOp::EqualTo || op == BinOp::NotEqual
            || op == BinOp::Less || op == BinOp::LessEqual || op == BinOp::Greater || op
            == BinOp::GreaterEqual) && (*l == value || *r == value)) || (
        e.kind matches ExprKind::MethodCall(name, recv, args) && (*recv == value || args@.contains(
            value,
        )) && (defs.text(name) == "min"@ || defs.text(name) == "max"@ || defs.text(name)
            == "clamp"@ || defs.text(name) == "checked_"@ + rest || defs.text(name)
            == "saturating_"@ + rest || defs.text(name) == "wrapping_"@ + rest || defs.text(name)
            == "overflowing_"@ + rest)),
    ensures
        after_expr(defs, s, owner, e, parents).checked.contains((enclosing_fn(defs, owner), f)),
{
    let body = enclosing_fn(defs, owner);
    lemma_call_keeps(defs, s, body, e, parents);
    let t = with_call(defs, s, body, e, parents);
    match e.kind {
        ExprKind::Binary(op, l, r) => {
            if op == BinOp::EqualTo || op == BinOp::NotEqual {
                lemma_comparison_grows(defs, t, body, *l, *r);
                let u = with_comparison(defs, t, body, *l, *r);
                lemma_comparison_grows(defs, u, body, *r, *l);
            } else {
                lemma_checked_grows(t, body, carried(defs, t.locals, *l));
                let u = with_checked(t, body, carried(defs, t.locals, *l));
                lemma_checked_grows(u, body, carried(defs, t.locals, *r));
            }
        },
        ExprKind::MethodCall(name, recv, args) => {
            let text = defs.text(name);
            crate::text::lemma_prefix(text, "checked_"@);
            crate::text::lemma_prefix(text, "saturating_"@);
            crate::text::lemma_prefix(text, "wrapping_"@);
            crate::text::lemma_prefix(text, "overflowing_"@);
            assert(bounding(text));
            let u = with_checked(t, body, carried(defs, t.locals, *recv));
            lemma_checked_grows(t, body, carried(defs, t.locals, *recv));
            lemma_operands_checked(defs, u, body, args@, args@.len() as int);
            let v = with_operands(defs, u, body, args@, args@.len() as int);
            if *recv != value {
                let i = choose|i: int| 0 <= i < args@.len() && args@[i] == value;
                assert(carried(defs, u.locals, args@[i]) == Some(f));
            }
            assert(v.checked.contains((body, f)));
            if args@.len() == 1 {
                lemma_index_grows(defs, v, body, args@[0], e.span);
                lemma_read_grows(v, body, carried(defs, t.locals, args@[0]), e.span, Use::Offset);
            }
        },
        _ => {},
    }
}

proof fn lemma_operands_checked(
    defs: Definitions,
    s: SentinelView,
    body: DefId,
    args: Seq<Expr>,
    k: int,
)
    requires
        0 <= k <= args.len(),
    ensures
        ({
            let t = with_operands(defs, s, body, args, k);
            &&& grows(s, t)
            &&& t.locals == s.locals
            &&& t.compared == s.compared
            &&& t.reads == s.reads
            &&& t.calls == s.calls
            &&& t.callers == s.callers
            &&& t.poisoned == s.poisoned
            &&& forall|i: int|
                0 <= i < k ==> (carried(defs, s.locals, #[trigger] args[i]) matches Some(f)
                    ==> t.checked.contains((body, f)))
        }),
    decreases k,
{
    if k > 0 {
        lemma_operands_checked(defs, s, body, args, k - 1);
        let t = with_operands(defs, s, body, args, k - 1);
        lemma_checked_grows(t, body, carried(defs, s.locals, args[k - 1]));
    }
}

proof fn lemma_index_grows(defs: Definitions, s: SentinelView, body: DefId, idx: Expr, span: Span)
    ensures
        ({
            let t = with_index(defs, s, body, idx, span);
            &&& grows(s, t)
            &&& t.locals == s.locals
            &&& t.compared == s.compared
            &&& t.checked == s.checked
        }),
{
    match idx.kind {
        ExprKind::Range(lo, hi) => {
            let t = match lo {
                Some(x) => with_read(s, body, carried(defs, s.locals, *x), span, Use::Index),
                None => s,
            };
            match lo {
                Some(x) => lemma_read_grows(
                    s,
                    body,
                    carried(defs, s.locals, *x),
                    span,
                    Use::Index,
                ),
                None => {},
            }
            match hi {
                Some(x) => lemma_read_grows(
                    t,
                    body,
                    carried(defs, s.locals, *x),
                    span,
                    Use::Index,
                ),
                None => {},
            }
        },
        _ => lemma_read_grows(s, body, carried(defs, s.locals, idx), span, Use::Index),
    }
}

/// The value is what the position `idx` is given by: itself, or an end of the
/// range it is.
pub open spec fn gives_position(idx: Expr, value: Expr) -> bool {
    match idx.kind {
        ExprKind::Range(lo, hi) => lo == Some(Box::new(value)) || hi == Some(Box::new(value)),
        _ => idx == value,
    }
}

/// The expression indexes with `idx`, or calls a method that takes a position
/// and does not answer for one that is not there.
pub open spec fn indexes_with(defs: Definitions, e: Expr, idx: Expr) -> bool {
    match e.kind {
        ExprKind::Index(_, i) => *i == idx,
        ExprKind::MethodCall(name, _, args) => args@.len() == 1 && args@[0] == idx && (defs.text(
            name,
        ) == "get_unchecked"@ || defs.text(name) == "get_unchecked_mut"@ || defs.text(name)
            == "split_at"@ || defs.text(name) == "split_at_mut"@ || defs.text(name) == "split_off"@
            || defs.text(name) == "remove"@ || defs.text(name) == "swap_remove"@),
        _ => false,
    }
}

/// Every use of a field as a position is on record, in the function it stands
/// in and where it stands.
pub proof fn lemma_index_is_recorded(
    defs: Definitions,
    s: SentinelView,
    owner: DefId,
    e: Expr,
    parents: Seq<Parent>,
    idx: Expr,
    value: Expr,
    f: Field,
)
    requires
        indexes_with(defs, e, idx),
        gives_position(idx, value),
        carried(defs, s.locals, value) == Some(f),
    ensures
        after_expr(defs, s, owner, e, parents).reads.contains(
            (f, Read { body: enclosing_fn(defs, owner), span: e.span, how: Use::Index }),
        ),
{
    let body = enclosing_fn(defs, owner);
    lemma_call_keeps(defs, s, body, e, parents);
    let t = with_call(defs, s, body, e, parents);
    match e.kind {
        ExprKind::MethodCall(name, recv, args) => {
            let u = with_checked(t, body, carried(defs, t.locals, *recv));
            lemma_checked_grows(t, body, carried(defs, t.locals, *recv));
            lemma_operands_checked(defs, u, body, args@, args@.len() as int);
            let v = with_operands(defs, u, body, args@, args@.len() as int);
            lemma_position_read(defs, v, body, idx, value, e.span, f);
            lemma_position_read(defs, t, body, idx, value, e.span, f);
        },
        _ => lemma_position_read(defs, t, body, idx, value, e.span, f),
    }
}

proof fn lemma_position_read(
    defs: Definitions,
    s: SentinelView,
    body: DefId,
    idx: Expr,
    value: Expr,
    span: Span,
    f: Field,
)
    requires
        gives_position(idx, value),
        carried(defs, s.locals, value) == Some(f),
    ensures
        with_index(defs, s, body, idx, span).reads.contains(
            (f, Read { body, span, how: Use::Index }),
        ),
{
    match idx.kind {
        ExprKind::Range(lo, hi) => {
            let t = match lo {
                Some(x) => with_read(s, body, carried(defs, s.locals, *x), span, Use::Index),
                None => s,
            };
            match lo {
                Some(x) => lemma_read_grows(
                    s,
                    body,
                    carried(defs, s.locals, *x),
                    span,
                    Use::Index,
                ),
                None => {},
            }
            match hi {
                Some(x) => lemma_read_grows(
                    t,
                    body,
                    carried(defs, s.locals, *x),
                    span,
                    Use::Index,
                ),
                None => {},
            }
        },
        _ => lemma_read_grows(s, body, carried(defs, s.locals, idx), span, Use::Index),
    }
}

/// Every use of a field to move a raw pointer is on record.
pub proof fn lemma_offset_is_recorded(
    defs: Definitions,
    s: SentinelView,
    owner: DefId,
    e: Expr,
    parents: Seq<Parent>,
    value: Expr,
    f: Field,
)
    requires
        e.kind matches ExprKind::MethodCall(name, recv, args) && args@.len() == 1 && args@[0]
            == value && recv.adjusted is RawPtr && (defs.text(name) == "add"@ || defs.text(name)
            == "sub"@ || defs.text(name) == "offset"@ || defs.text(name) == "byte_add"@
            || defs.text(name) == "byte_sub"@ || defs.text(name) == "byte_offset"@),
        carried(defs, s.locals, value) == Some(f),
    ensures
        after_expr(defs, s, owner, e, parents).reads.contains(
            (f, Read { body: enclosing_fn(defs, owner), span: e.span, how: Use::Offset }),
        ),
{
    reveal_strlit("add");
    reveal_strlit("sub");
    reveal_strlit("offset");
    reveal_strlit("byte_add");
    reveal_strlit("byte_sub");
    reveal_strlit("byte_offset");
    reveal_strlit("get_unchecked");
    reveal_strlit("get_unchecked_mut");
    reveal_strlit("split_at");
    reveal_strlit("split_at_mut");
    reveal_strlit("split_off");
    reveal_strlit("remove");
    reveal_strlit("swap_remove");
    let body = enclosing_fn(defs, owner);
    lemma_call_keeps(defs, s, body, e, parents);
    let t = with_call(defs, s, body, e, parents);
    match e.kind {
        ExprKind::MethodCall(name, recv, args) => {
            let n = defs.text(name);
            assert(n[0] == 'a' || n[0] == 's' || n[0] == 'o' || n[0] == 'b');
            assert("swap_remove"@[1] == 'w' && "split_at"@[1] == 'p' && "sub"@[1] == 'u');
            assert("split_off"@[1] == 'p' && "split_at_mut"@[1] == 'p');
            assert("remove"@[0] == 'r' && "get_unchecked"@[0] == 'g');
            assert("get_unchecked_mut"@[0] == 'g');
            assert(n.len() > 1);
            assert(n == "sub"@ ==> n[1] == 'u');
            assert(!indexer(n));
            let u = with_checked(t, body, carried(defs, t.locals, *recv));
            lemma_checked_grows(t, body, carried(defs, t.locals, *recv));
            lemma_operands_checked(defs, u, body, args@, args@.len() as int);
            let v = with_operands(defs, u, body, args@, args@.len() as int);
            lemma_read_grows(v, body, Some(f), e.span, Use::Offset);
            lemma_read_grows(t, body, Some(f), e.span, Use::Offset);
        },
        _ => {},
    }
}

proof fn lemma_earliest(reads: Seq<(Field, Read)>, f: Field, r: Read)
    requires
        reads.contains((f, r)),
    ensures
        earliest(reads, f, r.body) matches Some(b) && b.body == r.body && b.span.lo <= r.span.lo
            && reads.contains((f, b)),
    decreases reads.len(),
{
    let i = choose|i: int| 0 <= i < reads.len() && reads[i] == (f, r);
    let front = reads.drop_last();
    if i < front.len() {
        assert(front[i] == (f, r));
        lemma_earliest(front, f, r);
    } else if exists|j: int| 0 <= j < front.len() && front[j].0 == f && front[j].1.body == r.body {
        let j = choose|j: int| 0 <= j < front.len() && front[j].0 == f && front[j].1.body == r.body;
        assert(front.contains((f, front[j].1)));
        lemma_earliest(front, f, front[j].1);
    } else {
        lemma_no_earliest(front, f, r.body);
    }
    let last = reads.last();
    assert(reads[reads.len() - 1] == last);
    let b = earliest(reads, f, r.body)->Some_0;
    if front.contains((f, b)) {
        let k = choose|k: int| 0 <= k < front.len() && front[k] == (f, b);
        assert(reads[k] == (f, b));
    }
}

proof fn lemma_no_earliest(reads: Seq<(Field, Read)>, f: Field, body: DefId)
    requires
        forall|j: int|
            0 <= j < reads.len() ==> !((#[trigger] reads[j]).0 == f && reads[j].1.body == body),
    ensures
        earliest(reads, f, body) is None,
    decreases reads.len(),
{
    if reads.len() > 0 {
        let front = reads.drop_last();
        assert forall|j: int| 0 <= j < front.len() implies !((#[trigger] front[j]).0 == f
            && front[j].1.body == body) by {
            assert(reads[j] == front[j]);
        }
        assert(reads[reads.len() - 1] == reads.last());
        lemma_no_earliest(front, f, body);
    }
}

/// The function neither tests the field nor calls a predicate that does.
pub open spec fn leaves_unchecked(s: SentinelView, body: DefId, f: Field) -> bool {
    !s.checked.contains((body, f)) && forall|p: DefId| #[trigger]
        s.calls.contains((body, p)) ==> !s.checked.contains((p, f))
}

/// A field the crate compares with a sentinel and a function uses unchecked,
/// which some caller does not check for or that nobody is seen to call, is
/// reported, at that function's first use of it.
pub proof fn lemma_unchecked_use_is_reported(
    defs: Definitions,
    s: SentinelView,
    f: Field,
    spelled: Seq<char>,
    r: Read,
)
    requires
        s.compared.contains((f, spelled)),
        s.reads.contains((f, r)),
        leaves_unchecked(s, r.body, f),
        s.poisoned.contains(r.body) || (forall|c: DefId| !#[trigger] s.callers.contains((r.body, c)))
            || exists|c: DefId| #[trigger]
            s.callers.contains((r.body, c)) && leaves_unchecked(s, c, f),
    ensures
        exists|i: int|
            0 <= i < sentinel_findings(defs, s).len() && ({
                let x = #[trigger] sentinel_findings(defs, s)[i];
                x.lint == Lint::SentinelInt && exists|b: Read| #[trigger]
                    s.reads.contains((f, b)) && b.body == r.body && b.span.lo <= r.span.lo && x.at
                        == b.span
            }),
{
    let body = r.body;
    lemma_earliest(s.reads, f, r);
    let first = earliest(s.reads, f, body)->Some_0;
    let ci = choose|i: int| 0 <= i < s.compared.len() && s.compared[i] == (f, spelled);
    crate::table::lemma_first_entry(s.compared, ci);
    lemma_unchecked(s, body, f);
    assert(!callers_check(s, body, f)) by {
        if callers_check(s, body, f) {
            let i = choose|i: int| 0 <= i < s.callers.len() && (#[trigger] s.callers[i]).0 == body;
            assert(s.callers.contains((body, s.callers[i].1)));
            let c = choose|c: DefId| #[trigger]
                s.callers.contains((body, c)) && leaves_unchecked(s, c, f);
            let j = choose|j: int| 0 <= j < s.callers.len() && s.callers[j] == (body, c);
            assert(checks(s, s.callers[j].1, f));
            lemma_unchecked(s, c, f);
        }
    }
    let x = reader_finding(defs, s, f, body)->Some_0;
    assert(reader_finding(defs, s, f, body) is Some);
    let k = choose|k: int| 0 <= k < s.reads.len() && s.reads[k] == (f, r);
    let n = s.reads.len() as int;
    lemma_reader_listed(s.reads, n, k);
    let rs = readers(s.reads, n);
    let m = choose|m: int| 0 <= m < rs.len() && rs[m] == (f, body);
    lemma_reader_reported(defs, s, rs, rs.len() as int, m);
    let all = reader_findings(defs, s, rs, rs.len() as int);
    lemma_reader_findings_lint(defs, s, rs, rs.len() as int);
    crate::report::lemma_position_keeps(all);
    let sorted = by_position(all);
    let a = choose|a: int| 0 <= a < all.len() && all[a] == x;
    assert(sorted.contains(x));
    let p = choose|p: int| 0 <= p < sorted.len() && sorted[p] == x;
    crate::report::lemma_place_kept(sorted, p);
    let kept = one_per_place(sorted);
    let q = choose|q: int| 0 <= q < kept.len() && (#[trigger] kept[q]).at == x.at;
    crate::report::lemma_kept_is_there(sorted, q);
    assert(all.contains(kept[q]));
    let t = choose|t: int| 0 <= t < all.len() && all[t] == kept[q];
    assert(all[t].lint == Lint::SentinelInt);
    assert(s.reads.contains((f, first)) && x.at == first.span);
    assert(sentinel_findings(defs, s)[q] == kept[q]);
}

proof fn lemma_unchecked(s: SentinelView, body: DefId, f: Field)
    requires
        leaves_unchecked(s, body, f),
    ensures
        !checks(s, body, f),
{
    if checks(s, body, f) {
        let i = choose|i: int|
            0 <= i < s.calls.len() && (#[trigger] s.calls[i]).0 == body && s.checked.contains(
                (s.calls[i].1, f),
            );
        assert(s.calls.contains((body, s.calls[i].1)));
    }
}

proof fn lemma_reader_listed(reads: Seq<(Field, Read)>, k: int, i: int)
    requires
        0 <= i < k <= reads.len(),
    ensures
        readers(reads, k).contains((reads[i].0, reads[i].1.body)),
    decreases k,
{
    crate::table::lemma_added(
        readers(reads, k - 1),
        (reads[k - 1].0, reads[k - 1].1.body),
    );
    if i < k - 1 {
        lemma_reader_listed(reads, k - 1, i);
    }
}

proof fn lemma_reader_reported(
    defs: Definitions,
    s: SentinelView,
    rs: Seq<(Field, DefId)>,
    k: int,
    m: int,
)
    requires
        0 <= m < k <= rs.len(),
        reader_finding(defs, s, rs[m].0, rs[m].1) is Some,
    ensures
        reader_findings(defs, s, rs, k).contains(
            reader_finding(defs, s, rs[m].0, rs[m].1)->Some_0,
        ),
    decreases k,
{
    let x = reader_finding(defs, s, rs[m].0, rs[m].1)->Some_0;
    let all = reader_findings(defs, s, rs, k);
    let before = reader_findings(defs, s, rs, k - 1);
    if m == k - 1 {
        assert(all[all.len() - 1] == x);
    } else {
        lemma_reader_reported(defs, s, rs, k - 1, m);
        let i = choose|i: int| 0 <= i < before.len() && before[i] == x;
        assert(all[i] == x);
    }
}

proof fn lemma_reader_findings_lint(
    defs: Definitions,
    s: SentinelView,
    rs: Seq<(Field, DefId)>,
    k: int,
)
    ensures
        forall|i: int|
            0 <= i < reader_findings(defs, s, rs, k).len() ==> (#[trigger] reader_findings(
                defs,
                s,
                rs,
                k,
            )[i]).lint == Lint::SentinelInt,
    decreases k,
{
    if k > 0 {
        lemma_reader_findings_lint(defs, s, rs, k - 1);
        let all = reader_findings(defs, s, rs, k);
        let before = reader_findings(defs, s, rs, k - 1);
        assert forall|i: int| 0 <= i < all.len() implies (#[trigger] all[i]).lint
            == Lint::SentinelInt by {
            if i < before.len() {
                assert(before[i].lint == Lint::SentinelInt);
            }
        }
    }
}

/// Who calls whom is not changed by what is done with fields.
proof fn lemma_calls_kept(
    defs: Definitions,
    s: SentinelView,
    owner: DefId,
    e: Expr,
    parents: Seq<Parent>,
)
    ensures
        ({
            let t = with_call(defs, s, enclosing_fn(defs, owner), e, parents);
            let u = after_expr(defs, s, owner, e, parents);
            u.callers == t.callers && u.calls == t.calls && u.poisoned == t.poisoned
        }),
{
    let body = enclosing_fn(defs, owner);
    let t = with_call(defs, s, body, e, parents);
    match e.kind {
        ExprKind::MethodCall(name, recv, args) => {
            let u = with_checked(t, body, carried(defs, t.locals, *recv));
            lemma_operands_checked(defs, u, body, args@, args@.len() as int);
        },
        _ => {},
    }
}

/// A direct call of a function of the crate makes the caller one of its known
/// callers; if that function answers yes or no, what it tests counts as
/// tested by the caller.
pub proof fn lemma_direct_call_is_recorded(
    defs: Definitions,
    s: SentinelView,
    owner: DefId,
    e: Expr,
    parents: Seq<Parent>,
    def: DefId,
)
    requires
        (e.kind matches ExprKind::Call(f, _) && (f.kind matches ExprKind::Path(p) && (
        p.res matches Res::Def(_, d) && d == def))) || (e.kind is MethodCall && e.method == Some(
            def,
        )),
        defs.local(def),
        defs.kind(def) == DefKind::Function || defs.kind(def) == DefKind::AssocFn,
    ensures
        after_expr(defs, s, owner, e, parents).callers.contains((def, enclosing_fn(defs, owner))),
        (defs.sig(def) matches Some(g) && g.output is Bool) ==> after_expr(
            defs,
            s,
            owner,
            e,
            parents,
        ).calls.contains((enclosing_fn(defs, owner), def)),
        !(defs.sig(def) matches Some(g) && g.output is Bool) ==> after_expr(
            defs,
            s,
            owner,
            e,
            parents,
        ).calls == s.calls,
{
    let body = enclosing_fn(defs, owner);
    lemma_calls_kept(defs, s, owner, e, parents);
    crate::table::lemma_added(s.callers, (def, body));
    crate::table::lemma_added(s.calls, (body, def));
}

/// A function of the crate that is named other than to call it has callers
/// nobody can see.
pub proof fn lemma_mention_hides_callers(
    defs: Definitions,
    s: SentinelView,
    owner: DefId,
    e: Expr,
    parents: Seq<Parent>,
    def: DefId,
)
    requires
        e.kind matches ExprKind::Path(p) && (p.res == Res::Def(DefKind::Function, def) || p.res
            == Res::Def(DefKind::AssocFn, def)),
        defs.local(def),
        !(parents.len() > 0 && (parents[0] matches Parent::Expr(q) && (
        q.kind matches ExprKind::Call(f, _) && f.id == e.id))),
    ensures
        after_expr(defs, s, owner, e, parents).poisoned.contains(def),
{
    lemma_calls_kept(defs, s, owner, e, parents);
    crate::table::lemma_added(s.poisoned, def);
}

/// Only such uses are reported: at every place reported, a field the crate
/// compares with a sentinel is used by a function that does not test it.
pub proof fn lemma_reported_use_is_unchecked(defs: Definitions, s: SentinelView, i: int)
    requires
        0 <= i < sentinel_findings(defs, s).len(),
    ensures
        exists|f: Field, r: Read| #[trigger]
            s.reads.contains((f, r)) && sentinel_findings(defs, s)[i].at == r.span
                && !s.checked.contains((r.body, f)) && exists|c: Seq<char>| #[trigger]
                s.compared.contains((f, c)),
{
    let n = s.reads.len() as int;
    let rs = readers(s.reads, n);
    let all = reader_findings(defs, s, rs, rs.len() as int);
    crate::report::lemma_kept_is_there(by_position(all), i);
    crate::report::lemma_position_keeps(all);
    let x = sentinel_findings(defs, s)[i];
    let k = choose|k: int| 0 <= k < all.len() && all[k] == x;
    lemma_finding_has_reader(defs, s, rs, rs.len() as int, k);
    let m = choose|m: int|
        0 <= m < rs.len() && reader_finding(defs, s, (#[trigger] rs[m]).0, rs[m].1) == Some(x);
    let f = rs[m].0;
    let body = rs[m].1;
    let read = earliest(s.reads, f, body)->Some_0;
    lemma_earliest_is_there(s.reads, f, body);
    crate::table::lemma_key_at(s.compared, f);
    let at = crate::table::key_at(s.compared, f);
    assert(s.compared.contains((f, s.compared[at].1)));
    assert(s.reads.contains((f, read)));
}

proof fn lemma_earliest_is_there(reads: Seq<(Field, Read)>, f: Field, body: DefId)
    ensures
        earliest(reads, f, body) matches Some(b) ==> b.body == body && reads.contains((f, b)),
    decreases reads.len(),
{
    if reads.len() > 0 {
        let front = reads.drop_last();
        lemma_earliest_is_there(front, f, body);
        assert(reads[reads.len() - 1] == reads.last());
        match earliest(front, f, body) {
            Some(b) => {
                let k = choose|k: int| 0 <= k < front.len() && front[k] == (f, b);
                assert(reads[k] == (f, b));
            },
            None => {},
        }
    }
}

proof fn lemma_finding_has_reader(
    defs: Definitions,
    s: SentinelView,
    rs: Seq<(Field, DefId)>,
    k: int,
    i: int,
)
    requires
        0 <= k <= rs.len(),
        0 <= i < reader_findings(defs, s, rs, k).len(),
    ensures
        exists|m: int|
            0 <= m < rs.len() && reader_finding(defs, s, (#[trigger] rs[m]).0, rs[m].1) == Some(
                reader_findings(defs, s, rs, k)[i],
            ),
    decreases k,
{
    let before = reader_findings(defs, s, rs, k - 1);
    if i < before.len() {
        lemma_finding_has_reader(defs, s, rs, k - 1, i);
    } else {
        assert(reader_finding(defs, s, rs[k - 1].0, rs[k - 1].1) == Some(
            reader_findings(defs, s, rs, k)[i],
        ));
    }
}

} // verus!
