//! A value of a struct, enum or union produced by reinterpreting the bits of
//! another type (`mem::transmute`, `mem::transmute_copy`, a pointer cast)
//! when a conversion from that same source to that same target exists: an
//! `impl From`, an `impl TryFrom`, or a safe receiver-less function of the
//! type that takes one value and gives the type, bare or in an `Option` or a
//! `Result`.
//!
//! For a transmute of a value every integer type counts as the same source;
//! behind a pointer the source has to be exactly the conversion's input.

use crate::adt_facts::{in_own_code_of, own_code};
use crate::defs::{Definitions, Input, Known, TraitImpl};
use crate::enum_facts::{parent_def, parent_of};
use crate::hir::{Expr, ExprKind};
use crate::hir_shapes::{called_def, callee_of};
use crate::ids::DefId;
use crate::report::{emit, emit_with_note, finding, noted, views, Finding, FindingView, Lint};
use crate::text::same;
use crate::ty::{adt_id, has_param, peeled, ty_eq, Ty};
use vstd::prelude::*;
use vstd::string::*;

verus! {

/// How the site reads another type's bits.
#[derive(Clone, Copy, Debug, PartialEq, Eq, Structural)]
pub enum Means {
    Transmute,
    TransmuteCopy,
    PointerCast,
}

/// How the message names the means.
pub open spec fn means_text(m: Means) -> Seq<char> {
    match m {
        Means::Transmute => "`mem::transmute`"@,
        Means::TransmuteCopy => "`mem::transmute_copy`"@,
        Means::PointerCast => "a pointer cast"@,
    }
}

fn text_of_means(m: Means) -> (r: &'static str)
    ensures
        r@ == means_text(m),
{
    match m {
        Means::Transmute => "`mem::transmute`",
        Means::TransmuteCopy => "`mem::transmute_copy`",
        Means::PointerCast => "a pointer cast",
    }
}

/// Which transmute a function is.
pub open spec fn transmute_kind(defs: Definitions, def: DefId) -> Option<Means> {
    if defs.known(def) == Known::Transmute {
        Some(Means::Transmute)
    } else if defs.crate_text(def) == "core"@ && defs.name_text(def) == "transmute_copy"@ && (
    parent_of(defs, def) matches Some(m) && defs.name_text(m) == "mem"@) {
        Some(Means::TransmuteCopy)
    } else {
        None
    }
}

pub fn transmuter(defs: &Definitions, def: DefId) -> (r: Option<Means>)
    ensures
        r == transmute_kind(*defs, def),
{
    if defs.known_as(def) == Known::Transmute {
        return Some(Means::Transmute);
    }
    let copies = same(defs.crate_of(def), "core") && same(defs.name_of(def), "transmute_copy")
        && match parent_def(defs, def) {
        Some(m) => same(defs.name_of(m), "mem"),
        None => false,
    };
    if copies {
        Some(Means::TransmuteCopy)
    } else {
        None
    }
}

/// What a reference or pointer points at.
pub open spec fn pointee(t: Ty) -> Option<Ty> {
    match t {
        Ty::Ref(inner, _) => Some(*inner),
        Ty::RawPtr(inner, _) => Some(*inner),
        _ => None,
    }
}

/// Both types with the reference or pointer layers that both have taken off,
/// and how many those were, counting from `k`.
pub open spec fn peel_pair(a: Ty, b: Ty, k: nat) -> (Ty, Ty, nat)
    decreases a,
{
    match a {
        Ty::Ref(x, _) => match pointee(b) {
            Some(y) => peel_pair(*x, y, k + 1),
            None => (a, b, k),
        },
        Ty::RawPtr(x, _) => match pointee(b) {
            Some(y) => peel_pair(*x, y, k + 1),
            None => (a, b, k),
        },
        _ => (a, b, k),
    }
}

fn points_at<'a>(t: &'a Ty) -> (r: Option<&'a Ty>)
    ensures
        match r {
            Some(p) => pointee(*t) == Some(*p) && decreases_to!(*t => *p),
            None => pointee(*t) is None,
        },
{
    match t {
        Ty::Ref(inner, _) => Some(&**inner),
        Ty::RawPtr(inner, _) => Some(&**inner),
        _ => None,
    }
}

/// Takes off the layers both types have; counts them as far as a `usize`
/// counts.
pub fn peel_pointer_pair<'a>(a: &'a Ty, b: &'a Ty) -> (r: (&'a Ty, &'a Ty, Option<usize>))
    ensures
        match peel_pair(*a, *b, 0) {
            (x, y, k) => *r.0 == x && *r.1 == y && match r.2 {
                Some(n) => n == k,
                None => k > usize::MAX,
            },
        },
{
    let mut x = a;
    let mut y = b;
    let mut k: Option<usize> = Some(0);
    let ghost mut n: nat = 0;
    loop
        invariant
            peel_pair(*a, *b, 0) == peel_pair(*x, *y, n),
            match k {
                Some(m) => m == n,
                None => n > usize::MAX,
            },
        decreases *x,
    {
        match (points_at(x), points_at(y)) {
            (Some(p), Some(q)) => {
                x = p;
                y = q;
                k = match k {
                    Some(m) => m.checked_add(1),
                    None => None,
                };
                proof {
                    n = n + 1;
                }
            },
            _ => {
                proof {
                    lemma_peel_counts(*x, *y, n);
                }
                return (x, y, k);
            },
        }
    }
}

proof fn lemma_peel_counts(a: Ty, b: Ty, k: nat)
    requires
        pointee(a) is None || pointee(b) is None,
    ensures
        peel_pair(a, b, k) == (a, b, k),
{
}

/// One way some `from` becomes the target.
pub struct Conversion<'a> {
    pub from: &'a Input,
    pub def: DefId,
    /// How the message names it.
    pub name: String,
    /// It can refuse a value, not just remap one.
    pub fallible: bool,
}

pub struct ConversionView {
    pub from: Input,
    pub def: DefId,
    pub name: Seq<char>,
    pub fallible: bool,
}

impl<'a> View for Conversion<'a> {
    type V = ConversionView;

    open spec fn view(&self) -> ConversionView {
        ConversionView {
            from: *self.from,
            def: self.def,
            name: self.name@,
            fallible: self.fallible,
        }
    }
}

pub open spec fn conversion_views(v: Seq<Conversion>) -> Seq<ConversionView> {
    Seq::new(v.len(), |i: int| v[i]@)
}

/// An input that is not the target itself and mentions no type parameter.
pub open spec fn usable_input(t: Ty, target: DefId) -> bool {
    adt_id(peeled(t)) != Some(target) && !has_param(t)
}

fn is_usable_input(t: &Ty, target: DefId) -> (r: bool)
    ensures
        r == usable_input(*t, target),
{
    let itself = match t.peel_refs().adt() {
        Some(d) => d == target,
        None => false,
    };
    !itself && !t.mentions_param()
}

/// The first function among definitions.
pub open spec fn first_fn(defs: Definitions, items: Seq<DefId>) -> Option<DefId>
    decreases items.len(),
{
    if items.len() == 0 {
        None
    } else if defs.is_fn(items[0]) {
        Some(items[0])
    } else {
        first_fn(defs, items.drop_first())
    }
}

/// `Target::name`.
pub open spec fn conversion_name(defs: Definitions, target: DefId, name: Seq<char>) -> Seq<char> {
    defs.name_text(target) + "::"@ + name
}

/// The conversion an impl of the trait makes.
pub open spec fn trait_conversion(
    defs: Definitions,
    target: DefId,
    imp: TraitImpl,
    of: Known,
    method: Seq<char>,
    fallible: bool,
) -> Option<ConversionView> {
    if imp.of == of && adt_id(peeled(imp.target)) == Some(target) && usable_input(
        imp.arg.ty,
        target,
    ) {
        Some(
            ConversionView {
                from: imp.arg,
                def: match first_fn(defs, imp.items@) {
                    Some(f) => f,
                    None => imp.did,
                },
                name: conversion_name(defs, target, method),
                fallible,
            },
        )
    } else {
        None
    }
}

pub open spec fn trait_conversions(
    defs: Definitions,
    target: DefId,
    imps: Seq<TraitImpl>,
    of: Known,
    method: Seq<char>,
    fallible: bool,
) -> Seq<ConversionView>
    decreases imps.len(),
{
    if imps.len() == 0 {
        Seq::empty()
    } else {
        let before = trait_conversions(defs, target, imps.drop_last(), of, method, fallible);
        match trait_conversion(defs, target, imps.last(), of, method, fallible) {
            Some(c) => before.push(c),
            None => before,
        }
    }
}

/// Whether a function's result is the target, and if so whether wrapped.
pub open spec fn gives_target(defs: Definitions, output: Ty, target: DefId) -> Option<bool> {
    match output {
        Ty::Adt(o, args) => if o == target {
            Some(false)
        } else if (defs.known(o) == Known::OptionType || defs.known(o) == Known::ResultType)
            && args@.len() > 0 && adt_id(args@[0]) == Some(target) {
            Some(true)
        } else {
            None
        },
        _ => None,
    }
}

pub fn target_given(defs: &Definitions, output: &Ty, target: DefId) -> (r: Option<bool>)
    ensures
        r == gives_target(*defs, *output, target),
{
    match output {
        Ty::Adt(o, args) => {
            if *o == target {
                Some(false)
            } else {
                let wraps = match defs.known_as(*o) {
                    Known::OptionType | Known::ResultType => true,
                    _ => false,
                };
                if wraps && args.len() > 0 {
                    match args[0].adt() {
                        Some(d) => if d == target {
                            Some(true)
                        } else {
                            None
                        },
                        None => None,
                    }
                } else {
                    None
                }
            }
        },
        _ => None,
    }
}

/// The conversion a definition in an inherent impl is.
pub open spec fn inherent_conversion(
    defs: Definitions,
    target: DefId,
    item: DefId,
) -> Option<ConversionView> {
    match defs.sig(item) {
        Some(sig) => if !defs.is_fn(item) || sig.is_method || sig.is_unsafe || sig.inputs@.len()
            != 1 || !usable_input(sig.inputs@[0].ty, target) {
            None
        } else {
            match gives_target(defs, sig.output, target) {
                Some(fallible) => Some(
                    ConversionView {
                        from: sig.inputs@[0],
                        def: item,
                        name: conversion_name(defs, target, defs.name_text(item)),
                        fallible,
                    },
                ),
                None => None,
            }
        },
        None => None,
    }
}

pub open spec fn inherent_conversions(
    defs: Definitions,
    target: DefId,
    items: Seq<DefId>,
) -> Seq<ConversionView>
    decreases items.len(),
{
    if items.len() == 0 {
        Seq::empty()
    } else {
        let before = inherent_conversions(defs, target, items.drop_last());
        match inherent_conversion(defs, target, items.last()) {
            Some(c) => before.push(c),
            None => before,
        }
    }
}

pub open spec fn impl_conversions(
    defs: Definitions,
    target: DefId,
    imps: Seq<Vec<DefId>>,
) -> Seq<ConversionView>
    decreases imps.len(),
{
    if imps.len() == 0 {
        Seq::empty()
    } else {
        impl_conversions(defs, target, imps.drop_last()) + inherent_conversions(
            defs,
            target,
            imps.last()@,
        )
    }
}

/// Every conversion into the target.
pub open spec fn all_conversions(defs: Definitions, target: DefId) -> Seq<ConversionView> {
    match defs.adt(target) {
        Some(adt) => trait_conversions(
            defs,
            target,
            adt.conversions@,
            Known::FromTrait,
            "from"@,
            false,
        ) + trait_conversions(
            defs,
            target,
            adt.conversions@,
            Known::TryFromTrait,
            "try_from"@,
            true,
        ) + impl_conversions(defs, target, adt.inherent@),
        None => Seq::empty(),
    }
}

proof fn lemma_push_view<'a>(v: Seq<Conversion<'a>>, c: Conversion<'a>)
    ensures
        conversion_views(v.push(c)) == conversion_views(v).push(c@),
{
    assert(conversion_views(v.push(c)) =~= conversion_views(v).push(c@));
}

fn named(defs: &Definitions, target: DefId, name: &str) -> (r: String)
    ensures
        r@ == conversion_name(*defs, target, name@),
{
    let mut s = String::from_str(defs.name_of(target));
    s.append("::");
    s.append(name);
    s
}

fn find_fn(defs: &Definitions, items: &Vec<DefId>) -> (r: Option<DefId>)
    ensures
        r == first_fn(*defs, items@),
{
    let mut i: usize = 0;
    assert(items@.skip(0) =~= items@);
    while i < items.len()
        invariant
            i <= items@.len(),
            first_fn(*defs, items@) == first_fn(*defs, items@.skip(i as int)),
        decreases items.len() - i,
    {
        assert(items@.skip(i as int).drop_first() =~= items@.skip(i + 1));
        if defs.function_here(items[i]) {
            return Some(items[i]);
        }
        i = i + 1;
    }
    None
}

fn add_trait_conversions<'a>(
    defs: &'a Definitions,
    target: DefId,
    imps: &'a Vec<TraitImpl>,
    of: Known,
    method: &str,
    fallible: bool,
    out: &mut Vec<Conversion<'a>>,
)
    ensures
        conversion_views(final(out)@) == conversion_views(old(out)@) + trait_conversions(
            *defs,
            target,
            imps@,
            of,
            method@,
            fallible,
        ),
{
    let ghost start = conversion_views(out@);
    let mut i: usize = 0;
    assert(conversion_views(out@) =~= start + trait_conversions(
        *defs,
        target,
        imps@.take(0),
        of,
        method@,
        fallible,
    ));
    while i < imps.len()
        invariant
            i <= imps@.len(),
            conversion_views(out@) == start + trait_conversions(
                *defs,
                target,
                imps@.take(i as int),
                of,
                method@,
                fallible,
            ),
        decreases imps.len() - i,
    {
        assert(imps@.take(i + 1).drop_last() =~= imps@.take(i as int));
        let imp = &imps[i];
        let for_target = match imp.target.peel_refs().adt() {
            Some(d) => d == target,
            None => false,
        };
        if imp.of == of && for_target && is_usable_input(&imp.arg.ty, target) {
            let def = match find_fn(defs, &imp.items) {
                Some(f) => f,
                None => imp.did,
            };
            let c = Conversion {
                from: &imp.arg,
                def,
                name: named(defs, target, method),
                fallible,
            };
            let ghost before = out@;
            proof {
                lemma_push_view(before, c);
            }
            out.push(c);
            assert(conversion_views(out@) =~= start + trait_conversions(
                *defs,
                target,
                imps@.take(i + 1),
                of,
                method@,
                fallible,
            ));
        }
        i = i + 1;
    }
    assert(imps@.take(i as int) =~= imps@);
}

fn add_inherent_conversions<'a>(
    defs: &'a Definitions,
    target: DefId,
    items: &'a Vec<DefId>,
    out: &mut Vec<Conversion<'a>>,
)
    ensures
        conversion_views(final(out)@) == conversion_views(old(out)@) + inherent_conversions(
            *defs,
            target,
            items@,
        ),
{
    let ghost start = conversion_views(out@);
    let mut i: usize = 0;
    assert(conversion_views(out@) =~= start + inherent_conversions(*defs, target, items@.take(0)));
    while i < items.len()
        invariant
            i <= items@.len(),
            conversion_views(out@) == start + inherent_conversions(
                *defs,
                target,
                items@.take(i as int),
            ),
        decreases items.len() - i,
    {
        assert(items@.take(i + 1).drop_last() =~= items@.take(i as int));
        let item = items[i];
        match defs.sig_of(item) {
            Some(sig) => {
                if defs.function_here(item) && !sig.is_method && !sig.is_unsafe && sig.inputs.len()
                    == 1 && is_usable_input(&sig.inputs[0].ty, target) {
                    match target_given(defs, &sig.output, target) {
                        Some(fallible) => {
                            let c = Conversion {
                                from: &sig.inputs[0],
                                def: item,
                                name: named(defs, target, defs.name_of(item)),
                                fallible,
                            };
                            proof {
                                lemma_push_view(out@, c);
                            }
                            out.push(c);
                            assert(conversion_views(out@) =~= start + inherent_conversions(
                                *defs,
                                target,
                                items@.take(i + 1),
                            ));
                        },
                        None => {},
                    }
                }
            },
            None => {},
        }
        i = i + 1;
    }
    assert(items@.take(i as int) =~= items@);
}

/// Every conversion into the target.
pub fn collect_conversions<'a>(defs: &'a Definitions, target: DefId) -> (r: Vec<Conversion<'a>>)
    ensures
        conversion_views(r@) == all_conversions(*defs, target),
{
    let mut out: Vec<Conversion<'a>> = Vec::new();
    assert(conversion_views(out@) =~= Seq::<ConversionView>::empty());
    let adt = match defs.adt_of(target) {
        Some(a) => a,
        None => {
            return out;
        },
    };
    add_trait_conversions(
        defs,
        target,
        &adt.conversions,
        Known::FromTrait,
        "from",
        false,
        &mut out,
    );
    add_trait_conversions(
        defs,
        target,
        &adt.conversions,
        Known::TryFromTrait,
        "try_from",
        true,
        &mut out,
    );
    let ghost start = conversion_views(out@);
    let mut i: usize = 0;
    let imps = &adt.inherent;
    assert(conversion_views(out@) =~= start + impl_conversions(*defs, target, imps@.take(0)));
    while i < imps.len()
        invariant
            i <= imps@.len(),
            conversion_views(out@) == start + impl_conversions(
                *defs,
                target,
                imps@.take(i as int),
            ),
        decreases imps.len() - i,
    {
        assert(imps@.take(i + 1).drop_last() =~= imps@.take(i as int));
        add_inherent_conversions(defs, target, &imps[i], &mut out);
        i = i + 1;
        assert(conversion_views(out@) =~= start + impl_conversions(
            *defs,
            target,
            imps@.take(i as int),
        ));
    }
    assert(imps@.take(i as int) =~= imps@);
    assert(conversion_views(out@) =~= all_conversions(*defs, target));
    out
}

/// The first conversion from `k` on whose input is the source, or, if
/// `integers`, is an integer.
pub open spec fn first_conversion(
    cs: Seq<ConversionView>,
    from: Ty,
    integers: bool,
    k: int,
) -> Option<ConversionView>
    decreases cs.len() - k,
{
    if k >= cs.len() {
        None
    } else if (integers && cs[k].from.ty is Int) || (!integers && ty_eq(cs[k].from.ty, from)) {
        Some(cs[k])
    } else {
        first_conversion(cs, from, integers, k + 1)
    }
}

/// The conversion the site skips.
pub open spec fn skipped(cs: Seq<ConversionView>, from: Ty, by_value: bool) -> Option<
    ConversionView,
> {
    match first_conversion(cs, from, false, 0) {
        Some(c) => Some(c),
        None => if by_value && from is Int {
            first_conversion(cs, from, true, 0)
        } else {
            None
        },
    }
}

fn find_conversion<'a, 'b>(
    cs: &'b Vec<Conversion<'a>>,
    from: &Ty,
    integers: bool,
) -> (r: Option<&'b Conversion<'a>>)
    ensures
        match r {
            Some(c) => first_conversion(conversion_views(cs@), *from, integers, 0) == Some(c@),
            None => first_conversion(conversion_views(cs@), *from, integers, 0) is None,
        },
{
    let mut k: usize = 0;
    while k < cs.len()
        invariant
            k <= cs@.len(),
            first_conversion(conversion_views(cs@), *from, integers, 0) == first_conversion(
                conversion_views(cs@),
                *from,
                integers,
                k as int,
            ),
        decreases cs.len() - k,
    {
        let c = &cs[k];
        assert(conversion_views(cs@)[k as int] == c@);
        if (integers && c.from.ty.is_integral()) || (!integers && c.from.ty.same_as(from)) {
            return Some(c);
        }
        k = k + 1;
    }
    None
}

/// How an expression's type prints with `k` references or pointers taken off.
pub open spec fn layer_text(e: Expr, k: nat) -> Seq<char> {
    if k == 0 {
        e.ty_text@
    } else if k - 1 < e.pointee_texts@.len() {
        e.pointee_texts@[k - 1]@
    } else {
        ""@
    }
}

/// `None` stands for more layers than any list has.
fn text_of_layer<'a>(e: &'a Expr, k: Option<usize>) -> (r: &'a str)
    ensures
        match k {
            Some(n) => r@ == layer_text(*e, n as nat),
            None => forall|n: nat| n > usize::MAX ==> r@ == #[trigger] layer_text(*e, n),
        },
{
    match k {
        Some(n) => {
            if n == 0 {
                e.ty_text.as_str()
            } else if n - 1 < e.pointee_texts.len() {
                e.pointee_texts[n - 1].as_str()
            } else {
                ""
            }
        },
        None => {
            assert(e.pointee_texts.len() <= usize::MAX);
            ""
        },
    }
}

pub open spec fn advice() -> Seq<char> {
    "convert through that function, or put an unchecked constructor beside it so both sit with the layout they depend on"@
}

pub open spec fn message(
    c: ConversionView,
    from: Seq<char>,
    to: Seq<char>,
    how: Means,
) -> Seq<char> {
    let consequence = if c.fallible {
        "`"@ + c.name + "` converts `"@ + c.from.text@ + "` to `"@ + to
            + "` and can refuse a value; this site accepts any bit pattern"@
    } else {
        "`"@ + c.name + "` is how `"@ + c.from.text@ + "` becomes `"@ + to
            + "`; this site goes around it"@
    };
    "`"@ + from + "` is reinterpreted as `"@ + to + "` by "@ + means_text(how) + " here, but "@
        + consequence
}

/// What is said of `e`, which in `owner` turns a value of type `from`, which
/// is `source`'s type with `off` layers taken off, into one of its own type.
pub open spec fn reinterpretation(
    defs: Definitions,
    owner: DefId,
    e: Expr,
    source: Expr,
    off: nat,
    from: Ty,
    how: Means,
) -> Seq<FindingView> {
    let (a, b, k) = peel_pair(from, e.ty, 0);
    match adt_id(b) {
        Some(did) => {
            if e.origin.in_external_macro || ty_eq(a, b) || adt_id(a) == Some(did) || (k > 0
                && !e.pointee_frozen) || own_code(defs, owner, did) {
                Seq::empty()
            } else {
                match skipped(all_conversions(defs, did), a, k == 0) {
                    Some(c) => {
                        let msg = message(
                            c,
                            layer_text(source, (k + off) as nat),
                            layer_text(e, k),
                            how,
                        );
                        if defs.local(c.def) {
                            seq![
                                noted(
                                    Lint::BypassedConversion,
                                    e.span,
                                    msg,
                                    defs.span(c.def),
                                    "the conversion this site skips"@,
                                    advice(),
                                ),
                            ]
                        } else {
                            seq![finding(Lint::BypassedConversion, e.span, msg, advice())]
                        }
                    },
                    None => Seq::empty(),
                }
            }
        },
        None => Seq::empty(),
    }
}

/// What the lint says of an expression in `owner`.
pub open spec fn bypassed(defs: Definitions, owner: DefId, e: Expr) -> Seq<FindingView> {
    match e.kind {
        ExprKind::Call(_, args) => match called_def(e) {
            Some(def) => match transmute_kind(defs, def) {
                Some(how) => if args@.len() != 1 {
                    Seq::empty()
                } else {
                    match args@[0].ty {
                        Ty::Ref(inner, _) => if how == Means::TransmuteCopy {
                            reinterpretation(defs, owner, e, args@[0], 1, *inner, how)
                        } else {
                            reinterpretation(defs, owner, e, args@[0], 0, args@[0].ty, how)
                        },
                        _ => reinterpretation(defs, owner, e, args@[0], 0, args@[0].ty, how),
                    }
                },
                None => Seq::empty(),
            },
            None => Seq::empty(),
        },
        ExprKind::Cast(inner) => if e.ty is RawPtr {
            reinterpretation(defs, owner, e, *inner, 0, inner.ty, Means::PointerCast)
        } else {
            Seq::empty()
        },
        ExprKind::MethodCall(_, recv, args) => match e.method {
            Some(def) => if args@.len() == 0 && (defs.known(def) == Known::PtrCast || defs.known(
                def,
            ) == Known::ConstPtrCast) {
                reinterpretation(defs, owner, e, *recv, 0, recv.ty, Means::PointerCast)
            } else {
                Seq::empty()
            },
            None => Seq::empty(),
        },
        _ => Seq::empty(),
    }
}

fn check_reinterpretation(
    defs: &Definitions,
    owner: DefId,
    e: &Expr,
    source: &Expr,
    off: usize,
    from: &Ty,
    how: Means,
) -> (r: Vec<Finding>)
    ensures
        views(r@) == reinterpretation(*defs, owner, *e, *source, off as nat, *from, how),
{
    let mut out: Vec<Finding> = Vec::new();
    assert(views(out@) =~= Seq::<FindingView>::empty());
    if e.origin.in_external_macro {
        return out;
    }
    let (a, b, k) = peel_pointer_pair(from, &e.ty);
    let by_value = match k {
        Some(n) => n == 0,
        None => false,
    };
    if a.same_as(b) {
        return out;
    }
    let did = match b.adt() {
        Some(d) => d,
        None => {
            return out;
        },
    };
    let itself = match a.adt() {
        Some(d) => d == did,
        None => false,
    };
    // A pointer cast to a type with interior mutability views the pointee in
    // place; a by-value conversion makes a new cell and is no substitute.
    if itself || (!by_value && !e.pointee_frozen) || in_own_code_of(defs, owner, did) {
        return out;
    }
    let conversions = collect_conversions(defs, did);
    let found = match find_conversion(&conversions, a, false) {
        Some(c) => Some(c),
        None => if by_value && a.is_integral() {
            find_conversion(&conversions, a, true)
        } else {
            None
        },
    };
    let conv = match found {
        Some(c) => c,
        None => {
            return out;
        },
    };
    let from_layer = match k {
        Some(n) => n.checked_add(off),
        None => None,
    };
    let from_text = text_of_layer(source, from_layer);
    let to_text = text_of_layer(e, k);
    let mut consequence = String::from_str("`");
    consequence.append(conv.name.as_str());
    if conv.fallible {
        consequence.append("` converts `");
        consequence.append(conv.from.text.as_str());
        consequence.append("` to `");
        consequence.append(to_text);
        consequence.append("` and can refuse a value; this site accepts any bit pattern");
    } else {
        consequence.append("` is how `");
        consequence.append(conv.from.text.as_str());
        consequence.append("` becomes `");
        consequence.append(to_text);
        consequence.append("`; this site goes around it");
    }
    let mut msg = String::from_str("`");
    msg.append(from_text);
    msg.append("` is reinterpreted as `");
    msg.append(to_text);
    msg.append("` by ");
    msg.append(text_of_means(how));
    msg.append(" here, but ");
    msg.append(consequence.as_str());
    let help =
        "convert through that function, or put an unchecked constructor beside it so both sit with the layout they depend on";
    if defs.is_local(conv.def) {
        emit_with_note(
            &mut out,
            Lint::BypassedConversion,
            e.span,
            msg,
            defs.span_of(conv.def),
            "the conversion this site skips",
            help,
        );
    } else {
        emit(&mut out, Lint::BypassedConversion, e.span, msg, help);
    }
    assert(views(out@) =~= reinterpretation(*defs, owner, *e, *source, off as nat, *from, how));
    out
}

/// What the lint says of an expression in `owner`.
pub fn check_expr(defs: &Definitions, owner: DefId, e: &Expr) -> (r: Vec<Finding>)
    ensures
        views(r@) == bypassed(*defs, owner, *e),
{
    let nothing: Vec<Finding> = Vec::new();
    assert(views(nothing@) =~= Seq::<FindingView>::empty());
    match &e.kind {
        ExprKind::Call(_, args) => {
            let how = match callee_of(e) {
                Some(c) => match transmuter(defs, c.def) {
                    Some(h) => h,
                    None => {
                        return nothing;
                    },
                },
                None => {
                    return nothing;
                },
            };
            if args.len() != 1 {
                return nothing;
            }
            let arg = &args[0];
            // `transmute_copy(&src)` reads through the reference.
            match &arg.ty {
                Ty::Ref(inner, _) => if how == Means::TransmuteCopy {
                    check_reinterpretation(defs, owner, e, arg, 1, inner, how)
                } else {
                    check_reinterpretation(defs, owner, e, arg, 0, &arg.ty, how)
                },
                _ => check_reinterpretation(defs, owner, e, arg, 0, &arg.ty, how),
            }
        },
        ExprKind::Cast(inner) => {
            if e.ty.is_raw_ptr() {
                check_reinterpretation(defs, owner, e, inner, 0, &inner.ty, Means::PointerCast)
            } else {
                nothing
            }
        },
        ExprKind::MethodCall(_, recv, args) => {
            let casts = match e.method {
                Some(def) => match defs.known_as(def) {
                    Known::PtrCast | Known::ConstPtrCast => true,
                    _ => false,
                },
                None => false,
            };
            if args.len() == 0 && casts {
                check_reinterpretation(defs, owner, e, recv, 0, &recv.ty, Means::PointerCast)
            } else {
                nothing
            }
        },
        _ => nothing,
    }
}

/// A type nothing converts into has no check to bypass: nothing is said of
/// reinterpreting bits as it.
pub proof fn lemma_no_conversion_no_finding(
    defs: Definitions,
    owner: DefId,
    e: Expr,
    source: Expr,
    off: nat,
    from: Ty,
    how: Means,
)
    requires
        adt_id(peel_pair(from, e.ty, 0).1) matches Some(did) ==> all_conversions(defs, did).len()
            == 0,
    ensures
        reinterpretation(defs, owner, e, source, off, from, how).len() == 0,
{
}

/// A type's own module and impls may reinterpret bits as it: nothing is said
/// there.
pub proof fn lemma_own_code_is_quiet(
    defs: Definitions,
    owner: DefId,
    e: Expr,
    source: Expr,
    off: nat,
    from: Ty,
    how: Means,
    did: DefId,
)
    requires
        adt_id(peel_pair(from, e.ty, 0).1) == Some(did),
        own_code(defs, owner, did),
    ensures
        reinterpretation(defs, owner, e, source, off, from, how).len() == 0,
{
}

proof fn lemma_first_conversion(cs: Seq<ConversionView>, from: Ty, integers: bool, k: int)
    requires
        0 <= k,
    ensures
        first_conversion(cs, from, integers, k) matches Some(c) ==> cs.contains(c) && if integers {
            c.from.ty is Int
        } else {
            ty_eq(c.from.ty, from)
        },
    decreases cs.len() - k,
{
    if k < cs.len() {
        assert(cs.contains(cs[k]));
        lemma_first_conversion(cs, from, integers, k + 1);
    }
}

/// What is held against a site is a conversion that exists: one of the
/// target's own, from the very type the site starts from, or, for an integer
/// taken by value, from an integer.
pub proof fn lemma_skipped_conversion_exists(
    cs: Seq<ConversionView>,
    from: Ty,
    by_value: bool,
)
    ensures
        skipped(cs, from, by_value) matches Some(c) ==> cs.contains(c) && (ty_eq(c.from.ty, from)
            || (by_value && from is Int && c.from.ty is Int)),
{
    lemma_first_conversion(cs, from, false, 0);
    lemma_first_conversion(cs, from, true, 0);
}

/// A function that gives the target gives it bare, or in an `Option` or a
/// `Result`, where it can be refused; any other result gives none.
pub proof fn lemma_result_gives_the_target(
    defs: Definitions,
    output: Ty,
    o: DefId,
    args: Seq<Ty>,
    target: DefId,
)
    requires
        output matches Ty::Adt(d, a) && d == o && a@ == args,
    ensures
        o == target ==> gives_target(defs, output, target) == Some(false),
        o != target && (defs.known(o) == Known::OptionType || defs.known(o) == Known::ResultType)
            && args.len() > 0 && (args[0] matches Ty::Adt(d, _) && d == target) ==> gives_target(
            defs,
            output,
            target,
        ) == Some(true),
        o != target && defs.known(o) != Known::OptionType && defs.known(o) != Known::ResultType
            ==> gives_target(defs, output, target) is None,
        o != target && (args.len() == 0 || !(args[0] matches Ty::Adt(d, _) && d == target))
            ==> gives_target(defs, output, target) is None,
{
}

/// `mem::transmute` is a transmute, and so is `transmute_copy` of the standard
/// library's `mem`; nothing else is.
pub proof fn lemma_transmutes(defs: Definitions, def: DefId, m: DefId)
    ensures
        defs.known(def) == Known::Transmute ==> transmute_kind(defs, def) == Some(Means::Transmute),
        defs.known(def) != Known::Transmute && parent_of(defs, def) == Some(m) && defs.name_text(m)
            == "mem"@ && defs.crate_text(def) == "core"@ && defs.name_text(def)
            == "transmute_copy"@ ==> transmute_kind(defs, def) == Some(Means::TransmuteCopy),
        defs.known(def) != Known::Transmute && (defs.name_text(def) != "transmute_copy"@
            || defs.crate_text(def) != "core"@) ==> transmute_kind(defs, def) is None,
{
}

/// The type points at another: by reference or by raw pointer.
pub open spec fn points_to(t: Ty, inner: Ty) -> bool {
    (t matches Ty::Ref(x, _) && *x == inner) || (t matches Ty::RawPtr(x, _) && *x == inner)
}

/// Two pointers stand for what they point at, whatever kind of pointer each
/// is; where one of the two is no pointer, both stand for themselves.
pub proof fn lemma_pointers_are_peeled(a: Ty, b: Ty, x: Ty, y: Ty, k: nat)
    ensures
        points_to(a, x) && points_to(b, y) ==> peel_pair(a, b, k) == peel_pair(x, y, k + 1),
        !(a is Ref) && !(a is RawPtr) ==> peel_pair(a, b, k) == (a, b, k),
        !(b is Ref) && !(b is RawPtr) ==> peel_pair(a, b, k) == (a, b, k),
{
}

proof fn lemma_trait_conversion_listed(
    defs: Definitions,
    target: DefId,
    imps: Seq<TraitImpl>,
    of: Known,
    method: Seq<char>,
    fallible: bool,
    i: int,
)
    requires
        0 <= i < imps.len(),
        trait_conversion(defs, target, imps[i], of, method, fallible) is Some,
    ensures
        trait_conversions(defs, target, imps, of, method, fallible).contains(
            trait_conversion(defs, target, imps[i], of, method, fallible)->Some_0,
        ),
    decreases imps.len(),
{
    let c = trait_conversion(defs, target, imps[i], of, method, fallible)->Some_0;
    let front = imps.drop_last();
    let before = trait_conversions(defs, target, front, of, method, fallible);
    let all = trait_conversions(defs, target, imps, of, method, fallible);
    if i == imps.len() - 1 {
        assert(all[all.len() - 1] == c);
    } else {
        assert(front[i] == imps[i]);
        lemma_trait_conversion_listed(defs, target, front, of, method, fallible, i);
        let j = choose|j: int| 0 <= j < before.len() && before[j] == c;
        assert(all[j] == c);
    }
}

proof fn lemma_inherent_listed(defs: Definitions, target: DefId, items: Seq<DefId>, i: int)
    requires
        0 <= i < items.len(),
        inherent_conversion(defs, target, items[i]) is Some,
    ensures
        inherent_conversions(defs, target, items).contains(
            inherent_conversion(defs, target, items[i])->Some_0,
        ),
    decreases items.len(),
{
    let c = inherent_conversion(defs, target, items[i])->Some_0;
    let front = items.drop_last();
    let before = inherent_conversions(defs, target, front);
    let all = inherent_conversions(defs, target, items);
    if i == items.len() - 1 {
        assert(all[all.len() - 1] == c);
    } else {
        assert(front[i] == items[i]);
        lemma_inherent_listed(defs, target, front, i);
        let j = choose|j: int| 0 <= j < before.len() && before[j] == c;
        assert(all[j] == c);
    }
}

proof fn lemma_impl_listed(
    defs: Definitions,
    target: DefId,
    imps: Seq<Vec<DefId>>,
    m: int,
    c: ConversionView,
)
    requires
        0 <= m < imps.len(),
        inherent_conversions(defs, target, imps[m]@).contains(c),
    ensures
        impl_conversions(defs, target, imps).contains(c),
    decreases imps.len(),
{
    let front = imps.drop_last();
    let before = impl_conversions(defs, target, front);
    let here = inherent_conversions(defs, target, imps.last()@);
    let all = before + here;
    if m == imps.len() - 1 {
        let j = choose|j: int| 0 <= j < here.len() && here[j] == c;
        assert(all[before.len() + j] == c);
    } else {
        assert(front[m] == imps[m]);
        lemma_impl_listed(defs, target, front, m, c);
        let j = choose|j: int| 0 <= j < before.len() && before[j] == c;
        assert(all[j] == c);
    }
}

/// Something converts such a value into the target: a conversion from it is
/// known, and whether it can refuse.
pub open spec fn converts_from(defs: Definitions, target: DefId, from: Input, fallible: bool) -> bool {
    exists|i: int|
        0 <= i < all_conversions(defs, target).len() && (#[trigger] all_conversions(
            defs,
            target,
        )[i]).from == from && all_conversions(defs, target)[i].fallible == fallible
}

/// Every `From` impl for the target is a conversion into it, and every
/// `TryFrom` impl one that can refuse, unless it starts from the target itself
/// or from anything.
pub proof fn lemma_trait_impl_converts(
    defs: Definitions,
    target: DefId,
    adt: crate::defs::AdtDef,
    i: int,
)
    requires
        defs.adt(target) == Some(adt),
        0 <= i < adt.conversions@.len(),
        adt_id(peeled(adt.conversions@[i].target)) == Some(target),
        adt_id(peeled(adt.conversions@[i].arg.ty)) != Some(target),
        !has_param(adt.conversions@[i].arg.ty),
    ensures
        adt.conversions@[i].of == Known::FromTrait ==> converts_from(
            defs,
            target,
            adt.conversions@[i].arg,
            false,
        ),
        adt.conversions@[i].of == Known::TryFromTrait ==> converts_from(
            defs,
            target,
            adt.conversions@[i].arg,
            true,
        ),
{
    let imps = adt.conversions@;
    let a = trait_conversions(defs, target, imps, Known::FromTrait, "from"@, false);
    let b = trait_conversions(defs, target, imps, Known::TryFromTrait, "try_from"@, true);
    let c = impl_conversions(defs, target, adt.inherent@);
    let all = a + b + c;
    if imps[i].of == Known::FromTrait {
        lemma_trait_conversion_listed(defs, target, imps, Known::FromTrait, "from"@, false, i);
        let x = trait_conversion(
            defs,
            target,
            imps[i],
            Known::FromTrait,
            "from"@,
            false,
        )->Some_0;
        let j = choose|j: int| 0 <= j < a.len() && a[j] == x;
        assert(all[j] == x);
        assert(all_conversions(defs, target)[j].from == imps[i].arg);
    }
    if imps[i].of == Known::TryFromTrait {
        lemma_trait_conversion_listed(
            defs,
            target,
            imps,
            Known::TryFromTrait,
            "try_from"@,
            true,
            i,
        );
        let x = trait_conversion(
            defs,
            target,
            imps[i],
            Known::TryFromTrait,
            "try_from"@,
            true,
        )->Some_0;
        let j = choose|j: int| 0 <= j < b.len() && b[j] == x;
        assert(all[a.len() + j] == x);
        assert(all_conversions(defs, target)[a.len() + j].from == imps[i].arg);
    }
}

/// Every safe associated function that takes one value and gives the target,
/// bare or in an `Option` or a `Result`, is a conversion into it.
pub proof fn lemma_associated_function_converts(
    defs: Definitions,
    target: DefId,
    adt: crate::defs::AdtDef,
    m: int,
    i: int,
    sig: crate::defs::FnSig,
)
    requires
        defs.adt(target) == Some(adt),
        0 <= m < adt.inherent@.len(),
        0 <= i < adt.inherent@[m]@.len(),
        defs.kind(adt.inherent@[m]@[i]) == crate::defs::DefKind::AssocFn,
        defs.sig(adt.inherent@[m]@[i]) == Some(sig),
        !sig.is_method,
        !sig.is_unsafe,
        sig.inputs@.len() == 1,
        adt_id(peeled(sig.inputs@[0].ty)) != Some(target),
        !has_param(sig.inputs@[0].ty),
    ensures
        (sig.output matches Ty::Adt(d, _) && d == target) ==> converts_from(
            defs,
            target,
            sig.inputs@[0],
            false,
        ),
        (sig.output matches Ty::Adt(o, args) && o != target && (defs.known(o) == Known::OptionType
            || defs.known(o) == Known::ResultType) && args@.len() > 0 && (args@[0] matches Ty::Adt(
            d,
            _,
        ) && d == target)) ==> converts_from(defs, target, sig.inputs@[0], true),
{
    let item = adt.inherent@[m]@[i];
    let a = trait_conversions(
        defs,
        target,
        adt.conversions@,
        Known::FromTrait,
        "from"@,
        false,
    );
    let b = trait_conversions(
        defs,
        target,
        adt.conversions@,
        Known::TryFromTrait,
        "try_from"@,
        true,
    );
    let c = impl_conversions(defs, target, adt.inherent@);
    let all = a + b + c;
    match inherent_conversion(defs, target, item) {
        Some(x) => {
            lemma_inherent_listed(defs, target, adt.inherent@[m]@, i);
            lemma_impl_listed(defs, target, adt.inherent@, m, x);
            let j = choose|j: int| 0 <= j < c.len() && c[j] == x;
            assert(all[a.len() + b.len() + j] == x);
            assert(all_conversions(defs, target)[a.len() + b.len() + j].from == sig.inputs@[0]);
        },
        None => {},
    }
}

proof fn lemma_conversion_found(
    cs: Seq<ConversionView>,
    from: Ty,
    integers: bool,
    k: int,
    i: int,
)
    requires
        0 <= k <= i < cs.len(),
        (integers && cs[i].from.ty is Int) || (!integers && ty_eq(cs[i].from.ty, from)),
    ensures
        first_conversion(cs, from, integers, k) is Some,
    decreases cs.len() - k,
{
    if k < i && !((integers && cs[k].from.ty is Int) || (!integers && ty_eq(
        cs[k].from.ty,
        from,
    ))) {
        lemma_conversion_found(cs, from, integers, k + 1, i);
    }
}

/// The expression reads `source`'s value, of type `from`, as one of its own
/// type: by a transmute, by a transmuting copy of what a reference points at,
/// or by casting a pointer.
pub open spec fn reinterprets(defs: Definitions, e: Expr, source: Expr, from: Ty) -> bool {
    match e.kind {
        ExprKind::Call(f, args) => args@.len() == 1 && args@[0] == source && (
        f.kind matches ExprKind::Path(p) && (p.res matches crate::hir::Res::Def(_, d) && ((
        defs.known(d) == Known::Transmute && from == source.ty) || (defs.known(d)
            != Known::Transmute && defs.crate_text(d) == "core"@ && defs.name_text(d)
            == "transmute_copy"@ && (parent_of(defs, d) matches Some(m) && defs.name_text(m)
            == "mem"@) && (source.ty matches Ty::Ref(x, _) && *x == from))))),
        ExprKind::Cast(x) => *x == source && e.ty is RawPtr && from == source.ty,
        ExprKind::MethodCall(_, x, args) => *x == source && args@.len() == 0 && from == source.ty
            && (e.method matches Some(d) && (defs.known(d) == Known::PtrCast || defs.known(d)
            == Known::ConstPtrCast)),
        _ => false,
    }
}

/// A value read as a type that something converts it to is reported, once and
/// at the reinterpretation, outside that type's own code: by value or through
/// pointers, where what the pointer comes to has no cell in it; an integer
/// read by value counts whatever integer the conversion takes.
pub proof fn lemma_skipped_conversion_is_reported(
    defs: Definitions,
    owner: DefId,
    e: Expr,
    source: Expr,
    from: Ty,
    a: Ty,
    did: DefId,
    args: Seq<Ty>,
    k: nat,
    i: int,
)
    requires
        reinterprets(defs, e, source, from),
        !e.origin.in_external_macro,
        ({
            let p = peel_pair(from, e.ty, 0);
            p.0 == a && p.2 == k && (p.1 matches Ty::Adt(d, xs) && d == did && xs@ == args)
        }),
        !(a matches Ty::Adt(d, _) && d == did),
        k > 0 ==> e.pointee_frozen,
        !own_code(defs, owner, did),
        0 <= i < all_conversions(defs, did).len(),
        ty_eq(all_conversions(defs, did)[i].from.ty, a) || (k == 0 && a is Int
            && all_conversions(defs, did)[i].from.ty is Int),
    ensures
        bypassed(defs, owner, e).len() == 1,
        bypassed(defs, owner, e)[0].lint == Lint::BypassedConversion,
        bypassed(defs, owner, e)[0].at == e.span,
{
    let cs = all_conversions(defs, did);
    if ty_eq(cs[i].from.ty, a) {
        lemma_conversion_found(cs, a, false, 0, i);
    } else {
        lemma_conversion_found(cs, a, true, 0, i);
    }
    let b = peel_pair(from, e.ty, 0).1;
    assert(!ty_eq(a, b));
    match e.kind {
        ExprKind::Call(f, xs) => {
            let d = called_def(e)->Some_0;
            lemma_transmutes(defs, d, d);
        },
        _ => {},
    }
}

/// A method, an unsafe function, one of no or several parameters, one that
/// gives something else, and a constant convert nothing; nor does a function
/// that takes the type itself, or whatever it is given.
pub proof fn lemma_what_converts_nothing(
    defs: Definitions,
    target: DefId,
    item: DefId,
    sig: crate::defs::FnSig,
)
    requires
        defs.sig(item) == Some(sig),
    ensures
        sig.is_method || sig.is_unsafe || sig.inputs@.len() != 1 || !defs.is_fn(item)
            ==> inherent_conversion(defs, target, item) is None,
        sig.inputs@.len() == 1 && (adt_id(peeled(sig.inputs@[0].ty)) == Some(target) || has_param(
            sig.inputs@[0].ty,
        )) ==> inherent_conversion(defs, target, item) is None,
        !(sig.output is Adt) ==> inherent_conversion(defs, target, item) is None,
{
}

/// An impl of another trait, or for another type, is no conversion to this
/// one.
pub proof fn lemma_other_impls_convert_nothing(
    defs: Definitions,
    target: DefId,
    imp: TraitImpl,
    of: Known,
    method: Seq<char>,
    fallible: bool,
)
    ensures
        imp.of != of ==> trait_conversion(defs, target, imp, of, method, fallible) is None,
        adt_id(peeled(imp.target)) != Some(target) ==> trait_conversion(
            defs,
            target,
            imp,
            of,
            method,
            fallible,
        ) is None,
        has_param(imp.arg.ty) ==> trait_conversion(defs, target, imp, of, method, fallible) is None,
{
}

} // verus!
