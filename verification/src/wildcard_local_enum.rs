//! A `match` on a small enum of the crate whose catch-all arm absorbs every
//! variant added later. `_ => None`, `_ => false` and the like ask "is it this
//! one shape?", for which absorption is right, and are left alone.

use crate::config::MordantConfig;
use crate::defs::{CtorShape, DefKind, Definitions, VariantDef};
use crate::enum_facts::{is_none_expr, names_none, res_variant, variant_of_res};
use crate::hir::{Arm, Expr, ExprKind, FieldPat, LitKind, MatchSource, Pat, PatKind, QPath, Res};
use crate::hir_shapes::{adjusted_adt, adt_behind, def_of_res, res_def};
use crate::ids::{DefId, HirId, Symbol};
use crate::report::{lemma_views_push, views, Finding, FindingView, Lint};
use crate::table::{behind, concat, is_in};
use crate::text::{
    decimal, ends_with, has_suffix, join, joined, number, rsplit_once, split_last, texts,
};
use crate::ty::{adt_id, peeled, Ty};
use vstd::prelude::*;
use vstd::string::*;

verus! {

pub struct WildcardLocalEnum {
    pub max_variants: usize,
}

/// A path that makes an empty collection.
pub open spec fn makes_empty(path: Seq<char>) -> bool {
    has_suffix(path, "Vec::<T>::new"@) || has_suffix(path, "Vec::new"@) || has_suffix(
        path,
        "String::new"@,
    )
}

/// An answer with no content: `false`, `None`, an empty slice, array or
/// collection, or the early return of one.
pub open spec fn negative_answer(defs: Definitions, e: Expr) -> bool
    decreases e,
{
    match e.kind {
        ExprKind::Lit(l) => l.kind == LitKind::Bool(false),
        ExprKind::Path(_) => names_none(defs, e),
        ExprKind::AddrOf(_, _, inner) => negative_answer(defs, *inner),
        ExprKind::Array(elems) => elems@.len() == 0,
        ExprKind::Call(callee, args) => args@.len() == 0 && match callee.kind {
            ExprKind::Path(p) => res_def(p.res) matches Some(d) && makes_empty(defs.path_text(d)),
            _ => false,
        },
        ExprKind::Ret(value) => match value {
            Some(inner) => negative_answer(defs, *inner),
            None => false,
        },
        _ => false,
    }
}

pub fn is_negative_extractor(defs: &Definitions, body: &Expr) -> (r: bool)
    ensures
        r == negative_answer(*defs, *body),
    decreases body,
{
    match &body.kind {
        ExprKind::Lit(l) => match l.kind {
            LitKind::Bool(b) => !b,
            _ => false,
        },
        ExprKind::Path(_) => is_none_expr(defs, body),
        ExprKind::AddrOf(_, _, inner) => is_negative_extractor(defs, inner),
        ExprKind::Array(elems) => elems.len() == 0,
        ExprKind::Call(callee, args) => args.len() == 0 && match &callee.kind {
            ExprKind::Path(p) => match def_of_res(p.res) {
                Some(d) => {
                    let path = defs.path_of(d);
                    ends_with(path, "Vec::<T>::new") || ends_with(path, "Vec::new") || ends_with(
                        path,
                        "String::new",
                    )
                },
                None => false,
            },
            _ => false,
        },
        ExprKind::Ret(value) => match value {
            Some(inner) => is_negative_extractor(defs, inner),
            None => false,
        },
        _ => false,
    }
}

/// The variants of a struct, enum or union, where none can be added outside
/// this crate.
pub open spec fn settled_variants(defs: Definitions, ty: Ty) -> Option<Seq<VariantDef>> {
    match adt_id(peeled(ty)) {
        Some(d) => match defs.adt(d) {
            Some(a) => if a.non_exhaustive && !defs.local(d) {
                None
            } else {
                Some(a.variants@)
            },
            None => None,
        },
        None => None,
    }
}

/// The type has one variant and no other: every value of it was built by the
/// same constructor.
pub open spec fn one_variant(defs: Definitions, ty: Ty) -> bool {
    settled_variants(defs, ty) matches Some(vs) && vs.len() == 1
}

/// A path names a constructor, not a constant.
pub open spec fn names_ctor(res: Res) -> bool {
    match res {
        Res::Def(kind, _) => kind == DefKind::Variant || kind == DefKind::Ctor(true) || kind
            == DefKind::Ctor(false),
        _ => false,
    }
}

/// The pattern matches whatever value of its type there is.
pub open spec fn irrefutable(defs: Definitions, pat: Pat) -> bool
    decreases pat, 0nat,
{
    match pat.kind {
        PatKind::Wild => true,
        PatKind::Binding(_, _, sub) => match sub {
            Some(p) => irrefutable(defs, *p),
            None => true,
        },
        PatKind::Path(p) => names_ctor(p.res) && one_variant(defs, pat.ty),
        PatKind::TupleStruct(_, parts) => one_variant(defs, pat.ty) && parts_match(defs, parts@),
        PatKind::Struct(_, fields) => one_variant(defs, pat.ty) && fields_match(defs, fields@),
        PatKind::Or(ps) => {
            ||| some_matches(defs, ps@)
            ||| settled_variants(defs, pat.ty) matches Some(vs) && lists_all(defs, ps@, vs)
            ||| lists_bool(ps@, true) && lists_bool(ps@, false)
        },
        PatKind::Ref(p) => irrefutable(defs, *p),
        PatKind::Deref(p) => irrefutable(defs, *p),
        PatKind::BoxOf(p) => irrefutable(defs, *p),
        PatKind::Sequence(parts, fits) => fits && parts_match(defs, parts@),
        _ => false,
    }
}

pub open spec fn parts_match(defs: Definitions, parts: Seq<Pat>) -> bool
    decreases parts, 0nat,
{
    forall|i: int| 0 <= i < parts.len() ==> irrefutable(defs, #[trigger] parts[i])
}

pub open spec fn fields_match(defs: Definitions, fields: Seq<FieldPat>) -> bool
    decreases fields, 0nat,
{
    forall|i: int| 0 <= i < fields.len() ==> irrefutable(defs, (#[trigger] fields[i]).pat)
}

/// Some alternative matches whatever there is.
pub open spec fn some_matches(defs: Definitions, ps: Seq<Pat>) -> bool
    decreases ps, 0nat,
{
    exists|i: int| 0 <= i < ps.len() && irrefutable(defs, #[trigger] ps[i])
}

/// Each variant is taken whole by some alternative.
pub open spec fn lists_all(defs: Definitions, ps: Seq<Pat>, vs: Seq<VariantDef>) -> bool
    decreases ps, 1nat,
{
    forall|k: int| 0 <= k < vs.len() ==> lists(defs, ps, (#[trigger] vs[k]).did)
}

/// Some alternative takes the variant whole.
pub open spec fn lists(defs: Definitions, ps: Seq<Pat>, v: DefId) -> bool
    decreases ps, 0nat,
{
    exists|i: int| 0 <= i < ps.len() && takes(defs, #[trigger] ps[i], v)
}

/// The pattern is a plain head of the variant.
pub open spec fn takes(defs: Definitions, pat: Pat, v: DefId) -> bool
    decreases pat, 1nat,
{
    head_path(defs, pat) matches Some(p) && res_variant(defs, p.res) == Some(v)
}

/// Some alternative is the boolean.
pub open spec fn lists_bool(ps: Seq<Pat>, b: bool) -> bool {
    exists|i: int| 0 <= i < ps.len() && is_bool(#[trigger] ps[i], b)
}

pub open spec fn is_bool(pat: Pat, b: bool) -> bool {
    pat.kind matches PatKind::Lit(l, negated) && l.kind == LitKind::Bool(b)
}

/// The path of a plain head: one whose parts, if it has any, match whatever
/// there is. A head with a part that can fail matches only some values of the
/// variant.
pub open spec fn head_path(defs: Definitions, pat: Pat) -> Option<QPath>
    decreases pat, 0nat,
{
    match pat.kind {
        PatKind::Path(p) => Some(p),
        PatKind::TupleStruct(p, parts) => if parts_match(defs, parts@) {
            Some(p)
        } else {
            None
        },
        PatKind::Struct(p, fields) => if fields_match(defs, fields@) {
            Some(p)
        } else {
            None
        },
        _ => None,
    }
}

fn variants_settled<'a>(defs: &'a Definitions, ty: &Ty) -> (r: Option<&'a Vec<VariantDef>>)
    ensures
        match r {
            Some(vs) => settled_variants(*defs, *ty) == Some(vs@),
            None => settled_variants(*defs, *ty) is None,
        },
{
    match ty.peel_refs().adt() {
        Some(d) => match defs.adt_of(d) {
            Some(a) => if a.non_exhaustive && !defs.is_local(d) {
                None
            } else {
                Some(&a.variants)
            },
            None => None,
        },
        None => None,
    }
}

fn has_one_variant(defs: &Definitions, ty: &Ty) -> (r: bool)
    ensures
        r == one_variant(*defs, *ty),
{
    match variants_settled(defs, ty) {
        Some(vs) => vs.len() == 1,
        None => false,
    }
}

fn cannot_fail(defs: &Definitions, pat: &Pat) -> (r: bool)
    ensures
        r == irrefutable(*defs, *pat),
    decreases pat, 0nat,
{
    match &pat.kind {
        PatKind::Wild => true,
        PatKind::Binding(_, _, sub) => match sub {
            Some(p) => cannot_fail(defs, p),
            None => true,
        },
        PatKind::Path(p) => {
            let ctor = match p.res {
                Res::Def(DefKind::Variant, _) => true,
                Res::Def(DefKind::Ctor(_), _) => true,
                _ => false,
            };
            ctor && has_one_variant(defs, &pat.ty)
        },
        PatKind::TupleStruct(_, parts) => has_one_variant(defs, &pat.ty) && parts_cannot_fail(
            defs,
            parts,
        ),
        PatKind::Struct(_, fields) => has_one_variant(defs, &pat.ty) && fields_cannot_fail(
            defs,
            fields,
        ),
        PatKind::Or(ps) => {
            let listed = match variants_settled(defs, &pat.ty) {
                Some(vs) => all_listed(defs, ps, vs),
                None => false,
            };
            listed || some_cannot_fail(defs, ps) || (bool_listed(ps, true) && bool_listed(
                ps,
                false,
            ))
        },
        PatKind::Ref(p) => cannot_fail(defs, p),
        PatKind::Deref(p) => cannot_fail(defs, p),
        PatKind::BoxOf(p) => cannot_fail(defs, p),
        PatKind::Sequence(parts, fits) => *fits && parts_cannot_fail(defs, parts),
        _ => false,
    }
}

fn parts_cannot_fail(defs: &Definitions, parts: &Vec<Pat>) -> (r: bool)
    ensures
        r == parts_match(*defs, parts@),
    decreases parts, 0nat,
{
    let mut i: usize = 0;
    while i < parts.len()
        invariant
            i <= parts@.len(),
            forall|k: int| 0 <= k < i ==> irrefutable(*defs, #[trigger] parts@[k]),
        decreases parts.len() - i,
    {
        assert(decreases_to!(parts => parts@[i as int]));
        if !cannot_fail(defs, &parts[i]) {
            return false;
        }
        i = i + 1;
    }
    true
}

fn fields_cannot_fail(defs: &Definitions, fields: &Vec<FieldPat>) -> (r: bool)
    ensures
        r == fields_match(*defs, fields@),
    decreases fields, 0nat,
{
    let mut i: usize = 0;
    while i < fields.len()
        invariant
            i <= fields@.len(),
            forall|k: int| 0 <= k < i ==> irrefutable(*defs, (#[trigger] fields@[k]).pat),
        decreases fields.len() - i,
    {
        assert(decreases_to!(fields => fields@[i as int]));
        if !cannot_fail(defs, &fields[i].pat) {
            return false;
        }
        i = i + 1;
    }
    true
}

fn some_cannot_fail(defs: &Definitions, ps: &Vec<Pat>) -> (r: bool)
    ensures
        r == some_matches(*defs, ps@),
    decreases ps, 0nat,
{
    let mut i: usize = 0;
    while i < ps.len()
        invariant
            i <= ps@.len(),
            forall|k: int| 0 <= k < i ==> !irrefutable(*defs, #[trigger] ps@[k]),
        decreases ps.len() - i,
    {
        assert(decreases_to!(ps => ps@[i as int]));
        if cannot_fail(defs, &ps[i]) {
            return true;
        }
        i = i + 1;
    }
    false
}

fn all_listed(defs: &Definitions, ps: &Vec<Pat>, vs: &Vec<VariantDef>) -> (r: bool)
    ensures
        r == lists_all(*defs, ps@, vs@),
    decreases ps, 1nat,
{
    let mut k: usize = 0;
    while k < vs.len()
        invariant
            k <= vs@.len(),
            forall|j: int| 0 <= j < k ==> lists(*defs, ps@, (#[trigger] vs@[j]).did),
        decreases vs.len() - k,
    {
        if !is_listed(defs, ps, vs[k].did) {
            return false;
        }
        k = k + 1;
    }
    true
}

fn is_listed(defs: &Definitions, ps: &Vec<Pat>, v: DefId) -> (r: bool)
    ensures
        r == lists(*defs, ps@, v),
    decreases ps, 0nat,
{
    let mut i: usize = 0;
    while i < ps.len()
        invariant
            i <= ps@.len(),
            forall|k: int| 0 <= k < i ==> !takes(*defs, #[trigger] ps@[k], v),
        decreases ps.len() - i,
    {
        assert(decreases_to!(ps => ps@[i as int]));
        let named = match plain_head(defs, &ps[i]) {
            Some(p) => variant_of_res(defs, p.res),
            None => None,
        };
        if let Some(u) = named {
            if u == v {
                assert(takes(*defs, ps@[i as int], v));
                return true;
            }
        }
        i = i + 1;
    }
    false
}

fn bool_listed(ps: &Vec<Pat>, b: bool) -> (r: bool)
    ensures
        r == lists_bool(ps@, b),
{
    let mut i: usize = 0;
    while i < ps.len()
        invariant
            i <= ps@.len(),
            forall|k: int| 0 <= k < i ==> !is_bool(#[trigger] ps@[k], b),
        decreases ps.len() - i,
    {
        if let PatKind::Lit(l, _) = &ps[i].kind {
            if let LitKind::Bool(c) = l.kind {
                if c == b {
                    assert(is_bool(ps@[i as int], b));
                    return true;
                }
            }
        }
        i = i + 1;
    }
    false
}

fn plain_head<'a>(defs: &Definitions, pat: &'a Pat) -> (r: Option<&'a QPath>)
    ensures
        match r {
            Some(p) => head_path(*defs, *pat) == Some(*p),
            None => head_path(*defs, *pat) is None,
        },
    decreases pat, 0nat,
{
    match &pat.kind {
        PatKind::Path(p) => Some(p),
        PatKind::TupleStruct(p, parts) => if parts_cannot_fail(defs, parts) {
            Some(p)
        } else {
            None
        },
        PatKind::Struct(p, fields) => if fields_cannot_fail(defs, fields) {
            Some(p)
        } else {
            None
        },
        _ => None,
    }
}

/// The variant paths a pattern covers whole, if it is made of nothing else.
pub open spec fn covering(defs: Definitions, pat: Pat) -> Option<Seq<QPath>>
    decreases pat,
{
    match pat.kind {
        PatKind::Or(ps) => covering_all(defs, ps@),
        _ => match head_path(defs, pat) {
            Some(p) => if res_variant(defs, p.res) is Some {
                Some(seq![p])
            } else {
                None
            },
            None => None,
        },
    }
}

pub open spec fn covering_all(defs: Definitions, ps: Seq<Pat>) -> Option<Seq<QPath>>
    decreases ps,
{
    if ps.len() == 0 {
        Some(Seq::empty())
    } else {
        match (covering(defs, ps[0]), covering_all(defs, ps.drop_first())) {
            (Some(a), Some(b)) => Some(a + b),
            _ => None,
        }
    }
}

/// The variant paths the arms cover besides the arm whose pattern is `skip`.
/// A guarded arm covers nothing: its variant reaches the catch-all when the
/// guard fails.
pub open spec fn covering_arms(defs: Definitions, arms: Seq<Arm>, skip: HirId) -> Option<
    Seq<QPath>,
>
    decreases arms.len(),
{
    if arms.len() == 0 {
        Some(Seq::empty())
    } else if arms[0].pat.id == skip || arms[0].guard is Some {
        covering_arms(defs, arms.drop_first(), skip)
    } else {
        match (covering(defs, arms[0].pat), covering_arms(defs, arms.drop_first(), skip)) {
            (Some(a), Some(b)) => Some(a + b),
            _ => None,
        }
    }
}

fn collect_covering<'a>(defs: &Definitions, pat: &'a Pat) -> (r: Option<Vec<&'a QPath>>)
    ensures
        match r {
            Some(v) => covering(*defs, *pat) == Some(behind(v@)),
            None => covering(*defs, *pat) is None,
        },
    decreases pat, 0nat,
{
    let head: Option<&QPath> = match &pat.kind {
        PatKind::Or(ps) => {
            let r = collect_covering_all(defs, ps, 0);
            assert(ps@.skip(0) =~= ps@);
            return r;
        },
        _ => plain_head(defs, pat),
    };
    match head {
        Some(p) => match variant_of_res(defs, p.res) {
            Some(_) => {
                let mut v: Vec<&'a QPath> = Vec::new();
                v.push(p);
                assert(behind(v@) =~= seq![*p]);
                Some(v)
            },
            None => None,
        },
        None => None,
    }
}

fn collect_covering_all<'a>(
    defs: &Definitions,
    ps: &'a Vec<Pat>,
    from: usize,
) -> (r: Option<Vec<&'a QPath>>)
    requires
        from <= ps@.len(),
    ensures
        match r {
            Some(v) => covering_all(*defs, ps@.skip(from as int)) == Some(behind(v@)),
            None => covering_all(*defs, ps@.skip(from as int)) is None,
        },
    decreases ps, ps@.len() - from,
{
    if from == ps.len() {
        let v: Vec<&'a QPath> = Vec::new();
        assert(behind(v@) =~= Seq::empty());
        return Some(v);
    }
    assert(ps@.skip(from as int).drop_first() =~= ps@.skip(from + 1));
    assert(decreases_to!(ps => ps@[from as int]));
    let first = collect_covering(defs, &ps[from]);
    let rest = collect_covering_all(defs, ps, from + 1);
    match (first, rest) {
        (Some(a), Some(b)) => Some(concat(a, b)),
        _ => None,
    }
}

fn collect_covering_arms<'a>(
    defs: &Definitions,
    arms: &'a Vec<Arm>,
    skip: HirId,
    from: usize,
) -> (r: Option<Vec<&'a QPath>>)
    requires
        from <= arms@.len(),
    ensures
        match r {
            Some(v) => covering_arms(*defs, arms@.skip(from as int), skip) == Some(behind(v@)),
            None => covering_arms(*defs, arms@.skip(from as int), skip) is None,
        },
    decreases arms@.len() - from,
{
    if from == arms.len() {
        let v: Vec<&'a QPath> = Vec::new();
        assert(behind(v@) =~= Seq::empty());
        return Some(v);
    }
    assert(arms@.skip(from as int).drop_first() =~= arms@.skip(from + 1));
    let rest = collect_covering_arms(defs, arms, skip, from + 1);
    if arms[from].pat.id == skip || arms[from].guard.is_some() {
        return rest;
    }
    match (collect_covering(defs, &arms[from].pat), rest) {
        (Some(a), Some(b)) => Some(concat(a, b)),
        _ => None,
    }
}

/// The variants some paths name.
pub open spec fn named_variants(defs: Definitions, paths: Seq<QPath>) -> Seq<DefId> {
    paths.map_values(
        |p: QPath|
            match res_variant(defs, p.res) {
                Some(v) => v,
                None => DefId(0),
            },
    )
}

/// The variants not in the list, in order.
pub open spec fn missing(variants: Seq<VariantDef>, covered: Seq<DefId>) -> Seq<VariantDef>
    decreases variants.len(),
{
    if variants.len() == 0 {
        Seq::empty()
    } else {
        let before = missing(variants.drop_last(), covered);
        if covered.contains(variants.last().did) {
            before
        } else {
            before.push(variants.last())
        }
    }
}

/// The prefix a path is written with, up to its last `::`.
pub open spec fn path_prefix(text: Seq<char>) -> Seq<char> {
    match split_last(text, "::"@) {
        Some(p) => p.0 + "::"@,
        None => ""@,
    }
}

/// `Enum::Variant`, `Enum::Variant(..)` or `Enum::Variant { .. }`.
pub open spec fn rendered(defs: Definitions, prefix: Seq<char>, v: VariantDef) -> Seq<char> {
    match v.shape {
        CtorShape::Unit => prefix + defs.text(v.name),
        CtorShape::Call => prefix + defs.text(v.name) + "(..)"@,
        CtorShape::Braces => prefix + defs.text(v.name) + " { .. }"@,
    }
}

pub open spec fn rendered_all(
    defs: Definitions,
    prefix: Seq<char>,
    vs: Seq<VariantDef>,
) -> Seq<Seq<char>> {
    vs.map_values(|v: VariantDef| rendered(defs, prefix, v))
}

/// The pattern the other arms' paths are spelled like, listing what they
/// leave out.
pub open spec fn listing(
    defs: Definitions,
    variants: Seq<VariantDef>,
    paths: Seq<QPath>,
    bound: Option<Symbol>,
) -> Option<Seq<char>> {
    let left = missing(variants, named_variants(defs, paths));
    if left.len() == 0 || paths.len() == 0 {
        None
    } else {
        match paths[0].text {
            Some(text) => {
                let list = joined(rendered_all(defs, path_prefix(text@), left), " | "@);
                Some(
                    match bound {
                        Some(name) => defs.text(name) + " @ ("@ + list + ")"@,
                        None => list,
                    },
                )
            },
            None => None,
        }
    }
}

/// The name a catch-all pattern binds, if any.
pub open spec fn bound_name(pat: Pat) -> Option<Symbol> {
    match pat.kind {
        PatKind::Binding(_, name, None) => Some(name),
        _ => None,
    }
}

/// `_` or a plain binding.
pub open spec fn catches_all(pat: Pat) -> bool {
    match pat.kind {
        PatKind::Wild => true,
        PatKind::Binding(_, _, sub) => sub is None,
        _ => false,
    }
}

/// What replaces a catch-all arm's pattern, when every sibling arm's coverage
/// is provable.
pub open spec fn fix_for(
    defs: Definitions,
    variants: Seq<VariantDef>,
    arms: Seq<Arm>,
    arm: Arm,
) -> Option<Seq<char>> {
    match covering_arms(defs, arms, arm.pat.id) {
        Some(paths) => listing(defs, variants, paths, bound_name(arm.pat)),
        None => None,
    }
}

/// The arm is reported.
pub open spec fn absorbs(defs: Definitions, arm: Arm) -> bool {
    arm.guard is None && catches_all(arm.pat) && !negative_answer(defs, arm.body)
}

pub open spec fn arm_finding(
    defs: Definitions,
    did: DefId,
    variants: Seq<VariantDef>,
    arms: Seq<Arm>,
    arm: Arm,
) -> FindingView {
    FindingView {
        lint: Lint::WildcardLocalEnum,
        at: arm.pat.span,
        message: "this arm absorbs every future variant of `"@ + defs.path_text(did) + "` ("@
            + decimal(variants.len()) + " variants today)"@,
        note: None,
        help: "list the remaining variants; the compiler then flags every new one added"@,
        fix: fix_for(defs, variants, arms, arm),
        node: Some(arm.id),
    }
}

/// What the lint says of the first `k` arms.
pub open spec fn arm_findings(
    defs: Definitions,
    did: DefId,
    variants: Seq<VariantDef>,
    arms: Seq<Arm>,
    k: int,
) -> Seq<FindingView>
    decreases k,
{
    if k <= 0 {
        Seq::empty()
    } else {
        let before = arm_findings(defs, did, variants, arms, k - 1);
        if absorbs(defs, arms[k - 1]) {
            before.push(arm_finding(defs, did, variants, arms, arms[k - 1]))
        } else {
            before
        }
    }
}

/// What the lint says of an expression.
pub open spec fn wildcards(defs: Definitions, max_variants: usize, e: Expr) -> Seq<FindingView> {
    match e.kind {
        ExprKind::Match(scrutinee, arms, source) => match adjusted_adt(*scrutinee) {
            Some(did) => if source == MatchSource::Normal && arms@.len() >= 2 && defs.local_enum(
                did,
            ) && defs.adt(did)->Some_0.variants@.len() <= max_variants {
                arm_findings(
                    defs,
                    did,
                    defs.adt(did)->Some_0.variants@,
                    arms@,
                    arms@.len() as int,
                )
            } else {
                Seq::empty()
            },
            None => Seq::empty(),
        },
        _ => Seq::empty(),
    }
}

fn render_variant(defs: &Definitions, prefix: &str, v: &VariantDef) -> (r: String)
    ensures
        r@ == rendered(*defs, prefix@, *v),
{
    let mut out = String::from_str(prefix);
    out.append(defs.text_of(v.name));
    match v.shape {
        CtorShape::Unit => {},
        CtorShape::Call => {
            out.append("(..)");
        },
        CtorShape::Braces => {
            out.append(" { .. }");
        },
    }
    out
}

fn write_listing(
    defs: &Definitions,
    variants: &Vec<VariantDef>,
    paths: &Vec<&QPath>,
    bound: Option<Symbol>,
) -> (r: Option<String>)
    requires
        forall|i: int|
            0 <= i < paths@.len() ==> res_variant(*defs, (#[trigger] paths@[i]).res) is Some,
    ensures
        match r {
            Some(t) => listing(*defs, variants@, behind(paths@), bound) == Some(t@),
            None => listing(*defs, variants@, behind(paths@), bound) is None,
        },
{
    let ghost covered = named_variants(*defs, behind(paths@));
    let mut ids: Vec<DefId> = Vec::new();
    let mut i: usize = 0;
    while i < paths.len()
        invariant
            i <= paths@.len(),
            covered == named_variants(*defs, behind(paths@)),
            ids@ == covered.take(i as int),
            forall|i: int|
                0 <= i < paths@.len() ==> res_variant(*defs, (#[trigger] paths@[i]).res) is Some,
        decreases paths.len() - i,
    {
        match variant_of_res(defs, paths[i].res) {
            Some(v) => {
                ids.push(v);
            },
            None => {},
        }
        i = i + 1;
        assert(ids@ =~= covered.take(i as int));
    }
    assert(ids@ =~= covered);
    let ghost vs = variants@;
    let mut left: Vec<&VariantDef> = Vec::new();
    let mut j: usize = 0;
    assert(behind(left@) =~= missing(vs.take(0), covered));
    while j < variants.len()
        invariant
            j <= variants@.len(),
            vs == variants@,
            ids@ == covered,
            behind(left@) == missing(vs.take(j as int), covered),
        decreases variants.len() - j,
    {
        assert(vs.take(j + 1).drop_last() =~= vs.take(j as int));
        if !is_in(&ids, &variants[j].did) {
            let ghost before = left@;
            left.push(&variants[j]);
            assert(behind(left@) =~= behind(before).push(vs[j as int]));
        }
        j = j + 1;
    }
    assert(vs.take(j as int) =~= vs);
    assert(behind(left@).len() == left@.len());
    assert(behind(paths@).len() == paths@.len());
    if left.len() == 0 || paths.len() == 0 {
        return None;
    }
    let text = match &paths[0].text {
        Some(t) => t,
        None => {
            return None;
        },
    };
    let prefix = match rsplit_once(text.as_str(), "::") {
        Some(p) => {
            let mut s = p.0;
            s.append("::");
            s
        },
        None => String::from_str(""),
    };
    let ghost want = rendered_all(*defs, prefix@, behind(left@));
    let mut parts: Vec<String> = Vec::new();
    let mut k: usize = 0;
    assert(texts(parts@) =~= want.take(0));
    while k < left.len()
        invariant
            k <= left@.len(),
            want == rendered_all(*defs, prefix@, behind(left@)),
            texts(parts@) == want.take(k as int),
        decreases left.len() - k,
    {
        let ghost before = parts@;
        parts.push(render_variant(defs, prefix.as_str(), left[k]));
        assert(texts(parts@) =~= texts(before).push(want[k as int]));
        k = k + 1;
        assert(texts(parts@) =~= want.take(k as int));
    }
    assert(want.take(k as int) =~= want);
    let list = join(&parts, " | ");
    Some(
        match bound {
            Some(name) => {
                let mut s = String::from_str(defs.text_of(name));
                s.append(" @ (");
                s.append(list.as_str());
                s.append(")");
                s
            },
            None => list,
        },
    )
}

proof fn lemma_covering_resolves(defs: Definitions, pat: Pat)
    ensures
        covering(defs, pat) matches Some(ps) ==> forall|i: int|
            0 <= i < ps.len() ==> res_variant(defs, (#[trigger] ps[i]).res) is Some,
    decreases pat,
{
    match pat.kind {
        PatKind::Or(ps) => lemma_covering_all_resolves(defs, ps@),
        _ => {},
    }
}

proof fn lemma_covering_all_resolves(defs: Definitions, pats: Seq<Pat>)
    ensures
        covering_all(defs, pats) matches Some(ps) ==> forall|i: int|
            0 <= i < ps.len() ==> res_variant(defs, (#[trigger] ps[i]).res) is Some,
    decreases pats,
{
    if pats.len() > 0 {
        lemma_covering_resolves(defs, pats[0]);
        lemma_covering_all_resolves(defs, pats.drop_first());
    }
}

proof fn lemma_covering_arms_resolves(defs: Definitions, arms: Seq<Arm>, skip: HirId)
    ensures
        covering_arms(defs, arms, skip) matches Some(ps) ==> forall|i: int|
            0 <= i < ps.len() ==> res_variant(defs, (#[trigger] ps[i]).res) is Some,
    decreases arms.len(),
{
    if arms.len() > 0 {
        lemma_covering_resolves(defs, arms[0].pat);
        lemma_covering_arms_resolves(defs, arms.drop_first(), skip);
    }
}

/// Listing what is missing leaves no variant out and repeats none: every
/// variant is either covered already or listed, never both.
pub proof fn lemma_missing_completes(variants: Seq<VariantDef>, covered: Seq<DefId>)
    ensures
        forall|v: VariantDef| #[trigger]
            missing(variants, covered).contains(v) <==> variants.contains(v) && !covered.contains(
                v.did,
            ),
    decreases variants.len(),
{
    if variants.len() > 0 {
        let front = variants.drop_last();
        let last = variants.last();
        lemma_missing_completes(front, covered);
        assert forall|v: VariantDef| #[trigger]
            missing(variants, covered).contains(v) <==> variants.contains(v) && !covered.contains(
                v.did,
            ) by {
            let before = missing(front, covered);
            assert(variants =~= front.push(last));
            assert(front.contains(v) ==> variants.contains(v)) by {
                if front.contains(v) {
                    let i = choose|i: int| 0 <= i < front.len() && front[i] == v;
                    assert(variants[i] == v);
                }
            }
            assert(variants.contains(v) ==> front.contains(v) || v == last) by {
                if variants.contains(v) {
                    let i = choose|i: int| 0 <= i < variants.len() && variants[i] == v;
                    if i < front.len() {
                        assert(front[i] == v);
                    }
                }
            }
            assert(variants[variants.len() - 1] == last);
            if !covered.contains(last.did) {
                let all = before.push(last);
                assert(all[all.len() - 1] == last);
                if before.contains(v) {
                    let i = choose|i: int| 0 <= i < before.len() && before[i] == v;
                    assert(all[i] == v);
                }
                if all.contains(v) {
                    let i = choose|i: int| 0 <= i < all.len() && all[i] == v;
                    if i < before.len() {
                        assert(before[i] == v);
                    }
                }
            }
        }
    }
}

/// A guarded arm covers nothing: with it or without it, the other arms leave
/// the same variants to the catch-all.
pub proof fn lemma_guarded_arm_covers_nothing(
    defs: Definitions,
    front: Seq<Arm>,
    guarded: Arm,
    back: Seq<Arm>,
    skip: HirId,
)
    requires
        guarded.guard is Some,
    ensures
        covering_arms(defs, front.push(guarded) + back, skip) == covering_arms(
            defs,
            front + back,
            skip,
        ),
    decreases front.len(),
{
    let all = front.push(guarded) + back;
    if front.len() == 0 {
        assert(all.drop_first() =~= back);
        assert(front + back =~= back);
    } else {
        let rest = front.drop_first();
        lemma_guarded_arm_covers_nothing(defs, rest, guarded, back, skip);
        assert(all.drop_first() =~= rest.push(guarded) + back);
        assert((front + back).drop_first() =~= rest + back);
    }
}

/// A plain variant head, or an or-pattern of those.
pub open spec fn plain(defs: Definitions, pat: Pat) -> bool
    decreases pat,
{
    match pat.kind {
        PatKind::Or(ps) => forall|i: int| 0 <= i < ps@.len() ==> plain(defs, #[trigger] ps@[i]),
        _ => head_path(defs, pat) matches Some(p) && res_variant(defs, p.res) is Some,
    }
}

/// What a pattern covers is known exactly if it is plain.
pub proof fn lemma_covering_iff_plain(defs: Definitions, pat: Pat)
    ensures
        covering(defs, pat) is Some <==> plain(defs, pat),
    decreases pat, 0nat,
{
    match pat.kind {
        PatKind::Or(ps) => lemma_covering_all_iff_plain(defs, ps, 0),
        _ => {},
    }
}

proof fn lemma_covering_all_iff_plain(defs: Definitions, ps: Vec<Pat>, from: int)
    requires
        0 <= from <= ps@.len(),
    ensures
        from == 0 ==> (covering_all(defs, ps@) is Some <==> forall|i: int|
            0 <= i < ps@.len() ==> plain(defs, #[trigger] ps@[i])),
        covering_all(defs, ps@.skip(from)) is Some <==> forall|i: int|
            from <= i < ps@.len() ==> plain(defs, #[trigger] ps@[i]),
    decreases ps, ps@.len() - from,
{
    assert(ps@.skip(0) =~= ps@);
    if from < ps@.len() {
        assert(ps@.skip(from).drop_first() =~= ps@.skip(from + 1));
        assert(decreases_to!(ps => ps@[from]));
        lemma_covering_iff_plain(defs, ps@[from]);
        lemma_covering_all_iff_plain(defs, ps, from + 1);
    }
}

proof fn lemma_unclear_arm(defs: Definitions, arms: Seq<Arm>, skip: HirId, i: int)
    requires
        0 <= i < arms.len(),
        arms[i].pat.id != skip,
        arms[i].guard is None,
        covering(defs, arms[i].pat) is None,
    ensures
        covering_arms(defs, arms, skip) is None,
    decreases arms.len(),
{
    if i > 0 {
        assert(arms.drop_first()[i - 1] == arms[i]);
        lemma_unclear_arm(defs, arms.drop_first(), skip, i - 1);
    }
}

/// A fix is offered only when every sibling arm is a plain variant head or an
/// or-pattern of those: next to anything fancier there is none.
pub proof fn lemma_fancy_sibling_no_fix(
    defs: Definitions,
    variants: Seq<VariantDef>,
    arms: Seq<Arm>,
    arm: Arm,
    i: int,
)
    requires
        0 <= i < arms.len(),
        arms[i].pat.id != arm.pat.id,
        arms[i].guard is None,
        !plain(defs, arms[i].pat),
    ensures
        fix_for(defs, variants, arms, arm) is None,
{
    lemma_covering_iff_plain(defs, arms[i].pat);
    lemma_unclear_arm(defs, arms, arm.pat.id, i);
}

proof fn lemma_clear_arms(defs: Definitions, arms: Seq<Arm>, skip: HirId)
    requires
        forall|i: int|
            0 <= i < arms.len() && (#[trigger] arms[i]).pat.id != skip && arms[i].guard is None
                ==> plain(defs, arms[i].pat),
    ensures
        covering_arms(defs, arms, skip) is Some,
    decreases arms.len(),
{
    if arms.len() > 0 {
        let rest = arms.drop_first();
        assert forall|i: int|
            0 <= i < rest.len() && (#[trigger] rest[i]).pat.id != skip && rest[i].guard
                is None implies plain(defs, rest[i].pat) by {
            assert(rest[i] == arms[i + 1]);
        }
        lemma_clear_arms(defs, rest, skip);
        lemma_covering_iff_plain(defs, arms[0].pat);
    }
}

/// Where every unguarded sibling arm is plain, the paths they name are known,
/// and there is a fix exactly if they name one to copy the spelling from and
/// leave some variant out.
pub proof fn lemma_plain_siblings_get_the_fix(
    defs: Definitions,
    variants: Seq<VariantDef>,
    arms: Seq<Arm>,
    arm: Arm,
)
    requires
        forall|i: int|
            0 <= i < arms.len() && (#[trigger] arms[i]).pat.id != arm.pat.id && arms[i].guard
                is None ==> plain(defs, arms[i].pat),
    ensures
        covering_arms(defs, arms, arm.pat.id) matches Some(paths) && (fix_for(
            defs,
            variants,
            arms,
            arm,
        ) is Some <==> paths.len() > 0 && paths[0].text is Some && exists|v: VariantDef| #[trigger]
            variants.contains(v) && !named_variants(defs, paths).contains(v.did)),
{
    lemma_clear_arms(defs, arms, arm.pat.id);
    let paths = covering_arms(defs, arms, arm.pat.id)->Some_0;
    let covered = named_variants(defs, paths);
    lemma_missing_completes(variants, covered);
    let left = missing(variants, covered);
    if left.len() > 0 {
        assert(left.contains(left[0]));
        assert(variants.contains(left[0]));
    }
    assert forall|v: VariantDef| #[trigger] variants.contains(v) && !covered.contains(
        v.did,
    ) implies left.len() > 0 by {
        assert(left.contains(v));
    }
}

/// An enum of another crate is never reported, and neither is one with more
/// variants than the limit.
pub proof fn lemma_other_enums_are_left_alone(
    defs: Definitions,
    max_variants: usize,
    e: Expr,
    did: DefId,
)
    requires
        e.kind matches ExprKind::Match(scrutinee, _, _) && adjusted_adt(*scrutinee) == Some(did),
        !defs.local(did) || (defs.adt(did) matches Some(a) && a.variants@.len() > max_variants),
    ensures
        wildcards(defs, max_variants, e).len() == 0,
{
}

impl WildcardLocalEnum {
    pub fn new(config: &MordantConfig) -> (r: Self)
        ensures
            r.max_variants == config.wildcard_local_enum_max_variants,
    {
        WildcardLocalEnum { max_variants: config.wildcard_local_enum_max_variants }
    }

    /// What the lint says of an expression.
    pub fn check_expr(&self, defs: &Definitions, e: &Expr) -> (r: Vec<Finding>)
        ensures
            views(r@) == wildcards(*defs, self.max_variants, *e),
    {
        let mut out: Vec<Finding> = Vec::new();
        assert(views(out@) =~= Seq::<FindingView>::empty());
        let (scrutinee, arms) = match &e.kind {
            ExprKind::Match(s, a, MatchSource::Normal) => (s, a),
            _ => {
                return out;
            },
        };
        // A single-arm match is a destructuring, not a dispatch.
        if arms.len() < 2 {
            return out;
        }
        let did = match adt_behind(scrutinee) {
            Some(d) => d,
            None => {
                return out;
            },
        };
        if !defs.local_enum_here(did) {
            return out;
        }
        let variants = match defs.adt_of(did) {
            Some(a) => &a.variants,
            None => {
                return out;
            },
        };
        let n: usize = variants.len();
        if n > self.max_variants {
            return out;
        }
        let mut i: usize = 0;
        while i < arms.len()
            invariant
                i <= arms@.len(),
                n == variants@.len(),
                views(out@) == arm_findings(*defs, did, variants@, arms@, i as int),
            decreases arms.len() - i,
        {
            let arm = &arms[i];
            let (catch_all, bound) = match &arm.pat.kind {
                PatKind::Wild => (true, None),
                PatKind::Binding(_, name, None) => (true, Some(*name)),
                _ => (false, None),
            };
            if arm.guard.is_none() && catch_all && !is_negative_extractor(defs, &arm.body) {
                let paths = collect_covering_arms(defs, arms, arm.pat.id, 0);
                assert(arms@.skip(0) =~= arms@);
                proof {
                    lemma_covering_arms_resolves(*defs, arms@, arm.pat.id);
                }
                let fix = match &paths {
                    Some(ps) => {
                        proof {
                            assert forall|i: int| 0 <= i < ps@.len() implies res_variant(
                                *defs,
                                (#[trigger] ps@[i]).res,
                            ) is Some by {
                                assert(behind(ps@)[i] == *ps@[i]);
                            }
                        }
                        write_listing(defs, variants, ps, bound)
                    },
                    None => None,
                };
                let mut msg = String::from_str("this arm absorbs every future variant of `");
                msg.append(defs.path_of(did));
                msg.append("` (");
                msg.append(number(n as u128).as_str());
                msg.append(" variants today)");
                let f = Finding {
                    lint: Lint::WildcardLocalEnum,
                    at: arm.pat.span,
                    message: msg,
                    note: None,
                    help: String::from_str(
                        "list the remaining variants; the compiler then flags every new one added",
                    ),
                    fix,
                    node: Some(arm.id),
                };
                proof {
                    lemma_views_push(out@, f);
                }
                out.push(f);
            }
            i = i + 1;
        }
        out
    }
}

/// `false`, `None`, an empty array, a new empty `Vec` or `String`, and the
/// same borrowed or returned, answer in the negative; `true`, a value and a
/// call with arguments do not.
pub proof fn lemma_negative_answers(
    defs: Definitions,
    e: Expr,
    inner: Expr,
    callee: Expr,
    d: DefId,
    head: Seq<char>,
)
    ensures
        e.kind matches ExprKind::Lit(l) ==> (negative_answer(defs, e) <==> l.kind == LitKind::Bool(
            false,
        )),
        (e.kind matches ExprKind::Path(p) && crate::enum_facts::names_variant(defs, p.res, d)) ==> (
        negative_answer(defs, e) <==> defs.known(d) == crate::defs::Known::NoneVariant),
        (e.kind matches ExprKind::AddrOf(_, _, x) && *x == inner) || e.kind == ExprKind::Ret(
            Some(Box::new(inner)),
        ) ==> negative_answer(defs, e) == negative_answer(defs, inner),
        e.kind == ExprKind::Ret(None) ==> !negative_answer(defs, e),
        e.kind matches ExprKind::Array(v) ==> (negative_answer(defs, e) <==> v@.len() == 0),
        (e.kind matches ExprKind::Call(f, args) && *f == callee && args@.len() == 0 && (
        callee.kind matches ExprKind::Path(p) && res_def(p.res) == Some(d))) && (defs.path_text(d)
            == head + "Vec::<T>::new"@ || defs.path_text(d) == head + "Vec::new"@
            || defs.path_text(d) == head + "String::new"@) ==> negative_answer(defs, e),
        (e.kind matches ExprKind::Call(_, args) && args@.len() > 0) ==> !negative_answer(defs, e),
        e.kind is MethodCall || e.kind is Block || e.kind is Struct || e.kind is Binary
            ==> !negative_answer(defs, e),
{
    crate::text::lemma_suffix(defs.path_text(d), "Vec::<T>::new"@);
    crate::text::lemma_suffix(defs.path_text(d), "Vec::new"@);
    crate::text::lemma_suffix(defs.path_text(d), "String::new"@);
    match e.kind {
        ExprKind::Path(p) => {
            crate::enum_facts::lemma_variant_named(defs, p.res, d);
        },
        _ => {},
    }
}

/// A type has a settled list of variants unless another crate keeps the right
/// to add to it.
pub proof fn lemma_settled_variants(defs: Definitions, ty: Ty, did: DefId, a: crate::defs::AdtDef)
    requires
        peeled(ty) matches Ty::Adt(d, _) && d == did,
        defs.adt(did) == Some(a),
    ensures
        defs.local(did) || !a.non_exhaustive ==> settled_variants(defs, ty) == Some(a.variants@),
        !defs.local(did) && a.non_exhaustive ==> settled_variants(defs, ty) is None,
        one_variant(defs, ty) <==> a.variants@.len() == 1 && (defs.local(did) || !a.non_exhaustive),
{
}

/// What always matches: `_`, a binding over something that does, a struct or
/// lone variant of parts that do, and a fitting sequence of them.
pub proof fn lemma_always_matches(defs: Definitions, pat: Pat, inner: Pat)
    ensures
        pat.kind is Wild ==> irrefutable(defs, pat),
        (pat.kind matches PatKind::Binding(_, _, sub) && sub is None) ==> irrefutable(defs, pat),
        (pat.kind matches PatKind::Binding(_, _, sub) && sub == Some(Box::new(inner))) || pat.kind
            == PatKind::Ref(Box::new(inner)) || pat.kind == PatKind::Deref(Box::new(inner))
            || pat.kind == PatKind::BoxOf(Box::new(inner)) ==> irrefutable(defs, pat)
            == irrefutable(defs, inner),
        pat.kind is Lit ==> !irrefutable(defs, pat),
        (pat.kind matches PatKind::TupleStruct(_, parts) && irrefutable(defs, pat)) ==> one_variant(
            defs,
            pat.ty,
        ) && forall|i: int|
            0 <= i < pat.kind->TupleStruct_1@.len() ==> irrefutable(
                defs,
                #[trigger] pat.kind->TupleStruct_1@[i],
            ),
        (pat.kind matches PatKind::Sequence(parts, fits) && irrefutable(defs, pat))
            ==> pat.kind->Sequence_1 && forall|i: int|
            0 <= i < pat.kind->Sequence_0@.len() ==> irrefutable(
                defs,
                #[trigger] pat.kind->Sequence_0@[i],
            ),
        (pat.kind matches PatKind::Path(p) && (p.res matches Res::Def(k, _) && (k
            == DefKind::Variant || k == DefKind::Ctor(true) || k == DefKind::Ctor(false))))
            ==> irrefutable(defs, pat) == one_variant(defs, pat.ty),
        (pat.kind matches PatKind::Path(p) && (p.res matches Res::Def(k, _) && (k == DefKind::Const
            || k == DefKind::AssocConst))) ==> !irrefutable(defs, pat),
{
    reveal_with_fuel(irrefutable, 2);
    reveal_with_fuel(parts_match, 2);
}

/// Alternatives always match where one of them does, where they list every
/// variant of a settled type, or where they list both bools.
pub proof fn lemma_alternatives_always_match(defs: Definitions, pat: Pat, ps: Seq<Pat>, i: int, j: int)
    requires
        pat.kind matches PatKind::Or(v) && v@ == ps,
        0 <= i < ps.len(),
        0 <= j < ps.len(),
    ensures
        irrefutable(defs, ps[i]) ==> irrefutable(defs, pat),
        (ps[i].kind matches PatKind::Lit(l, _) && l.kind == LitKind::Bool(true)) && (
        ps[j].kind matches PatKind::Lit(l, _) && l.kind == LitKind::Bool(false)) ==> irrefutable(
            defs,
            pat,
        ),
        (settled_variants(defs, pat.ty) matches Some(vs) && lists_all(defs, ps, vs))
            ==> irrefutable(defs, pat),
        settled_variants(defs, pat.ty) is None && (forall|k: int|
            0 <= k < ps.len() ==> !irrefutable(defs, #[trigger] ps[k]) && !(ps[k].kind is Lit))
            ==> !irrefutable(defs, pat),
{
    assert(is_bool(ps[i], true) || !is_bool(ps[i], true));
    assert(is_bool(ps[j], false) || !is_bool(ps[j], false));
    reveal_with_fuel(irrefutable, 2);
    reveal_with_fuel(some_matches, 2);
    if irrefutable(defs, ps[i]) {
        assert(some_matches(defs, ps));
    }
    if lists_bool(ps, true) {
        let k = choose|k: int| 0 <= k < ps.len() && is_bool(#[trigger] ps[k], true);
        assert(ps[k].kind is Lit);
    }
}

/// A bare name or a `_` catches everything; a name over a pattern, and any
/// other pattern, does not.
pub proof fn lemma_catch_all_arms(pat: Pat)
    ensures
        pat.kind is Wild ==> catches_all(pat),
        pat.kind matches PatKind::Binding(_, _, sub) ==> (catches_all(pat) <==> sub is None),
        !(pat.kind is Wild) && !(pat.kind is Binding) ==> !catches_all(pat),
{
}

proof fn lemma_arm_said(
    defs: Definitions,
    did: DefId,
    variants: Seq<VariantDef>,
    arms: Seq<Arm>,
    k: int,
    i: int,
)
    requires
        0 <= i < k <= arms.len(),
        absorbs(defs, arms[i]),
    ensures
        arm_findings(defs, did, variants, arms, k).contains(
            arm_finding(defs, did, variants, arms, arms[i]),
        ),
    decreases k,
{
    if i < k - 1 {
        lemma_arm_said(defs, did, variants, arms, k - 1, i);
    }
    crate::table::lemma_pushed(
        arm_findings(defs, did, variants, arms, k - 1),
        arm_finding(defs, did, variants, arms, arms[k - 1]),
        arm_finding(defs, did, variants, arms, arms[i]),
    );
}

/// An arm without a guard that catches everything in a `match` on an enum of
/// the crate's own, of no more variants than is asked for, is reported at its
/// pattern, unless it answers in the negative.
pub proof fn lemma_absorbing_arm_is_reported(
    defs: Definitions,
    max_variants: usize,
    e: Expr,
    scrutinee: Expr,
    arms: Seq<Arm>,
    did: DefId,
    i: int,
)
    requires
        e.kind matches ExprKind::Match(x, a, source) && *x == scrutinee && a@ == arms && source
            == MatchSource::Normal,
        adjusted_adt(scrutinee) == Some(did),
        defs.at(did) matches Some(d) && d.is_local && (d.adt matches Some(a) && a.kind
            == crate::defs::AdtKind::Enum && a.variants@.len() <= max_variants),
        arms.len() >= 2,
        0 <= i < arms.len(),
        arms[i].guard is None,
        catches_all(arms[i].pat),
        !negative_answer(defs, arms[i].body),
    ensures
        exists|k: int|
            0 <= k < wildcards(defs, max_variants, e).len() && (#[trigger] wildcards(
                defs,
                max_variants,
                e,
            )[k]).at == arms[i].pat.span && wildcards(defs, max_variants, e)[k].node == Some(
                arms[i].id,
            ) && wildcards(defs, max_variants, e)[k].lint == Lint::WildcardLocalEnum,
{
    let variants = defs.adt(did)->Some_0.variants@;
    lemma_arm_said(defs, did, variants, arms, arms.len() as int, i);
    let f = arm_finding(defs, did, variants, arms, arms[i]);
    let all = wildcards(defs, max_variants, e);
    let k = choose|k: int| 0 <= k < all.len() && all[k] == f;
    assert(all[k].lint == Lint::WildcardLocalEnum);
}

proof fn lemma_arm_is_said(
    defs: Definitions,
    did: DefId,
    variants: Seq<VariantDef>,
    arms: Seq<Arm>,
    k: int,
    f: FindingView,
)
    requires
        0 <= k <= arms.len(),
        arm_findings(defs, did, variants, arms, k).contains(f),
    ensures
        exists|i: int| 0 <= i < k && #[trigger] absorbs(defs, arms[i]) && f.at == arms[i].pat.span,
    decreases k,
{
    if k > 0 {
        let before = arm_findings(defs, did, variants, arms, k - 1);
        let x = arm_finding(defs, did, variants, arms, arms[k - 1]);
        crate::table::lemma_pushed(before, x, f);
        if before.contains(f) {
            lemma_arm_is_said(defs, did, variants, arms, k - 1, f);
            let i = choose|i: int|
                0 <= i < k - 1 && #[trigger] absorbs(defs, arms[i]) && f.at == arms[i].pat.span;
            assert(absorbs(defs, arms[i]));
        } else {
            assert(absorbs(defs, arms[k - 1]));
        }
    }
}

/// Nothing else is: a guard, a pattern that does not catch all, a negative
/// answer, a desugared `match`, one arm alone, a foreign enum and a large one
/// are let be.
pub proof fn lemma_reported_arm_absorbs(
    defs: Definitions,
    max_variants: usize,
    e: Expr,
    f: FindingView,
)
    requires
        wildcards(defs, max_variants, e).contains(f),
    ensures
        e.kind matches ExprKind::Match(x, arms, source) && source == MatchSource::Normal
            && arms@.len() >= 2 && (adjusted_adt(*x) matches Some(d) && defs.local(d) && (defs.adt(
            d,
        ) matches Some(a) && a.variants@.len() <= max_variants)) && exists|i: int|
            0 <= i < arms@.len() && (#[trigger] arms@[i]).guard is None && catches_all(arms@[i].pat)
                && !negative_answer(defs, arms@[i].body) && f.at == arms@[i].pat.span,
{
    match e.kind {
        ExprKind::Match(x, arms, source) => {
            let did = adjusted_adt(*x)->Some_0;
            let variants = defs.adt(did)->Some_0.variants@;
            let n = arms@.len() as int;
            lemma_arm_is_said(defs, did, variants, arms@, n, f);
            let i = choose|i: int|
                0 <= i < n && #[trigger] absorbs(defs, arms@[i]) && f.at == arms@[i].pat.span;
            assert(arms@[i].guard is None);
        },
        _ => {},
    }
}

} // verus!
