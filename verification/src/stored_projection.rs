//! Two fields of one type whose constant values agree one-for-one across every
//! place the type is built: one is a stored projection of the other, so the
//! type admits pairings the constructors never make.
//!
//! It takes one of the two being a variant of an enum of the crate at every
//! site. A field that is also assigned somewhere is skipped: the constructors
//! are then not the only thing deciding it.

use crate::adt_facts::{fixes_layout, has_fixed_repr, has_positional_fields, positional};
use crate::config::MordantConfig;
use crate::defs::{AdtDef, AdtKind, CtorShape, DefKind, Definitions, VariantDef};
use crate::enum_facts::{parent_def, parent_of, res_variant, variant_of_res};
use crate::hir::{Expr, ExprKind, FieldInit, Res, StructTail};
use crate::hir_shapes::{assigned_adt_field, written_adt_field};
use crate::ids::{DefId, Span, Symbol};
use crate::report::{emit, finding, views, Finding, FindingView, Lint};
use crate::table::{
    add_new, by_key, find_key, has_key, is_in, key_at, lemma_by_key, lemma_key_at, lemma_key_at_is,
    sort_by_key, value_at, with_added,
};
use crate::text::{decimal, number, same};
use crate::ty::adt_id;
use vstd::prelude::*;
use vstd::string::*;

verus! {

/// What a field initialiser evaluates to, as far as a name can be put on it.
/// A variant is recorded without its payload: `Some(n)` and `Some(m)` are the
/// same fact.
#[derive(Debug)]
pub enum Val {
    Variant { at: (u32, u32), local: bool },
    NamedConst { at: (u32, u32), local: bool },
    Lit(String),
}

pub enum ValView {
    Variant { at: (u32, u32), local: bool },
    NamedConst { at: (u32, u32), local: bool },
    Lit(Seq<char>),
}

impl View for Val {
    type V = ValView;

    open spec fn view(&self) -> ValView {
        match *self {
            Val::Variant { at, local } => ValView::Variant { at, local },
            Val::NamedConst { at, local } => ValView::NamedConst { at, local },
            Val::Lit(s) => ValView::Lit(s@),
        }
    }
}

/// The value is drawn from a closed set the crate defined. Only a variant of
/// a local enum is: two columns of literals are in bijection whenever the rows
/// of a short table differ, a named constant is its row's own datum, and
/// `Some` and `None` are another crate's names.
pub open spec fn decides(v: ValView) -> bool {
    v matches ValView::Variant { at, local } && local
}

impl Val {
    pub fn decides(&self) -> (r: bool)
        ensures
            r == decides(self@),
    {
        match self {
            Val::Variant { at, local } => *local,
            _ => false,
        }
    }

    pub fn same_as(&self, other: &Val) -> (r: bool)
        ensures
            r == (self@ == other@),
    {
        match (self, other) {
            (Val::Variant { at, local }, Val::Variant { at: b, local: m }) => at.0 == b.0 && at.1
                == b.1 && *local == *m,
            (Val::NamedConst { at, local }, Val::NamedConst { at: b, local: m }) => at.0 == b.0
                && at.1 == b.1 && *local == *m,
            (Val::Lit(a), Val::Lit(b)) => same(a.as_str(), b.as_str()),
            _ => false,
        }
    }
}

/// Values behind references.
pub open spec fn val_views(v: Seq<&Val>) -> Seq<ValView> {
    Seq::new(v.len(), |i: int| v[i]@)
}

/// The shorter of two lengths.
pub open spec fn paired(a: Seq<ValView>, b: Seq<ValView>) -> int {
    if a.len() <= b.len() {
        a.len() as int
    } else {
        b.len() as int
    }
}

/// Each value of one list always stands beside the same value of the other,
/// in both directions.
pub open spec fn one_for_one(a: Seq<ValView>, b: Seq<ValView>) -> bool {
    forall|i: int, j: int|
        #![trigger a[i], a[j]]
        0 <= i < paired(a, b) && 0 <= j < paired(a, b) ==> (a[i] == a[j] <==> b[i] == b[j])
}

/// Do `a` and `b` agree one-for-one?
pub fn bijective(a: &Vec<&Val>, b: &Vec<&Val>) -> (r: bool)
    ensures
        r == one_for_one(val_views(a@), val_views(b@)),
{
    let ghost x = val_views(a@);
    let ghost y = val_views(b@);
    let n: usize = if a.len() <= b.len() {
        a.len()
    } else {
        b.len()
    };
    let mut i: usize = 0;
    while i < n
        invariant
            i <= n,
            n <= a@.len(),
            n <= b@.len(),
            x == val_views(a@),
            y == val_views(b@),
            n == paired(x, y),
            forall|p: int, q: int|
                #![trigger x[p], x[q]]
                0 <= p < i && 0 <= q < p ==> (x[p] == x[q] <==> y[p] == y[q]),
        decreases n - i,
    {
        let mut j: usize = 0;
        while j < i
            invariant
                j <= i,
                i < n,
                n <= a@.len(),
                n <= b@.len(),
                x == val_views(a@),
                y == val_views(b@),
                n == paired(x, y),
                forall|q: int|
                    #![trigger x[q]]
                    0 <= q < j ==> (x[i as int] == x[q] <==> y[i as int] == y[q]),
            decreases i - j,
        {
            assert(x[i as int] == a@[i as int]@ && x[j as int] == a@[j as int]@);
            assert(y[i as int] == b@[i as int]@ && y[j as int] == b@[j as int]@);
            if a[i].same_as(a[j]) != b[i].same_as(b[j]) {
                assert(!one_for_one(x, y)) by {
                    assert(x[i as int] == x[j as int] <==> y[i as int] != y[j as int]);
                }
                return false;
            }
            j = j + 1;
        }
        i = i + 1;
    }
    assert(one_for_one(x, y)) by {
        assert forall|p: int, q: int|
            #![trigger x[p], x[q]]
            0 <= p < paired(x, y) && 0 <= q < paired(x, y) implies (x[p] == x[q] <==> y[p]
            == y[q]) by {
            if q < p {
            } else if p < q {
                assert(x[q] == x[p] <==> y[q] == y[p]);
            }
        }
    }
    true
}

/// Agreeing one-for-one goes both ways.
pub proof fn lemma_one_for_one_symmetric(a: Seq<ValView>, b: Seq<ValView>)
    ensures
        one_for_one(a, b) == one_for_one(b, a),
{
    if one_for_one(a, b) {
        assert forall|i: int, j: int|
            #![trigger b[i], b[j]]
            0 <= i < paired(b, a) && 0 <= j < paired(b, a) implies (b[i] == b[j] <==> a[i]
            == a[j]) by {
            assert(a[i] == a[j] <==> b[i] == b[j]);
        }
    }
    if one_for_one(b, a) {
        assert forall|i: int, j: int|
            #![trigger a[i], a[j]]
            0 <= i < paired(a, b) && 0 <= j < paired(a, b) implies (a[i] == a[j] <==> b[i]
            == b[j]) by {
            assert(b[i] == b[j] <==> a[i] == a[j]);
        }
    }
}

// ---------------------------------------------------------------- classifying

/// The identity of a definition as a value holds it.
pub open spec fn whereabouts(defs: Definitions, d: DefId) -> (u32, u32) {
    (
        match defs.at(d) {
            Some(x) => x.krate.0,
            None => 0,
        },
        d.0,
    )
}

fn place_of(defs: &Definitions, d: DefId) -> (r: (u32, u32))
    ensures
        r == whereabouts(*defs, d),
{
    let krate: u32 = match defs.get(d) {
        Some(x) => x.krate.0,
        None => 0,
    };
    (krate, d.0)
}

pub open spec fn variant_value(defs: Definitions, d: DefId) -> ValView {
    ValView::Variant { at: whereabouts(defs, d), local: defs.local(d) }
}

fn as_variant(defs: &Definitions, d: DefId) -> (r: Val)
    ensures
        r@ == variant_value(*defs, d),
{
    Val::Variant { at: place_of(defs, d), local: defs.is_local(d) }
}

/// An expression without the wrappers that do not change which value it
/// names.
pub open spec fn unwrapped(e: Expr) -> Expr
    decreases e,
{
    match e.kind {
        ExprKind::AddrOf(_, _, inner) => unwrapped(*inner),
        ExprKind::DropTemps(inner) => unwrapped(*inner),
        ExprKind::Block(b) => if !b.labelled && b.stmts@.len() == 0 && b.expr is Some {
            unwrapped(*b.expr->Some_0)
        } else {
            e
        },
        _ => e,
    }
}

fn peel<'a>(e: &'a Expr) -> (r: &'a Expr)
    ensures
        *r == unwrapped(*e),
    decreases e,
{
    match &e.kind {
        ExprKind::AddrOf(_, _, inner) => peel(inner),
        ExprKind::DropTemps(inner) => peel(inner),
        ExprKind::Block(b) => if !b.labelled && b.stmts.len() == 0 {
            match &b.expr {
                Some(x) => peel(x),
                None => e,
            }
        } else {
            e
        },
        _ => e,
    }
}

/// The variant's place in the list, from `k` on.
pub open spec fn variant_place(vs: Seq<VariantDef>, did: DefId, k: int) -> Option<int>
    decreases vs.len() - k,
{
    if k >= vs.len() {
        None
    } else if vs[k].did == did {
        Some(k)
    } else {
        variant_place(vs, did, k + 1)
    }
}

fn find_variant(vs: &Vec<VariantDef>, did: DefId) -> (r: Option<usize>)
    ensures
        match r {
            Some(k) => k < vs@.len() && variant_place(vs@, did, 0) == Some(k as int),
            None => variant_place(vs@, did, 0) is None,
        },
{
    let mut k: usize = 0;
    while k < vs.len()
        invariant
            k <= vs@.len(),
            variant_place(vs@, did, 0) == variant_place(vs@, did, k as int),
        decreases vs.len() - k,
    {
        if vs[k].did == did {
            return Some(k);
        }
        k = k + 1;
    }
    None
}

/// How a variant is constructed.
pub open spec fn shape_of(defs: Definitions, variant: DefId) -> Option<CtorShape> {
    match parent_of(defs, variant) {
        Some(p) => match defs.adt(p) {
            Some(adt) => match variant_place(adt.variants@, variant, 0) {
                Some(k) => Some(adt.variants@[k].shape),
                None => None,
            },
            None => None,
        },
        None => None,
    }
}

fn variant_shape(defs: &Definitions, variant: DefId) -> (r: Option<CtorShape>)
    ensures
        r == shape_of(*defs, variant),
{
    match parent_def(defs, variant) {
        Some(p) => match defs.adt_of(p) {
            Some(adt) => match find_variant(&adt.variants, variant) {
                Some(k) => Some(adt.variants[k].shape),
                None => None,
            },
            None => None,
        },
        None => None,
    }
}

/// The variant a constructor of the given shape builds.
pub open spec fn ctor_value(defs: Definitions, ctor: DefId, shape: CtorShape) -> Option<ValView> {
    match parent_of(defs, ctor) {
        Some(v) => if shape_of(defs, v) == Some(shape) {
            Some(variant_value(defs, v))
        } else {
            None
        },
        None => None,
    }
}

fn value_of_ctor(defs: &Definitions, ctor: DefId, shape: CtorShape) -> (r: Option<Val>)
    ensures
        match r {
            Some(v) => ctor_value(*defs, ctor, shape) == Some(v@),
            None => ctor_value(*defs, ctor, shape) is None,
        },
{
    match parent_def(defs, ctor) {
        Some(v) => match variant_shape(defs, v) {
            Some(s) => if s == shape {
                Some(as_variant(defs, v))
            } else {
                None
            },
            None => None,
        },
        None => None,
    }
}

/// The value an initialiser names.
pub open spec fn named_value(defs: Definitions, e: Expr) -> Option<ValView> {
    let e = unwrapped(e);
    match e.kind {
        ExprKind::Path(p) => match p.res {
            Res::Def(kind, d) => if kind == DefKind::Ctor(true) {
                ctor_value(defs, d, CtorShape::Unit)
            } else if kind == DefKind::Const || kind == DefKind::AssocConst {
                Some(ValView::NamedConst { at: whereabouts(defs, d), local: defs.local(d) })
            } else {
                None
            },
            _ => None,
        },
        ExprKind::Call(f, _) => match f.kind {
            ExprKind::Path(p) => match p.res {
                Res::Def(kind, d) => if kind == DefKind::Ctor(true) {
                    ctor_value(defs, d, CtorShape::Call)
                } else {
                    None
                },
                _ => None,
            },
            _ => None,
        },
        ExprKind::Struct(p, _, _) => match p.res {
            Res::Def(kind, d) => if kind == DefKind::Variant {
                Some(variant_value(defs, d))
            } else {
                None
            },
            _ => None,
        },
        ExprKind::Lit(l) => Some(ValView::Lit(l.text@)),
        _ => None,
    }
}

pub fn classify(defs: &Definitions, e: &Expr) -> (r: Option<Val>)
    ensures
        match r {
            Some(v) => named_value(*defs, *e) == Some(v@),
            None => named_value(*defs, *e) is None,
        },
{
    let e = peel(e);
    match &e.kind {
        ExprKind::Path(p) => match p.res {
            Res::Def(DefKind::Ctor(true), d) => value_of_ctor(defs, d, CtorShape::Unit),
            Res::Def(DefKind::Const, d) => Some(
                Val::NamedConst { at: place_of(defs, d), local: defs.is_local(d) },
            ),
            Res::Def(DefKind::AssocConst, d) => Some(
                Val::NamedConst { at: place_of(defs, d), local: defs.is_local(d) },
            ),
            _ => None,
        },
        ExprKind::Call(f, _) => match &f.kind {
            ExprKind::Path(p) => match p.res {
                Res::Def(DefKind::Ctor(true), d) => value_of_ctor(defs, d, CtorShape::Call),
                _ => None,
            },
            _ => None,
        },
        ExprKind::Struct(p, _, _) => match p.res {
            Res::Def(DefKind::Variant, d) => Some(as_variant(defs, d)),
            _ => None,
        },
        ExprKind::Lit(l) => Some(Val::Lit(String::from_str(l.text.as_str()))),
        _ => None,
    }
}

// ---------------------------------------------------------------- collecting

/// A construction and the values it names for fields.
#[derive(Debug)]
pub struct Site {
    pub variant: DefId,
    pub fields: Vec<(Symbol, Val)>,
}

pub struct SiteView {
    pub variant: DefId,
    pub fields: Seq<(Symbol, ValView)>,
}

pub open spec fn field_views(fields: Seq<(Symbol, Val)>) -> Seq<(Symbol, ValView)> {
    fields.map_values(|f: (Symbol, Val)| (f.0, f.1@))
}

impl View for Site {
    type V = SiteView;

    open spec fn view(&self) -> SiteView {
        SiteView { variant: self.variant, fields: field_views(self.fields@) }
    }
}

#[derive(Debug)]
pub struct StoredProjection {
    pub min_sites: usize,
    pub seen: Vec<Site>,
    /// Fields written by an assignment rather than a literal.
    pub assigned: Vec<(DefId, Symbol)>,
}

#[verifier::ext_equal]
pub struct ProjectionView {
    pub min_sites: usize,
    pub seen: Seq<SiteView>,
    pub assigned: Seq<(DefId, Symbol)>,
}

impl View for StoredProjection {
    type V = ProjectionView;

    open spec fn view(&self) -> ProjectionView {
        ProjectionView {
            min_sites: self.min_sites,
            seen: self.seen@.map_values(|s: Site| s@),
            assigned: self.assigned@,
        }
    }
}

/// The values the first `k` fields of a literal name.
pub open spec fn named_fields(defs: Definitions, fields: Seq<FieldInit>, k: int) -> Seq<
    (Symbol, ValView),
>
    decreases k,
{
    if k <= 0 {
        Seq::empty()
    } else {
        let before = named_fields(defs, fields, k - 1);
        match named_value(defs, fields[k - 1].value) {
            Some(v) => before.push((fields[k - 1].name, v)),
            None => before,
        }
    }
}

/// Which variant of its type a literal builds.
pub open spec fn literal_place(defs: Definitions, adt: AdtDef, res: Res) -> Option<int> {
    if adt.kind == AdtKind::Enum {
        match res_variant(defs, res) {
            Some(v) => variant_place(adt.variants@, v, 0),
            None => None,
        }
    } else if adt.variants@.len() > 0 {
        Some(0)
    } else {
        None
    }
}

fn place_of_literal(defs: &Definitions, adt: &AdtDef, res: Res) -> (r: Option<usize>)
    ensures
        match r {
            Some(k) => k < adt.variants@.len() && literal_place(*defs, *adt, res) == Some(
                k as int,
            ),
            None => literal_place(*defs, *adt, res) is None,
        },
{
    if adt.kind == AdtKind::Enum {
        match variant_of_res(defs, res) {
            Some(v) => find_variant(&adt.variants, v),
            None => None,
        }
    } else if adt.variants.len() > 0 {
        Some(0)
    } else {
        None
    }
}

/// The variant whose construction a literal witnesses. An explicit `repr`
/// means something outside Rust fixes the layout, and a wire record may
/// restate what a sibling implies. A `..base` literal overrides part of a
/// value that exists already.
pub open spec fn witnessed(defs: Definitions, e: Expr) -> Option<DefId> {
    match (e.kind, adt_id(e.ty)) {
        (ExprKind::Struct(p, _, tail), Some(did)) => match defs.adt(did) {
            Some(adt) => match literal_place(defs, adt, p.res) {
                Some(k) => if tail is Nothing && defs.local(did) && !fixes_layout(adt.repr)
                    && !positional(defs, adt.variants@[k].fields@) {
                    Some(adt.variants@[k].did)
                } else {
                    None
                },
                None => None,
            },
            None => None,
        },
        _ => None,
    }
}

fn witness_of(defs: &Definitions, e: &Expr) -> (r: Option<DefId>)
    ensures
        r == witnessed(*defs, *e),
{
    match (&e.kind, e.ty.adt()) {
        (ExprKind::Struct(p, _, tail), Some(did)) => match defs.adt_of(did) {
            Some(adt) => match place_of_literal(defs, adt, p.res) {
                Some(k) => {
                    let whole = match tail {
                        StructTail::Nothing => true,
                        _ => false,
                    };
                    if whole && defs.is_local(did) && !has_fixed_repr(adt)
                        && !has_positional_fields(defs, &adt.variants[k]) {
                        Some(adt.variants[k].did)
                    } else {
                        None
                    }
                },
                None => None,
            },
            None => None,
        },
        _ => None,
    }
}

/// What is known once a place has been assigned.
pub open spec fn after_assignment(
    defs: Definitions,
    s: ProjectionView,
    target: Expr,
) -> ProjectionView {
    match written_adt_field(target) {
        Some((did, name)) => match defs.adt(did) {
            Some(adt) => if adt.kind == AdtKind::Struct && defs.local(did) && adt.variants@.len()
                > 0 {
                ProjectionView {
                    assigned: with_added(s.assigned, (adt.variants@[0].did, name)),
                    ..s
                }
            } else {
                s
            },
            None => s,
        },
        None => s,
    }
}

/// What is known once an expression has been visited.
pub open spec fn after_expr(defs: Definitions, s: ProjectionView, e: Expr) -> ProjectionView {
    match e.kind {
        ExprKind::Assign(target, _) => after_assignment(defs, s, *target),
        ExprKind::AssignOp(target, _) => after_assignment(defs, s, *target),
        ExprKind::Struct(_, fields, _) => match witnessed(defs, e) {
            Some(variant) => ProjectionView {
                seen: s.seen.push(
                    SiteView {
                        variant,
                        fields: named_fields(defs, fields@, fields@.len() as int),
                    },
                ),
                ..s
            },
            None => s,
        },
        _ => s,
    }
}

// ---------------------------------------------------------------- concluding

/// The sites that build the variant.
pub open spec fn sites_of(seen: Seq<SiteView>, variant: DefId) -> Seq<SiteView>
    decreases seen.len(),
{
    if seen.len() == 0 {
        Seq::empty()
    } else {
        let before = sites_of(seen.drop_last(), variant);
        if seen.last().variant == variant {
            before.push(seen.last())
        } else {
            before
        }
    }
}

/// Every site names a value for the field.
pub open spec fn named_everywhere(sites: Seq<SiteView>, field: Symbol) -> bool {
    forall|i: int| 0 <= i < sites.len() ==> has_key((#[trigger] sites[i]).fields, field)
}

/// The fields every site names and nothing assigns, of the first `k` of the
/// first site, each with its number.
pub open spec fn common_fields(
    sites: Seq<SiteView>,
    assigned: Seq<(DefId, Symbol)>,
    variant: DefId,
    k: int,
) -> Seq<(u64, Symbol)>
    decreases k,
{
    if k <= 0 {
        Seq::empty()
    } else {
        let before = common_fields(sites, assigned, variant, k - 1);
        let name = sites[0].fields[k - 1].0;
        if named_everywhere(sites, name) && !assigned.contains((variant, name)) {
            before.push((name.0 as u64, name))
        } else {
            before
        }
    }
}

/// The values the sites give the field.
pub open spec fn column(sites: Seq<SiteView>, field: Symbol) -> Seq<ValView> {
    Seq::new(sites.len(), |i: int| value_at(sites[i].fields, field)->Some_0)
}

pub open spec fn all_decide(vals: Seq<ValView>) -> bool {
    forall|i: int| 0 <= i < vals.len() ==> decides(#[trigger] vals[i])
}

/// There are at least two distinct values: one is a constant, not a
/// correspondence.
pub open spec fn varies(vals: Seq<ValView>) -> bool {
    exists|i: int| 0 <= i < vals.len() && #[trigger] vals[i] != vals[0]
}

/// One column is a projection of the other.
pub open spec fn projects(a: Seq<ValView>, b: Seq<ValView>) -> bool {
    (all_decide(a) || all_decide(b)) && varies(a) && varies(b) && one_for_one(a, b)
}

pub open spec fn pair_finding(
    defs: Definitions,
    variant: DefId,
    a: Symbol,
    b: Symbol,
    sites: nat,
) -> FindingView {
    finding(
        Lint::StoredProjection,
        defs.span(variant),
        "`"@ + defs.text(a) + "` and `"@ + defs.text(b) + "` of `"@ + defs.path_text(variant)
            + "` agree one-for-one across all "@ + decimal(sites)
            + " places it is constructed, so one is a stored projection of the other"@,
        "give the deciding field a method returning the other and drop the stored copy, so a pairing the constructors never make cannot be written"@,
    )
}

/// What is said of field `i` and the fields behind it up to `k`.
pub open spec fn pairs_with(
    defs: Definitions,
    variant: DefId,
    sites: Seq<SiteView>,
    fields: Seq<(u64, Symbol)>,
    i: int,
    k: int,
) -> Seq<FindingView>
    decreases k - i,
{
    if k <= i + 1 {
        Seq::empty()
    } else {
        let before = pairs_with(defs, variant, sites, fields, i, k - 1);
        let a = fields[i].1;
        let b = fields[k - 1].1;
        if projects(column(sites, a), column(sites, b)) {
            before.push(pair_finding(defs, variant, a, b, sites.len()))
        } else {
            before
        }
    }
}

/// What is said of the first `k` fields and those behind them.
pub open spec fn pair_findings(
    defs: Definitions,
    variant: DefId,
    sites: Seq<SiteView>,
    fields: Seq<(u64, Symbol)>,
    k: int,
) -> Seq<FindingView>
    decreases k,
{
    if k <= 0 {
        Seq::empty()
    } else {
        pair_findings(defs, variant, sites, fields, k - 1) + pairs_with(
            defs,
            variant,
            sites,
            fields,
            k - 1,
            fields.len() as int,
        )
    }
}

/// What is said of a variant.
pub open spec fn variant_findings(
    defs: Definitions,
    s: ProjectionView,
    variant: DefId,
) -> Seq<FindingView> {
    let sites = sites_of(s.seen, variant);
    if sites.len() < s.min_sites || sites.len() == 0 {
        Seq::empty()
    } else {
        let fields = by_key(
            common_fields(sites, s.assigned, variant, sites[0].fields.len() as int),
        );
        pair_findings(defs, variant, sites, fields, fields.len() as int)
    }
}

/// The variants the first `k` sites build, each once.
pub open spec fn built(seen: Seq<SiteView>, k: int) -> Seq<DefId>
    decreases k,
{
    if k <= 0 {
        Seq::empty()
    } else {
        with_added(built(seen, k - 1), seen[k - 1].variant)
    }
}

/// Where a span starts and ends, as one number.
pub open spec fn span_key(s: Span) -> u64 {
    (s.lo * 0x1_0000_0000 + s.hi) as u64
}

pub open spec fn with_places(defs: Definitions, ids: Seq<DefId>) -> Seq<(u64, DefId)> {
    ids.map_values(|d: DefId| (span_key(defs.span(d)), d))
}

pub open spec fn all_findings(
    defs: Definitions,
    s: ProjectionView,
    variants: Seq<(u64, DefId)>,
    k: int,
) -> Seq<FindingView>
    decreases k,
{
    if k <= 0 {
        Seq::empty()
    } else {
        all_findings(defs, s, variants, k - 1) + variant_findings(defs, s, variants[k - 1].1)
    }
}

/// What the lint says of the crate, type by type in source order.
pub open spec fn projection_findings(defs: Definitions, s: ProjectionView) -> Seq<FindingView> {
    let variants = by_key(with_places(defs, built(s.seen, s.seen.len() as int)));
    all_findings(defs, s, variants, variants.len() as int)
}

// ---------------------------------------------------------------- running it

pub open spec fn site_views(v: Seq<&Site>) -> Seq<SiteView> {
    Seq::new(v.len(), |i: int| v[i]@)
}

proof fn lemma_key_kept(fields: Seq<(Symbol, Val)>, name: Symbol)
    ensures
        key_at(field_views(fields), name) == key_at(fields, name),
        field_views(fields).len() == fields.len(),
{
    lemma_key_at(fields, name);
    let i = key_at(fields, name);
    let v = field_views(fields);
    assert forall|j: int| 0 <= j < i implies (#[trigger] v[j]).0 != name by {
        assert(fields[j].0 != name);
    }
    lemma_key_at_is(v, name, i);
}

fn value_in<'a>(site: &'a Site, field: Symbol) -> (r: Option<&'a Val>)
    ensures
        match r {
            Some(v) => value_at(site@.fields, field) == Some(v@) && has_key(site@.fields, field),
            None => !has_key(site@.fields, field),
        },
{
    proof {
        lemma_key_kept(site.fields@, field);
    }
    match find_key(&site.fields, &field) {
        Some(i) => {
            assert(site@.fields[i as int] == (site.fields@[i as int].0, site.fields@[i as int].1@));
            Some(&site.fields[i].1)
        },
        None => None,
    }
}

fn is_named_everywhere(sites: &Vec<&Site>, field: Symbol) -> (r: bool)
    ensures
        r == named_everywhere(site_views(sites@), field),
{
    let ghost v = site_views(sites@);
    let mut i: usize = 0;
    while i < sites.len()
        invariant
            i <= sites@.len(),
            v == site_views(sites@),
            forall|j: int| 0 <= j < i ==> has_key((#[trigger] v[j]).fields, field),
        decreases sites.len() - i,
    {
        assert(v[i as int] == sites@[i as int]@);
        if value_in(sites[i], field).is_none() {
            assert(!has_key(v[i as int].fields, field));
            return false;
        }
        i = i + 1;
    }
    true
}

fn collect_column<'a>(sites: &Vec<&'a Site>, field: Symbol) -> (r: Vec<&'a Val>)
    requires
        named_everywhere(site_views(sites@), field),
    ensures
        val_views(r@) == column(site_views(sites@), field),
{
    let ghost v = site_views(sites@);
    let ghost want = column(v, field);
    let mut out: Vec<&'a Val> = Vec::new();
    let mut i: usize = 0;
    while i < sites.len()
        invariant
            i <= sites@.len(),
            v == site_views(sites@),
            want == column(v, field),
            named_everywhere(v, field),
            val_views(out@) == want.take(i as int),
        decreases sites.len() - i,
    {
        assert(v[i as int] == sites@[i as int]@);
        assert(has_key(v[i as int].fields, field));
        match value_in(sites[i], field) {
            Some(x) => {
                let ghost before = out@;
                out.push(x);
                assert(val_views(out@) =~= val_views(before).push(want[i as int]));
            },
            None => {},
        }
        i = i + 1;
        assert(val_views(out@) =~= want.take(i as int));
    }
    assert(val_views(out@) =~= want);
    out
}

fn do_all_decide(vals: &Vec<&Val>) -> (r: bool)
    ensures
        r == all_decide(val_views(vals@)),
{
    let ghost v = val_views(vals@);
    let mut i: usize = 0;
    while i < vals.len()
        invariant
            i <= vals@.len(),
            v == val_views(vals@),
            forall|j: int| 0 <= j < i ==> decides(#[trigger] v[j]),
        decreases vals.len() - i,
    {
        assert(v[i as int] == vals@[i as int]@);
        if !vals[i].decides() {
            assert(!decides(v[i as int]));
            return false;
        }
        i = i + 1;
    }
    true
}

fn do_vary(vals: &Vec<&Val>) -> (r: bool)
    ensures
        r == varies(val_views(vals@)),
{
    let ghost v = val_views(vals@);
    let mut i: usize = 0;
    while i < vals.len()
        invariant
            i <= vals@.len(),
            v == val_views(vals@),
            forall|j: int| 0 <= j < i ==> #[trigger] v[j] == v[0],
        decreases vals.len() - i,
    {
        assert(v[i as int] == vals@[i as int]@);
        assert(v[0] == vals@[0]@);
        if !vals[i].same_as(vals[0]) {
            assert(v[i as int] != v[0]);
            return true;
        }
        i = i + 1;
    }
    false
}

/// Every field of the list is named by every site.
spec fn fields_named(sites: Seq<SiteView>, fields: Seq<(u64, Symbol)>) -> bool {
    forall|i: int| 0 <= i < fields.len() ==> named_everywhere(sites, (#[trigger] fields[i]).1)
}

proof fn lemma_common_named(
    sites: Seq<SiteView>,
    assigned: Seq<(DefId, Symbol)>,
    variant: DefId,
    k: int,
)
    ensures
        fields_named(sites, common_fields(sites, assigned, variant, k)),
    decreases k,
{
    if k > 0 {
        lemma_common_named(sites, assigned, variant, k - 1);
    }
}

proof fn lemma_sorted_named(sites: Seq<SiteView>, fields: Seq<(u64, Symbol)>)
    requires
        fields_named(sites, fields),
    ensures
        fields_named(sites, by_key(fields)),
    decreases fields.len(),
{
    if fields.len() > 0 {
        let front = fields.drop_last();
        assert(fields_named(sites, front)) by {
            assert forall|i: int| 0 <= i < front.len() implies named_everywhere(
                sites,
                (#[trigger] front[i]).1,
            ) by {
                assert(fields[i] == front[i]);
            }
        }
        lemma_sorted_named(sites, front);
        let rest = by_key(front);
        crate::table::lemma_key_slot(rest, fields.last().0);
        let at = crate::table::key_slot(rest, fields.last().0);
        let all = by_key(fields);
        assert forall|i: int| 0 <= i < all.len() implies named_everywhere(
            sites,
            (#[trigger] all[i]).1,
        ) by {
            if i < at {
                assert(all[i] == rest[i]);
            } else if i > at {
                assert(all[i] == rest[i - 1]);
            } else {
                assert(all[i] == fields[fields.len() - 1]);
            }
        }
    }
}

impl StoredProjection {
    pub fn new(config: &MordantConfig) -> (r: Self)
        ensures
            r@ == (ProjectionView {
                min_sites: if config.stored_projection_min_sites < 2 {
                    2
                } else {
                    config.stored_projection_min_sites
                },
                seen: Seq::empty(),
                assigned: Seq::empty(),
            }),
    {
        // One site cannot exhibit a correspondence and two is the least that
        // can.
        let min_sites: usize = if config.stored_projection_min_sites < 2 {
            2
        } else {
            config.stored_projection_min_sites
        };
        let r = StoredProjection { min_sites, seen: Vec::new(), assigned: Vec::new() };
        assert(r@.seen =~= Seq::<SiteView>::empty());
        r
    }

    fn note_assignment(&mut self, defs: &Definitions, target: &Expr)
        ensures
            final(self)@ == after_assignment(*defs, old(self)@, *target),
    {
        let ghost before = self@;
        match assigned_adt_field(target) {
            Some((did, name)) => match defs.adt_of(did) {
                Some(adt) => {
                    if adt.kind == AdtKind::Struct && defs.is_local(did) && adt.variants.len() > 0 {
                        add_new(&mut self.assigned, (adt.variants[0].did, name));
                        assert(self@ =~= after_assignment(*defs, before, *target));
                    }
                },
                None => {},
            },
            None => {},
        }
    }

    /// Visits an expression.
    pub fn check_expr(&mut self, defs: &Definitions, e: &Expr)
        ensures
            final(self)@ == after_expr(*defs, old(self)@, *e),
    {
        let ghost before = self@;
        match &e.kind {
            ExprKind::Assign(target, _) => self.note_assignment(defs, target),
            ExprKind::AssignOp(target, _) => self.note_assignment(defs, target),
            ExprKind::Struct(_, fields, _) => {
                match witness_of(defs, e) {
                    Some(variant) => {
                        let mut vals: Vec<(Symbol, Val)> = Vec::new();
                        let mut i: usize = 0;
                        assert(field_views(vals@) =~= Seq::<(Symbol, ValView)>::empty());
                        while i < fields.len()
                            invariant
                                i <= fields@.len(),
                                field_views(vals@) == named_fields(*defs, fields@, i as int),
                            decreases fields.len() - i,
                        {
                            match classify(defs, &fields[i].value) {
                                Some(v) => {
                                    let ghost was = vals@;
                                    let ghost seen = v@;
                                    vals.push((fields[i].name, v));
                                    assert(field_views(vals@) =~= field_views(was).push(
                                        (fields@[i as int].name, seen),
                                    ));
                                },
                                None => {},
                            }
                            i = i + 1;
                        }
                        let site = Site { variant, fields: vals };
                        let ghost added = site@;
                        self.seen.push(site);
                        assert(self@.seen =~= before.seen.push(added));
                        assert(self@ =~= after_expr(*defs, before, *e));
                    },
                    None => {},
                }
            },
            _ => {},
        }
    }

    fn sites_for<'a>(&'a self, variant: DefId) -> (r: Vec<&'a Site>)
        ensures
            site_views(r@) == sites_of(self@.seen, variant),
    {
        let ghost seen = self@.seen;
        let mut out: Vec<&'a Site> = Vec::new();
        let mut i: usize = 0;
        assert(site_views(out@) =~= sites_of(seen.take(0), variant));
        while i < self.seen.len()
            invariant
                i <= self.seen@.len(),
                seen == self@.seen,
                site_views(out@) == sites_of(seen.take(i as int), variant),
            decreases self.seen.len() - i,
        {
            assert(seen.take(i + 1).drop_last() =~= seen.take(i as int));
            assert(seen[i as int] == self.seen@[i as int]@);
            if self.seen[i].variant == variant {
                let ghost before = out@;
                out.push(&self.seen[i]);
                assert(site_views(out@) =~= site_views(before).push(seen[i as int]));
            }
            i = i + 1;
        }
        assert(seen.take(i as int) =~= seen);
        out
    }

    fn fields_in_common(&self, sites: &Vec<&Site>, variant: DefId) -> (r: Vec<(u64, Symbol)>)
        requires
            sites@.len() > 0,
        ensures
            r@ == by_key(
                common_fields(
                    site_views(sites@),
                    self@.assigned,
                    variant,
                    site_views(sites@)[0].fields.len() as int,
                ),
            ),
            fields_named(site_views(sites@), r@),
    {
        let ghost v = site_views(sites@);
        let first = sites[0];
        let mut out: Vec<(u64, Symbol)> = Vec::new();
        let mut k: usize = 0;
        assert(v[0] == first@);
        while k < first.fields.len()
            invariant
                k <= first.fields@.len(),
                v == site_views(sites@),
                v[0] == first@,
                out@ == common_fields(v, self@.assigned, variant, k as int),
            decreases first.fields.len() - k,
        {
            let name = first.fields[k].0;
            assert(v[0].fields[k as int].0 == name);
            if is_named_everywhere(sites, name) && !is_in(&self.assigned, &(variant, name)) {
                out.push((name.0 as u64, name));
            }
            k = k + 1;
        }
        proof {
            assert(v[0].fields.len() == first.fields@.len());
            lemma_common_named(v, self@.assigned, variant, k as int);
            lemma_sorted_named(v, out@);
        }
        sort_by_key(&out)
    }

    fn add_variant(&self, defs: &Definitions, variant: DefId, out: &mut Vec<Finding>)
        ensures
            views(final(out)@) == views(old(out)@) + variant_findings(*defs, self@, variant),
    {
        let sites = self.sites_for(variant);
        let ghost v = site_views(sites@);
        let ghost start = views(out@);
        assert(start + Seq::<FindingView>::empty() =~= start);
        assert(v.len() == sites@.len());
        if sites.len() < self.min_sites || sites.len() == 0 {
            return;
        }
        let fields = self.fields_in_common(&sites, variant);
        let mut i: usize = 0;
        assert(views(out@) =~= start + pair_findings(*defs, variant, v, fields@, 0));
        while i < fields.len()
            invariant
                i <= fields@.len(),
                v == site_views(sites@),
                fields_named(v, fields@),
                views(out@) == start + pair_findings(*defs, variant, v, fields@, i as int),
            decreases fields.len() - i,
        {
            let a = fields[i].1;
            assert(named_everywhere(v, fields@[i as int].1));
            let va = collect_column(&sites, a);
            let ghost before = views(out@);
            let mut k: usize = i + 1;
            assert(views(out@) =~= before + pairs_with(
                *defs,
                variant,
                v,
                fields@,
                i as int,
                k as int,
            ));
            while k < fields.len()
                invariant
                    i < k <= fields@.len(),
                    v == site_views(sites@),
                    fields_named(v, fields@),
                    a == fields@[i as int].1,
                    val_views(va@) == column(v, a),
                    views(out@) == before + pairs_with(
                        *defs,
                        variant,
                        v,
                        fields@,
                        i as int,
                        k as int,
                    ),
                decreases fields.len() - k,
            {
                let b = fields[k].1;
                assert(named_everywhere(v, fields@[k as int].1));
                let vb = collect_column(&sites, b);
                if (do_all_decide(&va) || do_all_decide(&vb)) && do_vary(&va) && do_vary(&vb)
                    && bijective(&va, &vb) {
                    let mut msg = String::from_str("`");
                    msg.append(defs.text_of(a));
                    msg.append("` and `");
                    msg.append(defs.text_of(b));
                    msg.append("` of `");
                    msg.append(defs.path_of(variant));
                    msg.append("` agree one-for-one across all ");
                    msg.append(number(sites.len() as u128).as_str());
                    msg.append(
                        " places it is constructed, so one is a stored projection of the other",
                    );
                    assert(v.len() == sites@.len());
                    emit(
                        out,
                        Lint::StoredProjection,
                        defs.span_of(variant),
                        msg,
                        "give the deciding field a method returning the other and drop the stored copy, so a pairing the constructors never make cannot be written",
                    );
                }
                k = k + 1;
                assert(views(out@) =~= before + pairs_with(
                    *defs,
                    variant,
                    v,
                    fields@,
                    i as int,
                    k as int,
                ));
            }
            i = i + 1;
            assert(views(out@) =~= start + pair_findings(*defs, variant, v, fields@, i as int));
        }
    }

    /// What the lint says of the crate.
    pub fn check_crate_post(&self, defs: &Definitions) -> (r: Vec<Finding>)
        ensures
            views(r@) == projection_findings(*defs, self@),
    {
        let ghost seen = self@.seen;
        let mut ids: Vec<DefId> = Vec::new();
        let mut i: usize = 0;
        while i < self.seen.len()
            invariant
                i <= self.seen@.len(),
                seen == self@.seen,
                ids@ == built(seen, i as int),
            decreases self.seen.len() - i,
        {
            assert(seen[i as int] == self.seen@[i as int]@);
            add_new(&mut ids, self.seen[i].variant);
            i = i + 1;
        }
        let ghost want = with_places(*defs, ids@);
        let mut places: Vec<(u64, DefId)> = Vec::new();
        let mut j: usize = 0;
        while j < ids.len()
            invariant
                j <= ids@.len(),
                want == with_places(*defs, ids@),
                places@ == want.take(j as int),
            decreases ids.len() - j,
        {
            let span = defs.span_of(ids[j]);
            let key: u64 = span.lo as u64 * 0x1_0000_0000 + span.hi as u64;
            places.push((key, ids[j]));
            j = j + 1;
            assert(places@ =~= want.take(j as int));
        }
        assert(places@ =~= want);
        let variants = sort_by_key(&places);
        let mut out: Vec<Finding> = Vec::new();
        let mut k: usize = 0;
        assert(views(out@) =~= Seq::<FindingView>::empty());
        while k < variants.len()
            invariant
                k <= variants@.len(),
                views(out@) == all_findings(*defs, self@, variants@, k as int),
            decreases variants.len() - k,
        {
            self.add_variant(defs, variants[k].1, &mut out);
            k = k + 1;
        }
        out
    }
}

/// Two fields of a variant one of which is a stored projection of the other:
/// every construction names both, nothing assigns either afterwards, and their
/// values agree one-for-one.
pub open spec fn stored_pair(
    s: ProjectionView,
    variant: DefId,
    a: Symbol,
    b: Symbol,
) -> bool {
    let sites = sites_of(s.seen, variant);
    &&& named_everywhere(sites, a) && named_everywhere(sites, b)
    &&& !s.assigned.contains((variant, a)) && !s.assigned.contains((variant, b))
    &&& projects(column(sites, a), column(sites, b))
}

proof fn lemma_common_field(
    sites: Seq<SiteView>,
    assigned: Seq<(DefId, Symbol)>,
    variant: DefId,
    k: int,
    x: (u64, Symbol),
)
    requires
        common_fields(sites, assigned, variant, k).contains(x),
    ensures
        named_everywhere(sites, x.1),
        !assigned.contains((variant, x.1)),
    decreases k,
{
    if k > 0 {
        let all = common_fields(sites, assigned, variant, k);
        let before = common_fields(sites, assigned, variant, k - 1);
        let i = choose|i: int| 0 <= i < all.len() && all[i] == x;
        if i < before.len() {
            assert(before[i] == x);
            assert(before.contains(x));
            lemma_common_field(sites, assigned, variant, k - 1, x);
        }
    }
}

proof fn lemma_pair_with(
    defs: Definitions,
    variant: DefId,
    sites: Seq<SiteView>,
    fields: Seq<(u64, Symbol)>,
    i: int,
    k: int,
    f: FindingView,
) -> (j: int)
    requires
        0 <= i,
        k <= fields.len(),
        pairs_with(defs, variant, sites, fields, i, k).contains(f),
    ensures
        i < j < k,
        f == pair_finding(defs, variant, fields[i].1, fields[j].1, sites.len()),
        projects(column(sites, fields[i].1), column(sites, fields[j].1)),
    decreases k - i,
{
    let all = pairs_with(defs, variant, sites, fields, i, k);
    let before = pairs_with(defs, variant, sites, fields, i, k - 1);
    let at = choose|at: int| 0 <= at < all.len() && all[at] == f;
    if at < before.len() {
        assert(before[at] == f);
        assert(before.contains(f));
        lemma_pair_with(defs, variant, sites, fields, i, k - 1, f)
    } else {
        k - 1
    }
}

proof fn lemma_pair(
    defs: Definitions,
    variant: DefId,
    sites: Seq<SiteView>,
    fields: Seq<(u64, Symbol)>,
    k: int,
    f: FindingView,
) -> (p: (int, int))
    requires
        k <= fields.len(),
        pair_findings(defs, variant, sites, fields, k).contains(f),
    ensures
        0 <= p.0 < p.1 < fields.len(),
        f == pair_finding(defs, variant, fields[p.0].1, fields[p.1].1, sites.len()),
        projects(column(sites, fields[p.0].1), column(sites, fields[p.1].1)),
    decreases k,
{
    let before = pair_findings(defs, variant, sites, fields, k - 1);
    let here = pairs_with(defs, variant, sites, fields, k - 1, fields.len() as int);
    let all = before + here;
    let at = choose|at: int| 0 <= at < all.len() && all[at] == f;
    if at < before.len() {
        assert(before[at] == f);
        assert(before.contains(f));
        lemma_pair(defs, variant, sites, fields, k - 1, f)
    } else {
        assert(here[at - before.len()] == f);
        assert(here.contains(f));
        let j = lemma_pair_with(defs, variant, sites, fields, k - 1, fields.len() as int, f);
        (k - 1, j)
    }
}

/// Every finding is about two fields that all construction sites name, that
/// nothing assigns, and whose values agree one-for-one at every site.
pub proof fn lemma_reported_pair_agrees_everywhere(
    defs: Definitions,
    s: ProjectionView,
    variant: DefId,
    f: FindingView,
)
    requires
        variant_findings(defs, s, variant).contains(f),
    ensures
        exists|a: Symbol, b: Symbol| #[trigger]
            stored_pair(s, variant, a, b) && f == pair_finding(
                defs,
                variant,
                a,
                b,
                sites_of(s.seen, variant).len(),
            ),
{
    let sites = sites_of(s.seen, variant);
    let common = common_fields(sites, s.assigned, variant, sites[0].fields.len() as int);
    let fields = by_key(common);
    let p = lemma_pair(defs, variant, sites, fields, fields.len() as int, f);
    lemma_by_key(common);
    assert(fields.contains(fields[p.0]) && fields.contains(fields[p.1]));
    assert(common.contains(fields[p.0]) && common.contains(fields[p.1]));
    lemma_common_field(
        sites,
        s.assigned,
        variant,
        sites[0].fields.len() as int,
        fields[p.0],
    );
    lemma_common_field(
        sites,
        s.assigned,
        variant,
        sites[0].fields.len() as int,
        fields[p.1],
    );
    assert(stored_pair(s, variant, fields[p.0].1, fields[p.1].1));
}

/// A borrow, and a block that is only its tail, name what is inside.
pub proof fn lemma_wrapping_names_nothing(defs: Definitions, e: Expr, inner: Expr)
    ensures
        (e.kind matches ExprKind::AddrOf(_, _, x) && *x == inner) || (e.kind matches ExprKind::Block(
            b,
        ) && !b.labelled && b.stmts@.len() == 0 && b.expr == Some(Box::new(inner)))
            ==> named_value(defs, e) == named_value(defs, inner),
        (e.kind matches ExprKind::Block(b) && b.stmts@.len() > 0) || e.kind is MethodCall || e.kind
            is Field || e.kind is Binary || e.kind is Index ==> named_value(defs, e) is None,
        (e.kind matches ExprKind::Path(p) && p.res is Local) ==> named_value(defs, e) is None,
{
}

/// Literals are told apart by their text, constants and variants by what they
/// are; a literal is never a constant nor a variant.
pub proof fn lemma_named_values(defs: Definitions, e: Expr, d: DefId)
    ensures
        e.kind matches ExprKind::Lit(l) ==> named_value(defs, e) == Some(ValView::Lit(l.text@)),
        (e.kind matches ExprKind::Path(p) && (p.res == Res::Def(DefKind::Const, d) || p.res
            == Res::Def(DefKind::AssocConst, d))) ==> named_value(defs, e) == Some(
            ValView::NamedConst { at: whereabouts(defs, d), local: defs.local(d) },
        ),
        (e.kind matches ExprKind::Struct(p, _, _) && p.res == Res::Def(DefKind::Variant, d))
            ==> named_value(defs, e) == Some(
            ValView::Variant { at: whereabouts(defs, d), local: defs.local(d) },
        ),
        (e.kind matches ExprKind::Path(p) && (p.res matches Res::Def(k, _) && k
            == DefKind::Function)) ==> named_value(defs, e) is None,
{
}

/// Naming a unit variant, or calling a variant's constructor, names the
/// variant.
pub proof fn lemma_constructor_names_its_variant(
    defs: Definitions,
    e: Expr,
    ctor: DefId,
    v: DefId,
    adt: DefId,
    a: AdtDef,
    k: int,
)
    requires
        parent_of(defs, ctor) == Some(v),
        parent_of(defs, v) == Some(adt),
        defs.adt(adt) == Some(a),
        0 <= k < a.variants@.len(),
        a.variants@[k].did == v,
        forall|i: int| 0 <= i < k ==> (#[trigger] a.variants@[i]).did != v,
    ensures
        (e.kind matches ExprKind::Path(p) && p.res == Res::Def(DefKind::Ctor(true), ctor))
            && a.variants@[k].shape == CtorShape::Unit ==> named_value(defs, e) == Some(
            ValView::Variant { at: whereabouts(defs, v), local: defs.local(v) },
        ),
        (e.kind matches ExprKind::Call(f, _) && (f.kind matches ExprKind::Path(p) && p.res
            == Res::Def(DefKind::Ctor(true), ctor))) && a.variants@[k].shape == CtorShape::Call
            ==> named_value(defs, e) == Some(
            ValView::Variant { at: whereabouts(defs, v), local: defs.local(v) },
        ),
        (e.kind matches ExprKind::Path(p) && p.res == Res::Def(DefKind::Ctor(true), ctor))
            && a.variants@[k].shape == CtorShape::Call ==> named_value(defs, e) is None,
{
    lemma_variant_place(a.variants@, v, 0, k);
}

proof fn lemma_variant_place(vs: Seq<VariantDef>, did: DefId, from: int, k: int)
    requires
        0 <= from <= k < vs.len(),
        vs[k].did == did,
        forall|i: int| 0 <= i < k ==> (#[trigger] vs[i]).did != did,
    ensures
        variant_place(vs, did, from) == Some(k),
    decreases k - from,
{
    if from < k {
        assert(vs[from].did != did);
        lemma_variant_place(vs, did, from + 1, k);
    }
}

proof fn lemma_field_named_at(defs: Definitions, fields: Seq<FieldInit>, k: int, i: int)
    requires
        0 <= i < k <= fields.len(),
        named_value(defs, fields[i].value) is Some,
    ensures
        named_fields(defs, fields, k).contains(
            (fields[i].name, named_value(defs, fields[i].value)->Some_0),
        ),
    decreases k,
{
    if i < k - 1 {
        lemma_field_named_at(defs, fields, k - 1, i);
    }
    match named_value(defs, fields[k - 1].value) {
        Some(v) => {
            crate::table::lemma_pushed(
                named_fields(defs, fields, k - 1),
                (fields[k - 1].name, v),
                (fields[i].name, named_value(defs, fields[i].value)->Some_0),
            );
        },
        None => {},
    }
}

/// A struct literal of the crate's own type that gives every field itself is a
/// construction site, with what its fields are named values of; one that takes
/// the rest from another value is none, nor is one of a fixed layout.
pub proof fn lemma_literal_is_a_site(
    defs: Definitions,
    s: ProjectionView,
    e: Expr,
    did: DefId,
    a: AdtDef,
    i: int,
)
    requires
        e.kind is Struct,
        e.ty matches crate::ty::Ty::Adt(d, _) && d == did,
        defs.adt(did) == Some(a),
        a.kind == AdtKind::Struct,
        a.variants@.len() > 0,
        !positional(defs, a.variants@[0].fields@),
        0 <= i < e.kind->Struct_1@.len(),
        named_value(defs, e.kind->Struct_1@[i].value) is Some,
    ensures
        e.kind->Struct_2 is Nothing && defs.local(did) && !(a.repr.c || a.repr.packed
            || a.repr.transparent || a.repr.simd || a.repr.int) ==> ({
            let t = after_expr(defs, s, e);
            &&& t.seen.len() == s.seen.len() + 1
            &&& t.seen.last().variant == a.variants@[0].did
            &&& t.seen.last().fields.contains(
                (
                    e.kind->Struct_1@[i].name,
                    named_value(defs, e.kind->Struct_1@[i].value)->Some_0,
                ),
            )
        }),
        !(e.kind->Struct_2 is Nothing) || !defs.local(did) || a.repr.c || a.repr.packed
            || a.repr.transparent || a.repr.simd || a.repr.int ==> after_expr(defs, s, e) == s,
{
    let fields = e.kind->Struct_1@;
    lemma_field_named_at(defs, fields, fields.len() as int, i);
    crate::adt_facts::lemma_any_repr_fixes_layout(a.repr);
}

/// A field of a struct of the crate's own that is assigned stands for nothing
/// its construction says.
pub proof fn lemma_assigned_field_is_recorded(
    defs: Definitions,
    s: ProjectionView,
    e: Expr,
    place: Expr,
    base: Expr,
    name: Symbol,
    did: DefId,
    a: AdtDef,
)
    requires
        (e.kind matches ExprKind::Assign(t, _) && *t == place) || (e.kind matches ExprKind::AssignOp(
            t,
            _,
        ) && *t == place),
        place.kind == ExprKind::Field(Box::new(base), name),
        crate::hir_shapes::adjusted_adt(base) == Some(did),
        defs.adt(did) == Some(a),
        a.kind == AdtKind::Struct,
        defs.local(did),
        a.variants@.len() > 0,
    ensures
        after_expr(defs, s, e).assigned.contains((a.variants@[0].did, name)),
        after_expr(defs, s, e).seen == s.seen,
{
    crate::hir_shapes::lemma_write_reaches_the_field(place, place, base, name);
    crate::table::lemma_added(s.assigned, (a.variants@[0].did, name));
}

proof fn lemma_common_listed(
    sites: Seq<SiteView>,
    assigned: Seq<(DefId, Symbol)>,
    variant: DefId,
    k: int,
    i: int,
)
    requires
        0 <= i < k <= sites[0].fields.len(),
        named_everywhere(sites, sites[0].fields[i].0),
        !assigned.contains((variant, sites[0].fields[i].0)),
    ensures
        common_fields(sites, assigned, variant, k).contains(
            (sites[0].fields[i].0.0 as u64, sites[0].fields[i].0),
        ),
    decreases k,
{
    if i < k - 1 {
        lemma_common_listed(sites, assigned, variant, k - 1, i);
    }
    let name = sites[0].fields[k - 1].0;
    crate::table::lemma_pushed(
        common_fields(sites, assigned, variant, k - 1),
        (name.0 as u64, name),
        (sites[0].fields[i].0.0 as u64, sites[0].fields[i].0),
    );
}

proof fn lemma_pair_said(
    defs: Definitions,
    variant: DefId,
    sites: Seq<SiteView>,
    fields: Seq<(u64, Symbol)>,
    i: int,
    k: int,
    j: int,
)
    requires
        0 <= i < j < k <= fields.len(),
        projects(column(sites, fields[i].1), column(sites, fields[j].1)),
    ensures
        pairs_with(defs, variant, sites, fields, i, k).contains(
            pair_finding(defs, variant, fields[i].1, fields[j].1, sites.len()),
        ),
    decreases k - i,
{
    let x = pair_finding(defs, variant, fields[i].1, fields[j].1, sites.len());
    if j < k - 1 {
        lemma_pair_said(defs, variant, sites, fields, i, k - 1, j);
    }
    crate::table::lemma_pushed(
        pairs_with(defs, variant, sites, fields, i, k - 1),
        pair_finding(defs, variant, fields[i].1, fields[k - 1].1, sites.len()),
        x,
    );
}

proof fn lemma_pairs_said(
    defs: Definitions,
    variant: DefId,
    sites: Seq<SiteView>,
    fields: Seq<(u64, Symbol)>,
    k: int,
    i: int,
    x: FindingView,
)
    requires
        0 <= i < k <= fields.len(),
        pairs_with(defs, variant, sites, fields, i, fields.len() as int).contains(x),
    ensures
        pair_findings(defs, variant, sites, fields, k).contains(x),
    decreases k,
{
    if i < k - 1 {
        lemma_pairs_said(defs, variant, sites, fields, k - 1, i, x);
    }
    crate::table::lemma_either(
        pair_findings(defs, variant, sites, fields, k - 1),
        pairs_with(defs, variant, sites, fields, k - 1, fields.len() as int),
        x,
    );
}

/// At every construction the two fields are named values, and two
/// constructions agree in the one exactly where they agree in the other.
pub open spec fn agree(sites: Seq<SiteView>, a: Symbol, b: Symbol) -> bool {
    forall|i: int, j: int|
        #![trigger sites[i], sites[j]]
        0 <= i < sites.len() && 0 <= j < sites.len() ==> (value_at(sites[i].fields, a) == value_at(
            sites[j].fields,
            a,
        ) <==> value_at(sites[i].fields, b) == value_at(sites[j].fields, b))
}

proof fn lemma_projection(sites: Seq<SiteView>, a: Symbol, b: Symbol, p: int, q: int)
    requires
        0 <= p < sites.len(),
        0 <= q < sites.len(),
        named_everywhere(sites, a),
        named_everywhere(sites, b),
        agree(sites, a, b),
        value_at(sites[p].fields, a) != value_at(sites[q].fields, a),
        forall|i: int|
            0 <= i < sites.len() ==> (value_at((#[trigger] sites[i]).fields, a) matches Some(v)
                && decides(v)),
    ensures
        projects(column(sites, a), column(sites, b)),
        projects(column(sites, b), column(sites, a)),
{
    let x = column(sites, a);
    let y = column(sites, b);
    assert forall|i: int| 0 <= i < sites.len() implies value_at((#[trigger] sites[i]).fields, a)
        == Some(x[i]) && value_at(sites[i].fields, b) == Some(y[i]) by {
        assert(has_key(sites[i].fields, a) && has_key(sites[i].fields, b));
    }
    assert(all_decide(x)) by {
        assert forall|i: int| 0 <= i < x.len() implies decides(#[trigger] x[i]) by {
            assert(value_at(sites[i].fields, a) == Some(x[i]));
        }
    }
    assert forall|i: int, j: int|
        #![trigger x[i], x[j]]
        0 <= i < x.len() && 0 <= j < x.len() implies (x[i] == x[j] <==> y[i] == y[j]) by {
        assert(value_at(sites[i].fields, a) == Some(x[i]));
        assert(value_at(sites[j].fields, a) == Some(x[j]));
        assert(value_at(sites[i].fields, b) == Some(y[i]));
        assert(value_at(sites[j].fields, b) == Some(y[j]));
    }
    assert(one_for_one(x, y));
    lemma_one_for_one_symmetric(x, y);
    assert(value_at(sites[p].fields, a) == Some(x[p]));
    assert(value_at(sites[q].fields, a) == Some(x[q]));
    assert(x[p] != x[q]);
    assert(varies(x)) by {
        if x[p] == x[0] {
            assert(x[q] != x[0]);
        }
    }
    assert(varies(y)) by {
        let m = if x[p] != x[0] {
            p
        } else {
            q
        };
        assert(x[m] != x[0]);
        assert(y[m] != y[0]);
    }
}

/// Two fields that every construction of a variant names, that nothing
/// assigns, and that agree one-for-one, where the one takes two variants of the
/// crate's own at least, are reported at the variant's declaration, once there
/// are as many constructions as are asked for.
pub proof fn lemma_stored_projection_is_reported(
    defs: Definitions,
    s: ProjectionView,
    variant: DefId,
    i: int,
    j: int,
    p: int,
    q: int,
)
    requires
        ({
            let sites = sites_of(s.seen, variant);
            let a = sites[0].fields[i].0;
            let b = sites[0].fields[j].0;
            &&& sites.len() >= s.min_sites
            &&& 0 <= p < sites.len()
            &&& 0 <= q < sites.len()
            &&& 0 <= i < sites[0].fields.len()
            &&& 0 <= j < sites[0].fields.len()
            &&& a != b
            &&& !s.assigned.contains((variant, a))
            &&& !s.assigned.contains((variant, b))
            &&& named_everywhere(sites, a)
            &&& named_everywhere(sites, b)
            &&& agree(sites, a, b)
            &&& value_at(sites[p].fields, a) != value_at(sites[q].fields, a)
            &&& forall|m: int|
                0 <= m < sites.len() ==> (value_at((#[trigger] sites[m]).fields, a) matches Some(v)
                    && (v matches ValView::Variant { at, local } && local))
        }),
    ensures
        exists|m: int|
            0 <= m < variant_findings(defs, s, variant).len() && (#[trigger] variant_findings(
                defs,
                s,
                variant,
            )[m]).at == defs.span(variant) && variant_findings(defs, s, variant)[m].lint
                == Lint::StoredProjection,
{
    let sites = sites_of(s.seen, variant);
    let a = sites[0].fields[i].0;
    let b = sites[0].fields[j].0;
    let n = sites[0].fields.len() as int;
    lemma_projection(sites, a, b, p, q);
    let common = common_fields(sites, s.assigned, variant, n);
    lemma_common_listed(sites, s.assigned, variant, n, i);
    lemma_common_listed(sites, s.assigned, variant, n, j);
    lemma_by_key(common);
    let fields = by_key(common);
    assert(common.contains((a.0 as u64, a)) && common.contains((b.0 as u64, b)));
    assert(fields.contains((a.0 as u64, a)) && fields.contains((b.0 as u64, b)));
    let x = choose|x: int| 0 <= x < fields.len() && fields[x] == (a.0 as u64, a);
    let y = choose|y: int| 0 <= y < fields.len() && fields[y] == (b.0 as u64, b);
    let lo = if x < y {
        x
    } else {
        y
    };
    let hi = if x < y {
        y
    } else {
        x
    };
    lemma_pair_said(defs, variant, sites, fields, lo, fields.len() as int, hi);
    let f = pair_finding(defs, variant, fields[lo].1, fields[hi].1, sites.len());
    lemma_pairs_said(defs, variant, sites, fields, fields.len() as int, lo, f);
    let all = variant_findings(defs, s, variant);
    let m = choose|m: int| 0 <= m < all.len() && all[m] == f;
    assert(all[m].lint == Lint::StoredProjection);
}

proof fn lemma_built(seen: Seq<SiteView>, k: int, i: int)
    requires
        0 <= i < k <= seen.len(),
    ensures
        built(seen, k).contains(seen[i].variant),
    decreases k,
{
    crate::table::lemma_added(built(seen, k - 1), seen[k - 1].variant);
    if i < k - 1 {
        lemma_built(seen, k - 1, i);
    }
}

proof fn lemma_variant_said(
    defs: Definitions,
    s: ProjectionView,
    variants: Seq<(u64, DefId)>,
    k: int,
    i: int,
    f: FindingView,
)
    requires
        0 <= i < k <= variants.len(),
        variant_findings(defs, s, variants[i].1).contains(f),
    ensures
        all_findings(defs, s, variants, k).contains(f),
    decreases k,
{
    if i < k - 1 {
        lemma_variant_said(defs, s, variants, k - 1, i, f);
    }
    crate::table::lemma_either(
        all_findings(defs, s, variants, k - 1),
        variant_findings(defs, s, variants[k - 1].1),
        f,
    );
}

/// What is said of any variant that is constructed is said of the crate.
pub proof fn lemma_every_variant_is_told(
    defs: Definitions,
    s: ProjectionView,
    i: int,
    f: FindingView,
)
    requires
        0 <= i < s.seen.len(),
        variant_findings(defs, s, s.seen[i].variant).contains(f),
    ensures
        projection_findings(defs, s).contains(f),
{
    let n = s.seen.len() as int;
    let ids = built(s.seen, n);
    lemma_built(s.seen, n, i);
    let d = s.seen[i].variant;
    let places = with_places(defs, ids);
    let m = choose|m: int| 0 <= m < ids.len() && ids[m] == d;
    assert(places[m] == (span_key(defs.span(d)), d));
    assert(places.contains((span_key(defs.span(d)), d)));
    lemma_by_key(places);
    let variants = by_key(places);
    assert(variants.contains((span_key(defs.span(d)), d)));
    let k = choose|k: int| 0 <= k < variants.len() && variants[k].1 == d;
    lemma_variant_said(defs, s, variants, variants.len() as int, k, f);
}

/// Two columns project only if one of them takes variants of the crate's own
/// throughout, and both take more than one value.
pub proof fn lemma_projection_needs_a_decider(a: Seq<ValView>, b: Seq<ValView>)
    requires
        projects(a, b),
    ensures
        (forall|i: int|
            0 <= i < a.len() ==> (#[trigger] a[i] matches ValView::Variant { at, local } && local))
            || (forall|i: int|
            0 <= i < b.len() ==> (#[trigger] b[i] matches ValView::Variant { at, local } && local)),
        exists|i: int| 0 <= i < a.len() && #[trigger] a[i] != a[0],
        exists|i: int| 0 <= i < b.len() && #[trigger] b[i] != b[0],
{
    if all_decide(a) {
        assert forall|i: int| 0 <= i < a.len() implies (
        #[trigger] a[i] matches ValView::Variant { at, local } && local) by {
            assert(decides(a[i]));
        }
    } else {
        assert forall|i: int| 0 <= i < b.len() implies (
        #[trigger] b[i] matches ValView::Variant { at, local } && local) by {
            assert(decides(b[i]));
        }
    }
}

/// Assigning a field of an enum, or of another crate's struct, is on no
/// record.
pub proof fn lemma_other_assignments_are_let_be(
    defs: Definitions,
    s: ProjectionView,
    target: Expr,
    did: DefId,
    name: Symbol,
)
    requires
        written_adt_field(target) == Some((did, name)),
        !defs.local(did) || !(defs.adt(did) matches Some(a) && a.kind == AdtKind::Struct),
    ensures
        after_assignment(defs, s, target) == s,
{
}

} // verus!
