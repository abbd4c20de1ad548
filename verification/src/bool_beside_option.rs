//! A bool field that stores whether a sibling `Option` field is `Some`: every
//! write to either sits beside a write to the other in the same struct
//! expression or block, `true` always with `Some(..)` and `false` always with
//! `None`, or always the reverse.
//!
//! It takes every write to the pair being a literal and both polarities
//! occurring. A lone write, a computed value, a compound assignment or a
//! mutable borrow of either is unprovable and silences it.

use crate::adt_facts::{
    fixes_layout, has_fixed_repr, is_known_ty, is_option_ty, struct_field, struct_field_at,
};
use crate::defs::{Definitions, Known};
use crate::enum_facts::{as_some_expr, is_none_expr, names_none, wrapped_in_some};
use crate::hir::{block_around, enclosing_block, Expr, ExprKind, FieldInit, LitKind, Parent};
use crate::hir_shapes::{assigned_field, inside_blocks, peel_blocks_unsafe, written_field};
use crate::ids::{DefId, HirId, Symbol};
use crate::report::{
    by_position, emit, finding, sort_by_position, text_at_most, text_le, views, Finding,
    FindingView, Lint,
};
use crate::table::{add_new, is_in, with_added};
use crate::text::{decimal, number, same};
use crate::ty::{adt_id, peeled, Ty};
use vstd::prelude::*;
use vstd::string::*;

verus! {

#[derive(Clone, Copy, Debug, PartialEq, Eq, Structural)]
pub enum Kind {
    Bool,
    Opt,
}

/// A write to a field: the struct expression or block it stands in and whether
/// it writes `true` or `Some(..)` there; or that the field's value is no
/// function of the sites.
#[derive(Clone, Copy, Debug)]
pub struct Write {
    pub adt: DefId,
    pub field: Symbol,
    pub kind: Kind,
    pub site: Option<(HirId, bool)>,
}

#[derive(Debug)]
pub struct BoolBesideOption {
    pub writes: Vec<Write>,
}

/// A bool or `Option` field of a local struct that nothing outside the crate
/// can write.
pub open spec fn watched(defs: Definitions, ty: Ty, name: Symbol) -> Option<(DefId, Kind)> {
    match adt_id(peeled(ty)) {
        Some(did) => match struct_field_at(defs, did, name) {
            Some(f) => if !defs.is_struct(did) || !defs.local(did) || fixes_layout(
                defs.adt(did)->Some_0.repr,
            ) || defs.exported(f.did) {
                None
            } else if f.ty is Bool {
                Some((did, Kind::Bool))
            } else if is_known_ty(defs, f.ty, Known::OptionType) {
                Some((did, Kind::Opt))
            } else {
                None
            },
            None => None,
        },
        None => None,
    }
}

fn watched_field(defs: &Definitions, ty: &Ty, name: Symbol) -> (r: Option<(DefId, Kind)>)
    ensures
        r == watched(*defs, *ty, name),
{
    let did = match ty.peel_refs().adt() {
        Some(d) => d,
        None => {
            return None;
        },
    };
    let f = match struct_field(defs, did, name) {
        Some(f) => f,
        None => {
            return None;
        },
    };
    let adt = match defs.adt_of(did) {
        Some(a) => a,
        None => {
            return None;
        },
    };
    if !defs.struct_here(did) || !defs.is_local(did) || has_fixed_repr(adt) || defs.is_exported(
        f.did,
    ) {
        return None;
    }
    if f.ty.is_bool() {
        Some((did, Kind::Bool))
    } else if is_option_ty(defs, &f.ty) {
        Some((did, Kind::Opt))
    } else {
        None
    }
}

/// Whether a value is `true` or `Some(..)`, or `false` or `None`; nothing for
/// anything computed.
pub open spec fn polarity(defs: Definitions, kind: Kind, value: Expr) -> Option<bool> {
    let v = inside_blocks(value);
    match kind {
        Kind::Bool => match v.kind {
            ExprKind::Lit(l) => match l.kind {
                LitKind::Bool(b) => Some(b),
                _ => None,
            },
            _ => None,
        },
        Kind::Opt => if wrapped_in_some(defs, v) is Some {
            Some(true)
        } else if names_none(defs, v) {
            Some(false)
        } else {
            None
        },
    }
}

fn polarity_of(defs: &Definitions, kind: Kind, value: &Expr) -> (r: Option<bool>)
    ensures
        r == polarity(*defs, kind, *value),
{
    let v = peel_blocks_unsafe(value);
    match kind {
        Kind::Bool => match &v.kind {
            ExprKind::Lit(l) => match l.kind {
                LitKind::Bool(b) => Some(b),
                _ => None,
            },
            _ => None,
        },
        Kind::Opt => if as_some_expr(defs, v).is_some() {
            Some(true)
        } else if is_none_expr(defs, v) {
            Some(false)
        } else {
            None
        },
    }
}

/// The writes, and one of `value` to a field at `site`.
pub open spec fn recorded(
    defs: Definitions,
    ws: Seq<Write>,
    base: Ty,
    name: Symbol,
    site: HirId,
    value: Expr,
) -> Seq<Write> {
    match watched(defs, base, name) {
        Some((adt, kind)) => ws.push(
            Write {
                adt,
                field: name,
                kind,
                site: match polarity(defs, kind, value) {
                    Some(set) => Some((site, set)),
                    None => None,
                },
            },
        ),
        None => ws,
    }
}

/// The writes, and one that proves nothing.
pub open spec fn poisoned(defs: Definitions, ws: Seq<Write>, base: Ty, name: Symbol) -> Seq<
    Write,
> {
    match watched(defs, base, name) {
        Some((adt, kind)) => ws.push(Write { adt, field: name, kind, site: None }),
        None => ws,
    }
}

/// The writes, and those of the first `k` fields of a struct expression.
pub open spec fn recorded_fields(
    defs: Definitions,
    ws: Seq<Write>,
    e: Expr,
    fields: Seq<FieldInit>,
    k: int,
) -> Seq<Write>
    decreases k,
{
    if k <= 0 {
        ws
    } else {
        recorded(
            defs,
            recorded_fields(defs, ws, e, fields, k - 1),
            e.ty,
            fields[k - 1].name,
            e.id,
            fields[k - 1].value,
        )
    }
}

/// Methods that borrow a field mutably without being able to replace it whole.
pub open spec fn projects(name: Seq<char>) -> bool {
    name == "as_mut"@ || name == "as_deref_mut"@ || name == "as_pin_mut"@ || name == "iter_mut"@
}

/// The node just around an expression is a call of such a method.
pub open spec fn projected(defs: Definitions, parents: Seq<Parent>) -> bool {
    parents.len() > 0 && match parents[0] {
        Parent::Expr(p) => p.kind matches ExprKind::MethodCall(name, _, _) && projects(
            defs.text(name),
        ),
        _ => false,
    }
}

fn is_projected(defs: &Definitions, parents: &Vec<Parent>) -> (r: bool)
    ensures
        r == projected(*defs, parents@),
{
    parents.len() > 0 && match &parents[0] {
        Parent::Expr(p) => match &p.kind {
            ExprKind::MethodCall(name, _, _) => {
                let n = defs.text_of(*name);
                same(n, "as_mut") || same(n, "as_deref_mut") || same(n, "as_pin_mut") || same(
                    n,
                    "iter_mut",
                )
            },
            _ => false,
        },
        _ => false,
    }
}

/// The writes seen once an expression has been visited. A derived impl writes
/// every field from the same field or the same default: it preserves whatever
/// the written sites establish and proves nothing itself.
pub open spec fn after_expr(
    defs: Definitions,
    ws: Seq<Write>,
    e: Expr,
    parents: Seq<Parent>,
) -> Seq<Write> {
    match e.kind {
        ExprKind::Struct(_, fields, _) => if e.origin.in_derive {
            ws
        } else {
            recorded_fields(defs, ws, e, fields@, fields@.len() as int)
        },
        ExprKind::Assign(target, value) => match written_field(*target) {
            Some((base, name)) => match enclosing_block(parents) {
                Some(block) => recorded(defs, ws, base.adjusted, name, block, *value),
                None => poisoned(defs, ws, base.adjusted, name),
            },
            None => ws,
        },
        ExprKind::AssignOp(target, _) => match written_field(*target) {
            Some((base, name)) => poisoned(defs, ws, base.adjusted, name),
            None => ws,
        },
        ExprKind::AddrOf(_, mutable, inner) => if mutable {
            match inside_blocks(*inner).kind {
                ExprKind::Field(base, name) => poisoned(defs, ws, base.adjusted, name),
                _ => ws,
            }
        } else {
            ws
        },
        ExprKind::Field(base, name) => if e.auto_mut_borrow && !projected(defs, parents) {
            poisoned(defs, ws, base.adjusted, name)
        } else {
            ws
        },
        _ => ws,
    }
}

// ---------------------------------------------------------------- conclusions

pub open spec fn writes_to(w: Write, did: DefId, field: Symbol) -> bool {
    w.adt == did && w.field == field
}

/// Some write to the field proves nothing.
pub open spec fn unprovable(ws: Seq<Write>, did: DefId, field: Symbol) -> bool {
    exists|i: int| 0 <= i < ws.len() && writes_to(#[trigger] ws[i], did, field) && ws[i].site is None
}

/// The sites that write the field and what they write, each pair once.
pub open spec fn sites_of(ws: Seq<Write>, did: DefId, field: Symbol) -> Seq<(HirId, bool)>
    decreases ws.len(),
{
    if ws.len() == 0 {
        Seq::empty()
    } else {
        let before = sites_of(ws.drop_last(), did, field);
        let w = ws.last();
        if writes_to(w, did, field) && w.site is Some {
            with_added(before, w.site->Some_0)
        } else {
            before
        }
    }
}

/// The field's value is a function of sites, of which there are some.
pub open spec fn provable(ws: Seq<Write>, did: DefId, field: Symbol) -> bool {
    !unprovable(ws, did, field) && sites_of(ws, did, field).len() > 0
}

/// Every pair of `a` is in `b`, inverted if asked.
pub open spec fn within(a: Seq<(HirId, bool)>, b: Seq<(HirId, bool)>, inverted: bool) -> bool {
    forall|i: int| 0 <= i < a.len() ==> b.contains(((#[trigger] a[i]).0, a[i].1 != inverted))
}

/// Whether the option's sites are the flag's: with the same polarity
/// throughout, or with the other one throughout.
pub open spec fn agreement(flag: Seq<(HirId, bool)>, opt: Seq<(HirId, bool)>) -> Option<bool> {
    if within(flag, opt, false) && within(opt, flag, false) {
        Some(false)
    } else if within(flag, opt, true) && within(opt, flag, true) {
        Some(true)
    } else {
        None
    }
}

/// The flag is written with both polarities.
pub open spec fn varies(sites: Seq<(HirId, bool)>) -> bool {
    (exists|i: int| 0 <= i < sites.len() && (#[trigger] sites[i]).1) && (exists|i: int|
        0 <= i < sites.len() && !(#[trigger] sites[i]).1)
}

/// The option repeats the flag, and if so whether inverted.
pub open spec fn repeats(ws: Seq<Write>, did: DefId, flag: Symbol, opt: Symbol) -> Option<bool> {
    if provable(ws, did, opt) {
        agreement(sites_of(ws, did, flag), sites_of(ws, did, opt))
    } else {
        None
    }
}

/// The `Option` field, of those the first `k` writes write, that repeats the
/// flag; of several the one whose name comes first.
pub open spec fn partner(
    defs: Definitions,
    ws: Seq<Write>,
    did: DefId,
    flag: Symbol,
    k: int,
) -> Option<Symbol>
    decreases k,
{
    if k <= 0 {
        None
    } else {
        let before = partner(defs, ws, did, flag, k - 1);
        let w = ws[k - 1];
        if w.adt == did && w.kind == Kind::Opt && repeats(ws, did, flag, w.field) is Some {
            match before {
                Some(b) => if text_le(defs.text(b), defs.text(w.field)) {
                    Some(b)
                } else {
                    Some(w.field)
                },
                None => Some(w.field),
            }
        } else {
            before
        }
    }
}

pub open spec fn flag_message(
    defs: Definitions,
    did: DefId,
    flag: Symbol,
    opt: Symbol,
    inverted: bool,
    sites: nat,
) -> Seq<char> {
    "`"@ + defs.text(flag) + "` is only ever written beside `"@ + defs.text(opt) + "` of `"@
        + defs.path_text(did) + "`, `true` with `"@ + (if inverted {
        "None"@
    } else {
        "Some(..)"@
    }) + "` and `false` with `"@ + (if inverted {
        "Some(..)"@
    } else {
        "None"@
    }) + "` ("@ + decimal(sites) + " sites): it stores `"@ + defs.text(opt) + "."@ + (
    if inverted {
        "is_none"@
    } else {
        "is_some"@
    }) + "()` a second time"@
}

/// What the lint says of a bool field.
pub open spec fn flag_finding(
    defs: Definitions,
    ws: Seq<Write>,
    did: DefId,
    flag: Symbol,
) -> Option<FindingView> {
    let sites = sites_of(ws, did, flag);
    if !provable(ws, did, flag) || !varies(sites) {
        None
    } else {
        match (partner(defs, ws, did, flag, ws.len() as int), struct_field_at(defs, did, flag)) {
            (Some(opt), Some(f)) => Some(
                finding(
                    Lint::BoolBesideOption,
                    f.span,
                    flag_message(
                        defs,
                        did,
                        flag,
                        opt,
                        repeats(ws, did, flag, opt) == Some(true),
                        sites.len(),
                    ),
                    "the `Option` already carries this state; drop the flag and ask the `Option`, so the two cannot disagree"@,
                ),
            ),
            _ => None,
        }
    }
}

/// The bool fields the first `k` writes write, each once.
pub open spec fn flags(ws: Seq<Write>, k: int) -> Seq<(DefId, Symbol)>
    decreases k,
{
    if k <= 0 {
        Seq::empty()
    } else if ws[k - 1].kind == Kind::Bool {
        with_added(flags(ws, k - 1), (ws[k - 1].adt, ws[k - 1].field))
    } else {
        flags(ws, k - 1)
    }
}

pub open spec fn flag_findings(
    defs: Definitions,
    ws: Seq<Write>,
    fs: Seq<(DefId, Symbol)>,
    k: int,
) -> Seq<FindingView>
    decreases k,
{
    if k <= 0 {
        Seq::empty()
    } else {
        let before = flag_findings(defs, ws, fs, k - 1);
        match flag_finding(defs, ws, fs[k - 1].0, fs[k - 1].1) {
            Some(f) => before.push(f),
            None => before,
        }
    }
}

/// What the lint says of the crate, in source order.
pub open spec fn beside_findings(defs: Definitions, ws: Seq<Write>) -> Seq<FindingView> {
    let fs = flags(ws, ws.len() as int);
    by_position(flag_findings(defs, ws, fs, fs.len() as int))
}

fn is_within(a: &Vec<(HirId, bool)>, b: &Vec<(HirId, bool)>, inverted: bool) -> (r: bool)
    ensures
        r == within(a@, b@, inverted),
{
    let mut i: usize = 0;
    while i < a.len()
        invariant
            i <= a@.len(),
            forall|j: int|
                0 <= j < i ==> b@.contains(((#[trigger] a@[j]).0, a@[j].1 != inverted)),
        decreases a.len() - i,
    {
        if !is_in(b, &(a[i].0, a[i].1 != inverted)) {
            assert(!b@.contains((a@[i as int].0, a@[i as int].1 != inverted)));
            return false;
        }
        i = i + 1;
    }
    true
}

fn does_vary(sites: &Vec<(HirId, bool)>) -> (r: bool)
    ensures
        r == varies(sites@),
{
    let mut yes = false;
    let mut no = false;
    let mut i: usize = 0;
    while i < sites.len()
        invariant
            i <= sites@.len(),
            yes == exists|j: int| 0 <= j < i && (#[trigger] sites@[j]).1,
            no == exists|j: int| 0 <= j < i && !(#[trigger] sites@[j]).1,
        decreases sites.len() - i,
    {
        if sites[i].1 {
            assert(sites@[i as int].1);
            yes = true;
        } else {
            assert(!sites@[i as int].1);
            no = true;
        }
        i = i + 1;
    }
    yes && no
}

fn write_message(
    defs: &Definitions,
    did: DefId,
    flag: Symbol,
    opt: Symbol,
    inverted: bool,
    sites: usize,
) -> (r: String)
    ensures
        r@ == flag_message(*defs, did, flag, opt, inverted, sites as nat),
{
    let mut msg = String::from_str("`");
    msg.append(defs.text_of(flag));
    msg.append("` is only ever written beside `");
    msg.append(defs.text_of(opt));
    msg.append("` of `");
    msg.append(defs.path_of(did));
    msg.append("`, `true` with `");
    msg.append(
        if inverted {
            "None"
        } else {
            "Some(..)"
        },
    );
    msg.append("` and `false` with `");
    msg.append(
        if inverted {
            "Some(..)"
        } else {
            "None"
        },
    );
    msg.append("` (");
    msg.append(number(sites as u128).as_str());
    msg.append(" sites): it stores `");
    msg.append(defs.text_of(opt));
    msg.append(".");
    msg.append(
        if inverted {
            "is_none"
        } else {
            "is_some"
        },
    );
    msg.append("()` a second time");
    msg
}

impl BoolBesideOption {
    pub fn new() -> (r: Self)
        ensures
            r.writes@.len() == 0,
    {
        BoolBesideOption { writes: Vec::new() }
    }

    fn record(&mut self, defs: &Definitions, base: &Ty, name: Symbol, site: HirId, value: &Expr)
        ensures
            final(self).writes@ == recorded(*defs, old(self).writes@, *base, name, site, *value),
    {
        match watched_field(defs, base, name) {
            Some((adt, kind)) => {
                let site = match polarity_of(defs, kind, value) {
                    Some(set) => Some((site, set)),
                    None => None,
                };
                self.writes.push(Write { adt, field: name, kind, site });
            },
            None => {},
        }
    }

    fn poison(&mut self, defs: &Definitions, base: &Ty, name: Symbol)
        ensures
            final(self).writes@ == poisoned(*defs, old(self).writes@, *base, name),
    {
        match watched_field(defs, base, name) {
            Some((adt, kind)) => {
                self.writes.push(Write { adt, field: name, kind, site: None });
            },
            None => {},
        }
    }

    /// Visits an expression; `parents` are the nodes around it, innermost
    /// first.
    pub fn check_expr(&mut self, defs: &Definitions, e: &Expr, parents: &Vec<Parent>)
        ensures
            final(self).writes@ == after_expr(*defs, old(self).writes@, *e, parents@),
    {
        match &e.kind {
            ExprKind::Struct(_, fields, _) => {
                if e.origin.in_derive {
                    return;
                }
                let ghost start = self.writes@;
                let mut i: usize = 0;
                while i < fields.len()
                    invariant
                        i <= fields@.len(),
                        self.writes@ == recorded_fields(*defs, start, *e, fields@, i as int),
                    decreases fields.len() - i,
                {
                    self.record(defs, &e.ty, fields[i].name, e.id, &fields[i].value);
                    i = i + 1;
                }
            },
            ExprKind::Assign(target, value) => {
                match assigned_field(target) {
                    Some((base, name)) => match block_around(parents) {
                        Some(block) => self.record(defs, &base.adjusted, name, block, value),
                        None => self.poison(defs, &base.adjusted, name),
                    },
                    None => {},
                }
            },
            ExprKind::AssignOp(target, _) => {
                match assigned_field(target) {
                    Some((base, name)) => self.poison(defs, &base.adjusted, name),
                    None => {},
                }
            },
            ExprKind::AddrOf(_, mutable, inner) => {
                if *mutable {
                    match &peel_blocks_unsafe(inner).kind {
                        ExprKind::Field(base, name) => self.poison(defs, &base.adjusted, *name),
                        _ => {},
                    }
                }
            },
            ExprKind::Field(base, name) => {
                if e.auto_mut_borrow && !is_projected(defs, parents) {
                    self.poison(defs, &base.adjusted, *name);
                }
            },
            _ => {},
        }
    }

    /// The sites that write the field, or none if some write proves nothing.
    fn proof_sites(&self, did: DefId, field: Symbol) -> (r: Option<Vec<(HirId, bool)>>)
        ensures
            match r {
                Some(v) => provable(self.writes@, did, field) && v@ == sites_of(
                    self.writes@,
                    did,
                    field,
                ),
                None => !provable(self.writes@, did, field),
            },
    {
        let ghost ws = self.writes@;
        let mut sites: Vec<(HirId, bool)> = Vec::new();
        let mut i: usize = 0;
        while i < self.writes.len()
            invariant
                i <= self.writes@.len(),
                ws == self.writes@,
                sites@ == sites_of(ws.take(i as int), did, field),
                forall|j: int|
                    0 <= j < i ==> !(writes_to(#[trigger] ws[j], did, field) && ws[j].site is None),
            decreases self.writes.len() - i,
        {
            assert(ws.take(i + 1).drop_last() =~= ws.take(i as int));
            let w: Write = self.writes[i];
            if w.adt == did && w.field == field {
                match w.site {
                    Some(s) => add_new(&mut sites, s),
                    None => {
                        assert(writes_to(ws[i as int], did, field) && ws[i as int].site is None);
                        return None;
                    },
                }
            }
            i = i + 1;
        }
        assert(ws.take(i as int) =~= ws);
        if sites.len() > 0 {
            Some(sites)
        } else {
            None
        }
    }

    fn repetition(&self, did: DefId, sites: &Vec<(HirId, bool)>, opt: Symbol) -> (r: Option<bool>)
        ensures
            forall|flag: Symbol|
                sites@ == sites_of(self.writes@, did, flag) ==> r == #[trigger] repeats(
                    self.writes@,
                    did,
                    flag,
                    opt,
                ),
    {
        match self.proof_sites(did, opt) {
            Some(others) => {
                if is_within(sites, &others, false) && is_within(&others, sites, false) {
                    Some(false)
                } else if is_within(sites, &others, true) && is_within(&others, sites, true) {
                    Some(true)
                } else {
                    None
                }
            },
            None => None,
        }
    }

    fn finding_for(&self, defs: &Definitions, did: DefId, flag: Symbol, out: &mut Vec<Finding>)
        ensures
            match flag_finding(*defs, self.writes@, did, flag) {
                Some(f) => views(final(out)@) == views(old(out)@).push(f),
                None => views(final(out)@) == views(old(out)@),
            },
    {
        let ghost ws = self.writes@;
        let sites = match self.proof_sites(did, flag) {
            Some(s) => s,
            None => {
                return;
            },
        };
        if !does_vary(&sites) {
            return;
        }
        let mut best: Option<Symbol> = None;
        let mut k: usize = 0;
        while k < self.writes.len()
            invariant
                k <= self.writes@.len(),
                ws == self.writes@,
                sites@ == sites_of(ws, did, flag),
                best == partner(*defs, ws, did, flag, k as int),
            decreases self.writes.len() - k,
        {
            let w: Write = self.writes[k];
            if w.adt == did && w.kind == Kind::Opt && self.repetition(
                did,
                &sites,
                w.field,
            ).is_some() {
                assert(repeats(ws, did, flag, w.field) is Some);
                match best {
                    Some(b) => {
                        if !text_at_most(defs.text_of(b), defs.text_of(w.field)) {
                            best = Some(w.field);
                        }
                    },
                    None => {
                        best = Some(w.field);
                    },
                }
            } else {
                assert(!(w.adt == did && w.kind == Kind::Opt) || repeats(ws, did, flag, w.field)
                    is None);
            }
            k = k + 1;
        }
        match (best, struct_field(defs, did, flag)) {
            (Some(opt), Some(f)) => {
                let inverted = match self.repetition(did, &sites, opt) {
                    Some(i) => i,
                    None => false,
                };
                assert(inverted == (repeats(ws, did, flag, opt) == Some(true)));
                let msg = write_message(defs, did, flag, opt, inverted, sites.len());
                emit(
                    out,
                    Lint::BoolBesideOption,
                    f.span,
                    msg,
                    "the `Option` already carries this state; drop the flag and ask the `Option`, so the two cannot disagree",
                );
            },
            _ => {},
        }
    }

    /// What the lint says of the crate, in source order.
    pub fn check_crate_post(&self, defs: &Definitions) -> (r: Vec<Finding>)
        ensures
            views(r@) == beside_findings(*defs, self.writes@),
    {
        let mut fs: Vec<(DefId, Symbol)> = Vec::new();
        let mut i: usize = 0;
        while i < self.writes.len()
            invariant
                i <= self.writes@.len(),
                fs@ == flags(self.writes@, i as int),
            decreases self.writes.len() - i,
        {
            if self.writes[i].kind == Kind::Bool {
                add_new(&mut fs, (self.writes[i].adt, self.writes[i].field));
            }
            i = i + 1;
        }
        let mut out: Vec<Finding> = Vec::new();
        let mut k: usize = 0;
        assert(views(out@) =~= Seq::<FindingView>::empty());
        while k < fs.len()
            invariant
                k <= fs@.len(),
                views(out@) == flag_findings(*defs, self.writes@, fs@, k as int),
            decreases fs.len() - k,
        {
            self.finding_for(defs, fs[k].0, fs[k].1, &mut out);
            k = k + 1;
        }
        sort_by_position(out)
    }
}

proof fn lemma_site_listed(ws: Seq<Write>, did: DefId, field: Symbol, i: int)
    requires
        0 <= i < ws.len(),
        writes_to(ws[i], did, field),
        ws[i].site is Some,
    ensures
        sites_of(ws, did, field).contains(ws[i].site->Some_0),
    decreases ws.len(),
{
    let before = sites_of(ws.drop_last(), did, field);
    let w = ws.last();
    if i == ws.len() - 1 {
        crate::table::lemma_added(before, w.site->Some_0);
        assert(with_added(before, w.site->Some_0).contains(w.site->Some_0));
    } else {
        lemma_site_listed(ws.drop_last(), did, field, i);
        if writes_to(w, did, field) && w.site is Some {
            crate::table::lemma_added(before, w.site->Some_0);
            assert(with_added(before, w.site->Some_0).contains(ws[i].site->Some_0));
        }
    }
}

/// When an option repeats a flag, every write to the flag sits beside a write
/// to the option at the same site, with the polarity the agreement says.
pub proof fn lemma_every_flag_write_is_paired(
    ws: Seq<Write>,
    did: DefId,
    flag: Symbol,
    opt: Symbol,
    i: int,
)
    requires
        provable(ws, did, flag),
        repeats(ws, did, flag, opt) is Some,
        0 <= i < ws.len(),
        writes_to(ws[i], did, flag),
    ensures
        ws[i].site is Some,
        sites_of(ws, did, opt).contains(
            (
                ws[i].site->Some_0.0,
                ws[i].site->Some_0.1 != repeats(ws, did, flag, opt)->Some_0,
            ),
        ),
{
    assert(!unprovable(ws, did, flag));
    lemma_site_listed(ws, did, flag, i);
    let a = sites_of(ws, did, flag);
    let j = choose|j: int| 0 <= j < a.len() && a[j] == ws[i].site->Some_0;
    let b = sites_of(ws, did, opt);
    let inverted = repeats(ws, did, flag, opt)->Some_0;
    assert(within(a, b, inverted));
    assert(b.contains((a[j].0, a[j].1 != inverted)));
}

/// The struct is the crate's own with a free layout, and its first field of
/// that name is one nothing outside can write.
pub open spec fn own_field(defs: Definitions, did: DefId, name: Symbol, ty: Ty) -> bool {
    &&& defs.at(did) matches Some(d) && d.is_local && (d.adt matches Some(a) && a.kind
        == crate::defs::AdtKind::Struct && !a.repr.c && !a.repr.packed && !a.repr.transparent
        && !a.repr.simd && !a.repr.int)
    &&& struct_field_at(defs, did, name) matches Some(f) && f.ty == ty && !(defs.at(
        f.did,
    ) matches Some(d) && d.is_exported)
}

/// A private flag and a private `Option` of the crate's own structs are
/// watched, behind references too; a field of another type is not.
pub proof fn lemma_own_flags_and_options_are_watched(
    defs: Definitions,
    base: Ty,
    did: DefId,
    name: Symbol,
    ty: Ty,
)
    requires
        peeled(base) matches Ty::Adt(d, _) && d == did,
        own_field(defs, did, name, ty),
    ensures
        ty is Bool ==> watched(defs, base, name) == Some((did, Kind::Bool)),
        (ty matches Ty::Adt(o, _) && defs.known(o) == Known::OptionType) ==> watched(
            defs,
            base,
            name,
        ) == Some((did, Kind::Opt)),
        !(ty is Bool) && !(ty matches Ty::Adt(o, _) && defs.known(o) == Known::OptionType)
            ==> watched(defs, base, name) is None,
{
}

/// `true`, `false`, `Some(..)` and `None` say what they write; anything
/// computed does not.
pub proof fn lemma_polarity_of_literals(defs: Definitions, v: Expr, d: DefId)
    requires
        !(v.kind is Block),
    ensures
        v.kind matches ExprKind::Lit(l) ==> (l.kind matches LitKind::Bool(b) ==> polarity(
            defs,
            Kind::Bool,
            v,
        ) == Some(b)),
        !(v.kind is Lit) ==> polarity(defs, Kind::Bool, v) is None,
        (v.kind matches ExprKind::Call(f, args) && args@.len() == 1 && (f.kind matches ExprKind::Path(
            p,
        ) && crate::enum_facts::names_variant(defs, p.res, d))) && defs.known(d)
            == Known::SomeVariant ==> polarity(defs, Kind::Opt, v) == Some(true),
        (v.kind matches ExprKind::Path(p) && crate::enum_facts::names_variant(defs, p.res, d))
            && defs.known(d) == Known::NoneVariant ==> polarity(defs, Kind::Opt, v) == Some(false),
        !(v.kind is Call) && !(v.kind is Path) ==> polarity(defs, Kind::Opt, v) is None,
{
}

/// A literal's fields are written at the literal, an assigned field in the
/// block the assignment stands in; what is written where is on record.
pub proof fn lemma_writes_are_recorded(
    defs: Definitions,
    ws: Seq<Write>,
    e: Expr,
    parents: Seq<Parent>,
    base: Expr,
    name: Symbol,
    value: Expr,
    i: int,
    block: HirId,
    did: DefId,
    kind: Kind,
)
    ensures
        (e.kind matches ExprKind::Struct(_, fields, _) && 0 <= i < fields@.len() && fields@[i].name
            == name && fields@[i].value == value) && !e.origin.in_derive && watched(
            defs,
            e.ty,
            name,
        ) == Some((did, kind)) ==> after_expr(defs, ws, e, parents).contains(
            Write {
                adt: did,
                field: name,
                kind,
                site: match polarity(defs, kind, value) {
                    Some(b) => Some((e.id, b)),
                    None => None,
                },
            },
        ),
        (e.kind matches ExprKind::Assign(t, v) && t.kind == ExprKind::Field(Box::new(base), name)
            && *v == value) && enclosing_block(parents) == Some(block) && watched(
            defs,
            base.adjusted,
            name,
        ) == Some((did, kind)) ==> after_expr(defs, ws, e, parents) == ws.push(
            Write {
                adt: did,
                field: name,
                kind,
                site: match polarity(defs, kind, value) {
                    Some(b) => Some((block, b)),
                    None => None,
                },
            },
        ),
{
    match e.kind {
        ExprKind::Struct(_, fields, _) => {
            if 0 <= i < fields@.len() && !e.origin.in_derive && watched(
                defs,
                e.ty,
                fields@[i].name,
            ) is Some {
                let (adt, of_kind) = watched(defs, e.ty, fields@[i].name)->Some_0;
                let want = Write {
                    adt,
                    field: fields@[i].name,
                    kind: of_kind,
                    site: match polarity(defs, of_kind, fields@[i].value) {
                        Some(b) => Some((e.id, b)),
                        None => None,
                    },
                };
                lemma_field_recorded(defs, ws, e, fields@, fields@.len() as int, i, want);
            }
        },
        _ => {},
    }
}

proof fn lemma_field_recorded(
    defs: Definitions,
    ws: Seq<Write>,
    e: Expr,
    fields: Seq<FieldInit>,
    k: int,
    i: int,
    want: Write,
)
    requires
        0 <= i < k <= fields.len(),
        watched(defs, e.ty, fields[i].name) == Some((want.adt, want.kind)),
        want.field == fields[i].name,
        want.site == match polarity(defs, want.kind, fields[i].value) {
            Some(b) => Some((e.id, b)),
            None => None,
        },
    ensures
        recorded_fields(defs, ws, e, fields, k).contains(want),
    decreases k,
{
    let before = recorded_fields(defs, ws, e, fields, k - 1);
    let all = recorded_fields(defs, ws, e, fields, k);
    if i == k - 1 {
        assert(all == before.push(want));
        assert(all[before.len() as int] == want);
    } else {
        lemma_field_recorded(defs, ws, e, fields, k - 1, i, want);
        let j = choose|j: int| 0 <= j < before.len() && before[j] == want;
        assert(all[j] == want);
    }
}

/// A field changed in place, borrowed mutably, or borrowed mutably without it
/// being written so, proves nothing any more; a method that borrows without
/// being able to replace the whole is fine.
pub proof fn lemma_hidden_writes_prove_nothing(
    defs: Definitions,
    ws: Seq<Write>,
    e: Expr,
    parents: Seq<Parent>,
    base: Expr,
    name: Symbol,
    did: DefId,
    kind: Kind,
)
    requires
        watched(defs, base.adjusted, name) == Some((did, kind)),
    ensures
        (e.kind matches ExprKind::AssignOp(t, _) && t.kind == ExprKind::Field(
            Box::new(base),
            name,
        )) || (e.kind matches ExprKind::AddrOf(_, m, x) && m && x.kind == ExprKind::Field(
            Box::new(base),
            name,
        )) || (e.kind == ExprKind::Field(Box::new(base), name) && e.auto_mut_borrow
            && parents.len() == 0) ==> unprovable(
            after_expr(defs, ws, e, parents),
            did,
            name,
        ),
        e.kind == ExprKind::Field(Box::new(base), name) && !e.auto_mut_borrow ==> after_expr(
            defs,
            ws,
            e,
            parents,
        ) == ws,
        e.kind == ExprKind::Field(Box::new(base), name) && parents.len() > 0 && (
        parents[0] matches Parent::Expr(p) && (p.kind matches ExprKind::MethodCall(n, _, _) && (
        defs.text(n) == "as_mut"@ || defs.text(n) == "as_deref_mut"@ || defs.text(n)
            == "as_pin_mut"@ || defs.text(n) == "iter_mut"@))) ==> after_expr(
            defs,
            ws,
            e,
            parents,
        ) == ws,
{
    let w = Write { adt: did, field: name, kind, site: None };
    let all = ws.push(w);
    assert(all[ws.len() as int] == w && writes_to(w, did, name));
}

/// Every write of the one field stands at a site where the other is written,
/// with the same polarity or, inverted, with the other.
#[verifier::opaque]
pub open spec fn written_beside(
    ws: Seq<Write>,
    did: DefId,
    a: Symbol,
    b: Symbol,
    inverted: bool,
) -> bool {
    forall|i: int|
        0 <= i < ws.len() && (#[trigger] ws[i]).adt == did && ws[i].field == a ==> (
        ws[i].site matches Some(s) && exists|j: int|
            0 <= j < ws.len() && (#[trigger] ws[j]).adt == did && ws[j].field == b && ws[j].site
                == Some((s.0, s.1 != inverted)))
}

proof fn lemma_sites(ws: Seq<Write>, did: DefId, field: Symbol, s: (HirId, bool))
    ensures
        sites_of(ws, did, field).contains(s) <==> exists|i: int|
            0 <= i < ws.len() && (#[trigger] ws[i]).adt == did && ws[i].field == field && ws[i].site
                == Some(s),
    decreases ws.len(),
{
    if ws.len() > 0 {
        let front = ws.drop_last();
        let before = sites_of(front, did, field);
        lemma_sites(front, did, field, s);
        assert(ws[ws.len() - 1] == ws.last());
        let w = ws.last();
        if w.site is Some {
            crate::table::lemma_added(before, w.site->Some_0);
        }
        if before.contains(s) {
            let i = choose|i: int|
                0 <= i < front.len() && (#[trigger] front[i]).adt == did && front[i].field == field
                    && front[i].site == Some(s);
            assert(ws[i] == front[i]);
        }
        if exists|i: int|
            0 <= i < ws.len() && (#[trigger] ws[i]).adt == did && ws[i].field == field && ws[i].site
                == Some(s) {
            let i = choose|i: int|
                0 <= i < ws.len() && (#[trigger] ws[i]).adt == did && ws[i].field == field
                    && ws[i].site == Some(s);
            if i < front.len() {
                assert(front[i] == ws[i]);
            }
        }
    }
}

proof fn lemma_beside(ws: Seq<Write>, did: DefId, a: Symbol, b: Symbol, inverted: bool)
    ensures
        written_beside(ws, did, a, b, inverted) <==> !unprovable(ws, did, a) && within(
            sites_of(ws, did, a),
            sites_of(ws, did, b),
            inverted,
        ),
{
    reveal(written_beside);
    let at_a = sites_of(ws, did, a);
    let at_b = sites_of(ws, did, b);
    if written_beside(ws, did, a, b, inverted) {
        if unprovable(ws, did, a) {
            let i = choose|i: int|
                0 <= i < ws.len() && writes_to(#[trigger] ws[i], did, a) && ws[i].site is None;
            assert(ws[i].adt == did);
        }
        assert forall|i: int| 0 <= i < at_a.len() implies at_b.contains(
            ((#[trigger] at_a[i]).0, at_a[i].1 != inverted),
        ) by {
            let s = at_a[i];
            assert(at_a.contains(s));
            lemma_sites(ws, did, a, s);
            let k = choose|k: int|
                0 <= k < ws.len() && (#[trigger] ws[k]).adt == did && ws[k].field == a && ws[k].site
                    == Some(s);
            lemma_sites(ws, did, b, (s.0, s.1 != inverted));
            assert(ws[k].adt == did);
        }
    }
    if !unprovable(ws, did, a) && within(at_a, at_b, inverted) {
        assert forall|i: int|
            0 <= i < ws.len() && (#[trigger] ws[i]).adt == did && ws[i].field == a implies (
        ws[i].site matches Some(s) && exists|j: int|
            0 <= j < ws.len() && (#[trigger] ws[j]).adt == did && ws[j].field == b && ws[j].site
                == Some((s.0, s.1 != inverted))) by {
            assert(writes_to(ws[i], did, a));
            let s = ws[i].site->Some_0;
            lemma_sites(ws, did, a, s);
            let k = choose|k: int| 0 <= k < at_a.len() && at_a[k] == s;
            assert(at_b.contains((at_a[k].0, at_a[k].1 != inverted)));
            lemma_sites(ws, did, b, (s.0, s.1 != inverted));
        }
    }
}

proof fn lemma_partner_found(
    defs: Definitions,
    ws: Seq<Write>,
    did: DefId,
    flag: Symbol,
    k: int,
    i: int,
)
    requires
        0 <= i < k <= ws.len(),
        ws[i].adt == did,
        ws[i].kind == Kind::Opt,
        repeats(ws, did, flag, ws[i].field) is Some,
    ensures
        partner(defs, ws, did, flag, k) is Some,
    decreases k,
{
    if i < k - 1 {
        lemma_partner_found(defs, ws, did, flag, k - 1, i);
    }
}

proof fn lemma_partner_is_one(
    defs: Definitions,
    ws: Seq<Write>,
    did: DefId,
    flag: Symbol,
    k: int,
)
    requires
        0 <= k <= ws.len(),
    ensures
        partner(defs, ws, did, flag, k) matches Some(o) ==> repeats(ws, did, flag, o) is Some
            && exists|i: int|
            0 <= i < ws.len() && (#[trigger] ws[i]).adt == did && ws[i].kind == Kind::Opt
                && ws[i].field == o,
    decreases k,
{
    if k > 0 {
        lemma_partner_is_one(defs, ws, did, flag, k - 1);
        assert(ws[k - 1].adt == ws[k - 1].adt);
    }
}

proof fn lemma_flag_listed(ws: Seq<Write>, k: int, i: int)
    requires
        0 <= i < k <= ws.len(),
        ws[i].kind == Kind::Bool,
    ensures
        flags(ws, k).contains((ws[i].adt, ws[i].field)),
    decreases k,
{
    crate::table::lemma_added(flags(ws, k - 1), (ws[k - 1].adt, ws[k - 1].field));
    if i < k - 1 {
        lemma_flag_listed(ws, k - 1, i);
    }
}

proof fn lemma_flag_reported(
    defs: Definitions,
    ws: Seq<Write>,
    fs: Seq<(DefId, Symbol)>,
    k: int,
    m: int,
)
    requires
        0 <= m < k <= fs.len(),
        flag_finding(defs, ws, fs[m].0, fs[m].1) is Some,
    ensures
        flag_findings(defs, ws, fs, k).contains(
            flag_finding(defs, ws, fs[m].0, fs[m].1)->Some_0,
        ),
    decreases k,
{
    let x = flag_finding(defs, ws, fs[m].0, fs[m].1)->Some_0;
    let all = flag_findings(defs, ws, fs, k);
    let before = flag_findings(defs, ws, fs, k - 1);
    if m == k - 1 {
        assert(all[all.len() - 1] == x);
    } else {
        lemma_flag_reported(defs, ws, fs, k - 1, m);
        let i = choose|i: int| 0 <= i < before.len() && before[i] == x;
        assert(all[i] == x);
    }
}

/// A flag that is written both ways, and always beside an `Option` with the
/// same polarity or always with the other, is reported at its declaration.
pub proof fn lemma_repeated_flag_is_reported(
    defs: Definitions,
    ws: Seq<Write>,
    did: DefId,
    flag: Symbol,
    opt: Symbol,
    inverted: bool,
    up: int,
    down: int,
    o: int,
)
    requires
        written_beside(ws, did, flag, opt, inverted),
        written_beside(ws, did, opt, flag, inverted),
        0 <= up < ws.len() && ws[up].adt == did && ws[up].field == flag && ws[up].kind
            == Kind::Bool,
        ws[up].site matches Some(s) && s.1,
        0 <= down < ws.len() && ws[down].adt == did && ws[down].field == flag,
        ws[down].site matches Some(s) && !s.1,
        0 <= o < ws.len() && ws[o].adt == did && ws[o].field == opt && ws[o].kind == Kind::Opt,
        struct_field_at(defs, did, flag) is Some,
    ensures
        exists|i: int|
            0 <= i < beside_findings(defs, ws).len() && (#[trigger] beside_findings(
                defs,
                ws,
            )[i]).at == struct_field_at(defs, did, flag)->Some_0.span && beside_findings(
                defs,
                ws,
            )[i].lint == Lint::BoolBesideOption,
{
    lemma_beside(ws, did, flag, opt, inverted);
    lemma_beside(ws, did, opt, flag, inverted);
    let sites = sites_of(ws, did, flag);
    let su = ws[up].site->Some_0;
    let sd = ws[down].site->Some_0;
    lemma_sites(ws, did, flag, su);
    lemma_sites(ws, did, flag, sd);
    assert(sites.contains(su));
    assert(sites.contains(sd));
    let iu = choose|i: int| 0 <= i < sites.len() && sites[i] == su;
    let id = choose|i: int| 0 <= i < sites.len() && sites[i] == sd;
    assert(sites[iu].1 && !sites[id].1);
    assert(varies(sites));
    lemma_sites(ws, did, opt, ws[o].site->Some_0);
    assert(ws[o].site is Some);
    assert(sites_of(ws, did, opt).contains(ws[o].site->Some_0));
    assert(repeats(ws, did, flag, opt) is Some);
    let n = ws.len() as int;
    lemma_partner_found(defs, ws, did, flag, n, o);
    let x = flag_finding(defs, ws, did, flag)->Some_0;
    lemma_flag_listed(ws, n, up);
    let fs = flags(ws, n);
    let m = choose|m: int| 0 <= m < fs.len() && fs[m] == (did, flag);
    lemma_flag_reported(defs, ws, fs, fs.len() as int, m);
    let all = flag_findings(defs, ws, fs, fs.len() as int);
    crate::report::lemma_position_keeps(all);
    assert(beside_findings(defs, ws).contains(x));
    let i = choose|i: int|
        0 <= i < beside_findings(defs, ws).len() && beside_findings(defs, ws)[i] == x;
    assert(beside_findings(defs, ws)[i].lint == Lint::BoolBesideOption);
}

/// Only such a flag is: one write of it apart from the option, of unknown
/// value, or always of one polarity, keeps the lint quiet.
pub proof fn lemma_reported_flag_is_repeated(
    defs: Definitions,
    ws: Seq<Write>,
    did: DefId,
    flag: Symbol,
)
    requires
        flag_finding(defs, ws, did, flag) is Some,
    ensures
        exists|opt: Symbol, inverted: bool| #[trigger]
            written_beside(ws, did, flag, opt, inverted) && written_beside(
                ws,
                did,
                opt,
                flag,
                inverted,
            ) && exists|o: int|
                0 <= o < ws.len() && (#[trigger] ws[o]).adt == did && ws[o].kind == Kind::Opt
                    && ws[o].field == opt,
        exists|i: int|
            0 <= i < ws.len() && (#[trigger] ws[i]).adt == did && ws[i].field == flag && (
            ws[i].site matches Some(s) && s.1),
        exists|i: int|
            0 <= i < ws.len() && (#[trigger] ws[i]).adt == did && ws[i].field == flag && (
            ws[i].site matches Some(s) && !s.1),
{
    let n = ws.len() as int;
    lemma_partner_is_one(defs, ws, did, flag, n);
    let opt = partner(defs, ws, did, flag, n)->Some_0;
    lemma_beside(ws, did, flag, opt, false);
    lemma_beside(ws, did, opt, flag, false);
    lemma_beside(ws, did, flag, opt, true);
    lemma_beside(ws, did, opt, flag, true);
    let inverted = repeats(ws, did, flag, opt)->Some_0;
    assert(written_beside(ws, did, flag, opt, inverted));
    let sites = sites_of(ws, did, flag);
    let iu = choose|i: int| 0 <= i < sites.len() && (#[trigger] sites[i]).1;
    let id = choose|i: int| 0 <= i < sites.len() && !(#[trigger] sites[i]).1;
    assert(sites.contains(sites[iu]) && sites.contains(sites[id]));
    lemma_sites(ws, did, flag, sites[iu]);
    lemma_sites(ws, did, flag, sites[id]);
}

/// Nothing is watched of an enum, of another crate's struct, of one with a
/// fixed layout, or of a field that is exported.
pub proof fn lemma_only_own_fields_are_watched(
    defs: Definitions,
    base: Ty,
    name: Symbol,
    did: DefId,
    f: crate::defs::FieldDef,
)
    requires
        peeled(base) matches Ty::Adt(d, _) && d == did,
        struct_field_at(defs, did, name) == Some(f),
    ensures
        !defs.local(did) ==> watched(defs, base, name) is None,
        !defs.is_struct(did) ==> watched(defs, base, name) is None,
        defs.exported(f.did) ==> watched(defs, base, name) is None,
        (defs.at(did) matches Some(d) && (d.adt matches Some(a) && (a.repr.c || a.repr.packed
            || a.repr.transparent || a.repr.simd || a.repr.int))) ==> watched(defs, base, name)
            is None,
{
    match defs.at(did) {
        Some(d) => match d.adt {
            Some(a) => {
                crate::adt_facts::lemma_any_repr_fixes_layout(a.repr);
            },
            None => {},
        },
        None => {},
    }
}

} // verus!
