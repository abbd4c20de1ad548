//! Two or more growable-sequence fields of one struct whose lengths the crate
//! only ever changes side by side, in the same block and on the same value,
//! and that some function reads at one index or zips together. Element `i` of
//! each is one record kept in several places by hand.
//!
//! One length change of either field without the other beside it disproves
//! the pairing; so does a pair grown together but never read in step.

use crate::defs::{AdtDef, Definitions, FieldDef, Known};
use crate::groups::{
    collect_structs, group_fields, group_views, groups_of, lemma_group_is_never_apart, never_apart,
    structs_written, Group, Write,
};
use crate::hir::{Expr, ExprKind, Parent, Res, UnOp};
use crate::hir_shapes::{adjusted_adt, adt_behind, assigned_field, called_def, callee_of, written_field};
use crate::ids::{DefId, HirId, Symbol};
use crate::parallel_bools::{symbol_texts, texts_of_symbols};
use crate::report::{
    by_position, emit, finding, lemma_by_position, list_names, listed_names, sort_by_position,
    text_at_most, text_le, views, Finding, FindingView, Lint,
};
use crate::table::{add_new, is_in, with_added, Same};
use crate::text::{decimal, number, same};
use crate::ty::Ty;
use vstd::prelude::*;
use vstd::string::*;

verus! {

/// The value a sequence field is read off: by shape, and by identity too when
/// it is a local binding or a projection of one, since every local has one
/// shape.
#[derive(Clone, Copy, Debug)]
pub struct Place {
    pub local: Option<HirId>,
    pub shape: u64,
}

impl Same for Place {
    fn same(&self, other: &Self) -> (r: bool) {
        self.local.same(&other.local) && self.shape == other.shape
    }
}

/// Where a length change happens: the body, the nearest block or match arm,
/// and the value it is applied to.
pub type Site = (DefId, HirId, Place);

/// An indexed read of a sequence field, kept until its body ends.
#[derive(Clone, Copy, Debug)]
pub struct Read {
    pub owner: DefId,
    pub adt: DefId,
    pub field: Symbol,
    pub place: Place,
    /// What the index is, structurally.
    pub index: u32,
}

#[derive(Debug)]
pub struct ParallelVecs {
    pub writes: Vec<Write<Site>>,
    /// A struct and two of its fields, names in order, read at one index.
    pub in_step: Vec<(DefId, Symbol, Symbol)>,
    pub reads: Vec<Read>,
}

#[verifier::ext_equal]
pub struct VecsView {
    pub writes: Seq<Write<Site>>,
    pub in_step: Seq<(DefId, Symbol, Symbol)>,
    pub reads: Seq<Read>,
}

impl View for ParallelVecs {
    type V = VecsView;

    open spec fn view(&self) -> VecsView {
        VecsView { writes: self.writes@, in_step: self.in_step@, reads: self.reads@ }
    }
}

// ---------------------------------------------------------------- names

/// Methods that change a sequence's length.
pub open spec fn changes_length(n: Seq<char>) -> bool {
    n == "push"@ || n == "push_back"@ || n == "push_front"@ || n == "append"@ || n == "insert"@ || n
        == "extend"@ || n == "extend_from_slice"@ || n == "extend_from_within"@ || n == "resize"@
        || n == "resize_with"@ || n == "pop"@ || n == "pop_back"@ || n == "pop_front"@ || n
        == "clear"@ || n == "truncate"@ || n == "remove"@ || n == "swap_remove"@ || n
        == "swap_remove_back"@ || n == "swap_remove_front"@ || n == "drain"@ || n == "retain"@ || n
        == "retain_mut"@ || n == "dedup"@ || n == "dedup_by"@ || n == "dedup_by_key"@ || n
        == "split_off"@ || n == "set_len"@ || n == "splice"@ || n == "append_assume_capacity"@
}

fn is_len_op(n: &str) -> (r: bool)
    ensures
        r == changes_length(n@),
{
    same(n, "push") || same(n, "push_back") || same(n, "push_front") || same(n, "append") || same(
        n,
        "insert",
    ) || same(n, "extend") || same(n, "extend_from_slice") || same(n, "extend_from_within") || same(
        n,
        "resize",
    ) || same(n, "resize_with") || same(n, "pop") || same(n, "pop_back") || same(n, "pop_front")
        || same(n, "clear") || same(n, "truncate") || same(n, "remove") || same(n, "swap_remove")
        || same(n, "swap_remove_back") || same(n, "swap_remove_front") || same(n, "drain") || same(
        n,
        "retain",
    ) || same(n, "retain_mut") || same(n, "dedup") || same(n, "dedup_by") || same(n, "dedup_by_key")
        || same(n, "split_off") || same(n, "set_len") || same(n, "splice") || same(
        n,
        "append_assume_capacity",
    )
}

/// Positional reads with one index argument.
pub open spec fn reads_by_index(n: Seq<char>) -> bool {
    n == "get"@ || n == "get_mut"@ || n == "get_unchecked"@ || n == "get_unchecked_mut"@
}

fn is_get_op(n: &str) -> (r: bool)
    ensures
        r == reads_by_index(n@),
{
    same(n, "get") || same(n, "get_mut") || same(n, "get_unchecked") || same(
        n,
        "get_unchecked_mut",
    )
}

/// Adapters between a sequence and the `zip` that pairs it.
pub open spec fn iterates(n: Seq<char>) -> bool {
    n == "iter"@ || n == "iter_mut"@ || n == "into_iter"@ || n == "copied"@ || n == "cloned"@ || n
        == "by_ref"@ || n == "drain"@
}

fn is_iter_adapter(n: &str) -> (r: bool)
    ensures
        r == iterates(n@),
{
    same(n, "iter") || same(n, "iter_mut") || same(n, "into_iter") || same(n, "copied") || same(
        n,
        "cloned",
    ) || same(n, "by_ref") || same(n, "drain")
}

// ---------------------------------------------------------------- sequences

/// Some definition of the list has the name.
pub open spec fn some_named(defs: Definitions, items: Seq<DefId>, name: Seq<char>) -> bool {
    exists|i: int| 0 <= i < items.len() && defs.name_text(#[trigger] items[i]) == name
}

/// Some inherent impl of the type has a definition of the name.
pub open spec fn has_method(defs: Definitions, adt: AdtDef, name: Seq<char>) -> bool {
    exists|k: int|
        0 <= k < adt.inherent@.len() && some_named(defs, (#[trigger] adt.inherent@[k])@, name)
}

fn is_some_named(defs: &Definitions, items: &Vec<DefId>, name: &str) -> (r: bool)
    ensures
        r == some_named(*defs, items@, name@),
{
    let mut i: usize = 0;
    while i < items.len()
        invariant
            i <= items@.len(),
            forall|j: int| 0 <= j < i ==> defs.name_text(#[trigger] items@[j]) != name@,
        decreases items.len() - i,
    {
        if same(defs.name_of(items[i]), name) {
            assert(defs.name_text(items@[i as int]) == name@);
            return true;
        }
        i = i + 1;
    }
    false
}

fn has_inherent_method(defs: &Definitions, adt: &AdtDef, name: &str) -> (r: bool)
    ensures
        r == has_method(*defs, *adt, name@),
{
    let mut k: usize = 0;
    while k < adt.inherent.len()
        invariant
            k <= adt.inherent@.len(),
            forall|j: int|
                0 <= j < k ==> !some_named(*defs, (#[trigger] adt.inherent@[j])@, name@),
        decreases adt.inherent.len() - k,
    {
        if is_some_named(defs, &adt.inherent[k], name) {
            assert(some_named(*defs, adt.inherent@[k as int]@, name@));
            return true;
        }
        k = k + 1;
    }
    false
}

/// `Vec`, `VecDeque`, or a type that grows, reports a length, and is read by
/// position.
pub open spec fn sequence(defs: Definitions, ty: Ty) -> bool {
    match ty {
        Ty::Adt(did, _) => defs.known(did) == Known::VecType || defs.known(did)
            == Known::VecDequeType || match defs.adt(did) {
            Some(adt) => (adt.indexes || has_method(defs, adt, "get"@) || has_method(
                defs,
                adt,
                "at"@,
            )) && (has_method(defs, adt, "push"@) || has_method(defs, adt, "push_back"@)
                || has_method(defs, adt, "append"@)) && has_method(defs, adt, "len"@),
            None => false,
        },
        _ => false,
    }
}

fn is_sequence(defs: &Definitions, ty: &Ty) -> (r: bool)
    ensures
        r == sequence(*defs, *ty),
{
    match ty {
        Ty::Adt(did, _) => {
            match defs.known_as(*did) {
                Known::VecType | Known::VecDequeType => {
                    return true;
                },
                _ => {},
            }
            match defs.adt_of(*did) {
                Some(adt) => (adt.indexes || has_inherent_method(defs, adt, "get")
                    || has_inherent_method(defs, adt, "at")) && (has_inherent_method(
                    defs,
                    adt,
                    "push",
                ) || has_inherent_method(defs, adt, "push_back") || has_inherent_method(
                    defs,
                    adt,
                    "append",
                )) && has_inherent_method(defs, adt, "len"),
                None => false,
            }
        },
        _ => false,
    }
}

/// The field is a sequence only the crate can write.
pub open spec fn writable_here(defs: Definitions, did: DefId, f: FieldDef) -> bool {
    (!defs.exported(did) || f.visible_in is Some) && sequence(defs, f.ty)
}

/// The names of such fields among the first `k`.
pub open spec fn sequence_names(
    defs: Definitions,
    did: DefId,
    fields: Seq<FieldDef>,
    k: int,
) -> Seq<Symbol>
    decreases k,
{
    if k <= 0 {
        Seq::empty()
    } else {
        let before = sequence_names(defs, did, fields, k - 1);
        if writable_here(defs, did, fields[k - 1]) {
            before.push(fields[k - 1].name)
        } else {
            before
        }
    }
}

/// The sequence fields of a struct of the crate, when there are two of them.
pub open spec fn candidates(defs: Definitions, did: DefId) -> Seq<Symbol> {
    let names = sequence_names(defs, did, defs.fields(did), defs.fields(did).len() as int);
    if defs.is_struct(did) && defs.local(did) && names.len() >= 2 {
        names
    } else {
        Seq::empty()
    }
}

fn collect_candidates(defs: &Definitions, did: DefId) -> (r: Vec<Symbol>)
    ensures
        r@ == candidates(*defs, did),
{
    let mut out: Vec<Symbol> = Vec::new();
    if !defs.struct_here(did) || !defs.is_local(did) {
        return out;
    }
    let exported = defs.is_exported(did);
    match defs.fields_of(did) {
        Some(fields) => {
            let mut i: usize = 0;
            while i < fields.len()
                invariant
                    i <= fields@.len(),
                    exported == defs.exported(did),
                    out@ == sequence_names(*defs, did, fields@, i as int),
                decreases fields.len() - i,
            {
                if (!exported || fields[i].visible_in.is_some()) && is_sequence(
                    defs,
                    &fields[i].ty,
                ) {
                    out.push(fields[i].name);
                }
                i = i + 1;
            }
            if out.len() < 2 {
                out = Vec::new();
            }
            out
        },
        None => out,
    }
}

/// The local binding a place expression projects from.
pub open spec fn local_root(e: Expr) -> Option<HirId>
    decreases e,
{
    match e.kind {
        ExprKind::Field(inner, _) => local_root(*inner),
        ExprKind::Index(inner, _) => local_root(*inner),
        ExprKind::AddrOf(_, _, inner) => local_root(*inner),
        ExprKind::Unary(UnOp::Deref, inner) => local_root(*inner),
        ExprKind::DropTemps(inner) => local_root(*inner),
        ExprKind::Path(p) => match p.res {
            Res::Local(id) => Some(id),
            _ => None,
        },
        _ => None,
    }
}

fn root_local(e: &Expr) -> (r: Option<HirId>)
    ensures
        r == local_root(*e),
    decreases e,
{
    match &e.kind {
        ExprKind::Field(inner, _) => root_local(inner),
        ExprKind::Index(inner, _) => root_local(inner),
        ExprKind::AddrOf(_, _, inner) => root_local(inner),
        ExprKind::Unary(UnOp::Deref, inner) => root_local(inner),
        ExprKind::DropTemps(inner) => root_local(inner),
        ExprKind::Path(p) => match p.res {
            Res::Local(id) => Some(id),
            _ => None,
        },
        _ => None,
    }
}

/// `base.field` as a candidate sequence field: its struct, and the value it is
/// read off.
pub open spec fn sequence_field(
    defs: Definitions,
    base: Expr,
    field: Symbol,
) -> Option<(DefId, Place)> {
    match adjusted_adt(base) {
        Some(did) => if candidates(defs, did).contains(field) {
            Some((did, Place { local: local_root(base), shape: base.shape }))
        } else {
            None
        },
        None => None,
    }
}

fn as_sequence_field(defs: &Definitions, base: &Expr, field: Symbol) -> (r: Option<
    (DefId, Place),
>)
    ensures
        r == sequence_field(*defs, *base, field),
{
    match adt_behind(base) {
        Some(did) => if is_in(&collect_candidates(defs, did), &field) {
            Some((did, Place { local: root_local(base), shape: base.shape }))
        } else {
            None
        },
        None => None,
    }
}

// ---------------------------------------------------------------- transitions

/// The nearest block or match arm around a node: two length changes are side
/// by side when they share it.
pub open spec fn step_scope(parents: Seq<Parent>, k: int, at: HirId) -> HirId
    decreases parents.len() - k,
{
    if k >= parents.len() {
        at
    } else {
        match parents[k] {
            Parent::Block(b) => b.id,
            Parent::Arm(a) => a.id,
            Parent::Item(_) => at,
            _ => step_scope(parents, k + 1, at),
        }
    }
}

fn scope_of_step(parents: &Vec<Parent>, at: HirId) -> (r: HirId)
    ensures
        r == step_scope(parents@, 0, at),
{
    let mut k: usize = 0;
    while k < parents.len()
        invariant
            k <= parents@.len(),
            step_scope(parents@, 0, at) == step_scope(parents@, k as int, at),
        decreases parents.len() - k,
    {
        match &parents[k] {
            Parent::Block(b) => {
                return b.id;
            },
            Parent::Arm(a) => {
                return a.id;
            },
            Parent::Item(_) => {
                return at;
            },
            _ => {},
        }
        k = k + 1;
    }
    at
}

/// A length change of `base.field` at `at`, in `owner`.
pub open spec fn with_write(
    defs: Definitions,
    s: VecsView,
    owner: DefId,
    at: Expr,
    parents: Seq<Parent>,
    base: Expr,
    field: Symbol,
) -> VecsView {
    match sequence_field(defs, base, field) {
        Some((adt, place)) => VecsView {
            writes: s.writes.push(((adt, field), (owner, step_scope(parents, 0, at.id), place))),
            ..s
        },
        None => s,
    }
}

/// A struct and two of its fields, the names in order.
pub open spec fn ordered(
    defs: Definitions,
    adt: DefId,
    a: Symbol,
    b: Symbol,
) -> (DefId, Symbol, Symbol) {
    if text_le(defs.text(a), defs.text(b)) {
        (adt, a, b)
    } else {
        (adt, b, a)
    }
}

fn order_names(defs: &Definitions, adt: DefId, a: Symbol, b: Symbol) -> (r: (
    DefId,
    Symbol,
    Symbol,
))
    ensures
        r == ordered(*defs, adt, a, b),
{
    if text_at_most(defs.text_of(a), defs.text_of(b)) {
        (adt, a, b)
    } else {
        (adt, b, a)
    }
}

/// An earlier read is of another field of the same value, at the same index.
pub open spec fn keeps_step(earlier: Read, r: Read) -> bool {
    earlier.owner == r.owner && earlier.adt == r.adt && earlier.field != r.field && earlier.place
        == r.place && earlier.index == r.index
}

/// The pairs a read makes with the first `k` reads.
pub open spec fn steps_with(
    defs: Definitions,
    in_step: Seq<(DefId, Symbol, Symbol)>,
    reads: Seq<Read>,
    r: Read,
    k: int,
) -> Seq<(DefId, Symbol, Symbol)>
    decreases k,
{
    if k <= 0 {
        in_step
    } else {
        let before = steps_with(defs, in_step, reads, r, k - 1);
        if keeps_step(reads[k - 1], r) {
            with_added(before, ordered(defs, r.adt, reads[k - 1].field, r.field))
        } else {
            before
        }
    }
}

/// An indexed read of `base.field` in `owner`.
pub open spec fn with_read(
    defs: Definitions,
    s: VecsView,
    owner: DefId,
    base: Expr,
    field: Symbol,
    index: Expr,
) -> VecsView {
    match sequence_field(defs, base, field) {
        Some((adt, place)) => {
            let r = Read { owner, adt, field, place, index: index.structure };
            VecsView {
                in_step: steps_with(defs, s.in_step, s.reads, r, s.reads.len() as int),
                reads: s.reads.push(r),
                ..s
            }
        },
        None => s,
    }
}

/// The `base.field` a `zip` operand iterates.
pub open spec fn zipped_field(defs: Definitions, e: Expr) -> Option<(Expr, Symbol)>
    decreases e,
{
    match e.kind {
        ExprKind::AddrOf(_, _, inner) => zipped_field(defs, *inner),
        ExprKind::DropTemps(inner) => zipped_field(defs, *inner),
        ExprKind::MethodCall(name, recv, _) => if iterates(defs.text(name)) {
            zipped_field(defs, *recv)
        } else {
            None
        },
        ExprKind::Field(base, name) => Some((*base, name)),
        _ => None,
    }
}

fn field_zipped<'a>(defs: &Definitions, e: &'a Expr) -> (r: Option<(&'a Expr, Symbol)>)
    ensures
        match r {
            Some(p) => zipped_field(*defs, *e) == Some((*p.0, p.1)),
            None => zipped_field(*defs, *e) is None,
        },
    decreases e,
{
    match &e.kind {
        ExprKind::AddrOf(_, _, inner) => field_zipped(defs, inner),
        ExprKind::DropTemps(inner) => field_zipped(defs, inner),
        ExprKind::MethodCall(name, recv, _) => if is_iter_adapter(defs.text_of(*name)) {
            field_zipped(defs, recv)
        } else {
            None
        },
        ExprKind::Field(base, name) => Some((&**base, *name)),
        _ => None,
    }
}

/// `zip` over two sequence fields of one value reads them in step.
pub open spec fn with_zip(defs: Definitions, s: VecsView, l: Expr, r: Expr) -> VecsView {
    match (zipped_field(defs, l), zipped_field(defs, r)) {
        (Some((lb, lf)), Some((rb, rf))) => match (
            sequence_field(defs, lb, lf),
            sequence_field(defs, rb, rf),
        ) {
            (Some((la, lp)), Some((ra, rp))) => if la == ra && lf != rf && lp == rp {
                VecsView { in_step: with_added(s.in_step, ordered(defs, la, lf, rf)), ..s }
            } else {
                s
            },
            _ => s,
        },
        _ => s,
    }
}

/// `&mut s.a` in a `for` head iterates; anywhere else it is handed to code
/// that may change the length.
pub open spec fn for_head(parents: Seq<Parent>) -> bool {
    parents.len() > 0 && match parents[0] {
        Parent::Expr(p) => p.kind is Call && p.origin.for_loop,
        _ => false,
    }
}

fn is_for_loop_head(parents: &Vec<Parent>) -> (r: bool)
    ensures
        r == for_head(parents@),
{
    parents.len() > 0 && match &parents[0] {
        Parent::Expr(p) => match &p.kind {
            ExprKind::Call(_, _) => p.origin.for_loop,
            _ => false,
        },
        _ => false,
    }
}

/// What is known once an expression in `owner` has been visited.
pub open spec fn after_expr(
    defs: Definitions,
    s: VecsView,
    owner: DefId,
    e: Expr,
    parents: Seq<Parent>,
) -> VecsView {
    match e.kind {
        ExprKind::MethodCall(name, recv, args) => if defs.text(name) == "zip"@ && args@.len() == 1 {
            with_zip(defs, s, *recv, args@[0])
        } else {
            match recv.kind {
                ExprKind::Field(base, field) => if changes_length(defs.text(name)) {
                    with_write(defs, s, owner, e, parents, *base, field)
                } else if reads_by_index(defs.text(name)) && args@.len() == 1 {
                    with_read(defs, s, owner, *base, field, args@[0])
                } else {
                    s
                },
                _ => s,
            }
        },
        ExprKind::Call(_, args) => match called_def(e) {
            Some(d) => if args@.len() == 2 && defs.name_text(d) == "zip"@ {
                with_zip(defs, s, args@[0], args@[1])
            } else {
                s
            },
            None => s,
        },
        ExprKind::Index(target, idx) => match target.kind {
            ExprKind::Field(base, field) => with_read(defs, s, owner, *base, field, *idx),
            _ => s,
        },
        ExprKind::Assign(target, _) => match written_field(*target) {
            Some((base, field)) => with_write(defs, s, owner, e, parents, base, field),
            None => s,
        },
        ExprKind::AssignOp(target, _) => match written_field(*target) {
            Some((base, field)) => with_write(defs, s, owner, e, parents, base, field),
            None => s,
        },
        ExprKind::AddrOf(raw, mutable, inner) => match written_field(*inner) {
            Some((base, field)) => if !raw && mutable && !for_head(parents) {
                with_write(defs, s, owner, e, parents, base, field)
            } else {
                s
            },
            None => s,
        },
        _ => s,
    }
}

/// The reads of other bodies.
pub open spec fn reads_outside(reads: Seq<Read>, owner: DefId) -> Seq<Read>
    decreases reads.len(),
{
    if reads.len() == 0 {
        Seq::empty()
    } else {
        let before = reads_outside(reads.drop_last(), owner);
        if reads.last().owner == owner {
            before
        } else {
            before.push(reads.last())
        }
    }
}

/// What is known once a body has ended.
pub open spec fn after_body(s: VecsView, owner: DefId) -> VecsView {
    VecsView { reads: reads_outside(s.reads, owner), ..s }
}

// ---------------------------------------------------------------- conclusions

/// Some two of the fields are read in step.
pub open spec fn stepped(
    defs: Definitions,
    in_step: Seq<(DefId, Symbol, Symbol)>,
    adt: DefId,
    ms: Seq<Symbol>,
) -> bool {
    exists|i: int, j: int|
        0 <= i < ms.len() && 0 <= j < ms.len() && in_step.contains(
            #[trigger] ordered(defs, adt, ms[i], ms[j]),
        )
}

pub open spec fn vecs_finding(defs: Definitions, did: DefId, g: Group<Site>) -> FindingView {
    finding(
        Lint::ParallelVecs,
        defs.span(did),
        "parallel vecs: the fields "@ + listed_names(symbol_texts(defs, g.members)) + " of `"@
            + defs.path_text(did) + "` only change length together ("@ + decimal(g.sites.len())
            + " "@ + (if g.sites.len() == 1 {
            "block"@
        } else {
            "blocks"@
        })
            + ") and are read at one index, so element `i` of each is one record kept in "@
            + decimal(g.members.len()) + " places"@,
        "one `Vec` of a struct with these fields holds the pairing in the type and cannot let the lengths differ"@,
    )
}

/// What is said of the first `k` groups of a struct.
pub open spec fn group_findings(
    defs: Definitions,
    in_step: Seq<(DefId, Symbol, Symbol)>,
    did: DefId,
    gs: Seq<Group<Site>>,
    k: int,
) -> Seq<FindingView>
    decreases k,
{
    if k <= 0 {
        Seq::empty()
    } else {
        let before = group_findings(defs, in_step, did, gs, k - 1);
        let g = gs[k - 1];
        if g.members.len() >= 2 && stepped(defs, in_step, did, g.members) {
            before.push(vecs_finding(defs, did, g))
        } else {
            before
        }
    }
}

/// What is said of the first `k` structs.
pub open spec fn struct_findings(
    defs: Definitions,
    s: VecsView,
    structs: Seq<DefId>,
    k: int,
) -> Seq<FindingView>
    decreases k,
{
    if k <= 0 {
        Seq::empty()
    } else {
        let gs = groups_of(defs, s.writes, structs[k - 1]);
        struct_findings(defs, s, structs, k - 1) + group_findings(
            defs,
            s.in_step,
            structs[k - 1],
            gs,
            gs.len() as int,
        )
    }
}

/// What the lint says of the crate, in source order.
pub open spec fn parallel_findings(defs: Definitions, s: VecsView) -> Seq<FindingView> {
    let structs = structs_written(s.writes, s.writes.len() as int);
    by_position(struct_findings(defs, s, structs, structs.len() as int))
}

impl ParallelVecs {
    pub fn new() -> (r: Self)
        ensures
            r@ == (VecsView { writes: Seq::empty(), in_step: Seq::empty(), reads: Seq::empty() }),
    {
        ParallelVecs { writes: Vec::new(), in_step: Vec::new(), reads: Vec::new() }
    }

    fn record_write(
        &mut self,
        defs: &Definitions,
        owner: DefId,
        at: &Expr,
        parents: &Vec<Parent>,
        base: &Expr,
        field: Symbol,
    )
        ensures
            final(self)@ == with_write(*defs, old(self)@, owner, *at, parents@, *base, field),
    {
        let ghost before = self@;
        match as_sequence_field(defs, base, field) {
            Some((adt, place)) => {
                let scope = scope_of_step(parents, at.id);
                self.writes.push(((adt, field), (owner, scope, place)));
                assert(self@ =~= with_write(*defs, before, owner, *at, parents@, *base, field));
            },
            None => {},
        }
    }

    fn record_index(
        &mut self,
        defs: &Definitions,
        owner: DefId,
        base: &Expr,
        field: Symbol,
        index: &Expr,
    )
        ensures
            final(self)@ == with_read(*defs, old(self)@, owner, *base, field, *index),
    {
        let ghost before = self@;
        match as_sequence_field(defs, base, field) {
            Some((adt, place)) => {
                let r = Read { owner, adt, field, place, index: index.structure };
                let mut k: usize = 0;
                while k < self.reads.len()
                    invariant
                        k <= self.reads@.len(),
                        r.adt == adt,
                        r.field == field,
                        self@.reads == before.reads,
                        self@.writes == before.writes,
                        self.in_step@ == steps_with(
                            *defs,
                            before.in_step,
                            before.reads,
                            r,
                            k as int,
                        ),
                    decreases self.reads.len() - k,
                {
                    let earlier: Read = self.reads[k];
                    assert(before.reads[k as int] == earlier);
                    if earlier.owner == r.owner && earlier.adt == r.adt && earlier.field != r.field
                        && earlier.place.same(&r.place) && earlier.index == r.index {
                        add_new(&mut self.in_step, order_names(defs, adt, earlier.field, field));
                    }
                    k = k + 1;
                }
                self.reads.push(r);
                assert(self@ =~= with_read(*defs, before, owner, *base, field, *index));
            },
            None => {},
        }
    }

    fn record_zip(&mut self, defs: &Definitions, l: &Expr, r: &Expr)
        ensures
            final(self)@ == with_zip(*defs, old(self)@, *l, *r),
    {
        let ghost before = self@;
        match (field_zipped(defs, l), field_zipped(defs, r)) {
            (Some((lb, lf)), Some((rb, rf))) => {
                match (as_sequence_field(defs, lb, lf), as_sequence_field(defs, rb, rf)) {
                    (Some((la, lp)), Some((ra, rp))) => {
                        if la == ra && lf != rf && lp.same(&rp) {
                            add_new(&mut self.in_step, order_names(defs, la, lf, rf));
                            assert(self@ =~= with_zip(*defs, before, *l, *r));
                        }
                    },
                    _ => {},
                }
            },
            _ => {},
        }
    }

    /// Visits an expression in `owner`.
    pub fn check_expr(
        &mut self,
        defs: &Definitions,
        owner: DefId,
        e: &Expr,
        parents: &Vec<Parent>,
    )
        ensures
            final(self)@ == after_expr(*defs, old(self)@, owner, *e, parents@),
    {
        match &e.kind {
            ExprKind::MethodCall(name, recv, args) => {
                let n = defs.text_of(*name);
                if same(n, "zip") && args.len() == 1 {
                    self.record_zip(defs, recv, &args[0]);
                } else {
                    match &recv.kind {
                        ExprKind::Field(base, field) => {
                            if is_len_op(n) {
                                self.record_write(defs, owner, e, parents, base, *field);
                            } else if is_get_op(n) && args.len() == 1 {
                                self.record_index(defs, owner, base, *field, &args[0]);
                            }
                        },
                        _ => {},
                    }
                }
            },
            ExprKind::Call(_, args) => {
                match callee_of(e) {
                    Some(c) => {
                        if args.len() == 2 && same(defs.name_of(c.def), "zip") {
                            self.record_zip(defs, &args[0], &args[1]);
                        }
                    },
                    None => {},
                }
            },
            ExprKind::Index(target, idx) => {
                match &target.kind {
                    ExprKind::Field(base, field) => {
                        self.record_index(defs, owner, base, *field, idx);
                    },
                    _ => {},
                }
            },
            ExprKind::Assign(target, _) => {
                match assigned_field(target) {
                    Some((base, field)) => {
                        self.record_write(defs, owner, e, parents, base, field);
                    },
                    None => {},
                }
            },
            ExprKind::AssignOp(target, _) => {
                match assigned_field(target) {
                    Some((base, field)) => {
                        self.record_write(defs, owner, e, parents, base, field);
                    },
                    None => {},
                }
            },
            ExprKind::AddrOf(raw, mutable, inner) => {
                match assigned_field(inner) {
                    Some((base, field)) => {
                        if !*raw && *mutable && !is_for_loop_head(parents) {
                            self.record_write(defs, owner, e, parents, base, field);
                        }
                    },
                    None => {},
                }
            },
            _ => {},
        }
    }

    /// A body has ended.
    pub fn check_body_post(&mut self, owner: DefId)
        ensures
            final(self)@ == after_body(old(self)@, owner),
    {
        let ghost before = self@;
        let mut kept: Vec<Read> = Vec::new();
        let mut i: usize = 0;
        while i < self.reads.len()
            invariant
                i <= self.reads@.len(),
                self@ == before,
                kept@ == reads_outside(before.reads.take(i as int), owner),
            decreases self.reads.len() - i,
        {
            assert(before.reads.take(i + 1).drop_last() =~= before.reads.take(i as int));
            let r: Read = self.reads[i];
            if r.owner != owner {
                kept.push(r);
            }
            i = i + 1;
        }
        assert(before.reads.take(i as int) =~= before.reads);
        self.reads = kept;
        assert(self@ =~= after_body(before, owner));
    }

    fn read_in_step(&self, defs: &Definitions, adt: DefId, ms: &Vec<Symbol>) -> (r: bool)
        ensures
            r == stepped(*defs, self@.in_step, adt, ms@),
    {
        let ghost steps = self@.in_step;
        let mut i: usize = 0;
        while i < ms.len()
            invariant
                i <= ms@.len(),
                steps == self.in_step@,
                forall|p: int, q: int|
                    0 <= p < i && 0 <= q < ms@.len() ==> !steps.contains(
                        #[trigger] ordered(*defs, adt, ms@[p], ms@[q]),
                    ),
            decreases ms.len() - i,
        {
            let mut j: usize = 0;
            while j < ms.len()
                invariant
                    i < ms@.len(),
                    j <= ms@.len(),
                    steps == self.in_step@,
                    forall|q: int|
                        0 <= q < j ==> !steps.contains(
                            #[trigger] ordered(*defs, adt, ms@[i as int], ms@[q]),
                        ),
                decreases ms.len() - j,
            {
                if is_in(&self.in_step, &order_names(defs, adt, ms[i], ms[j])) {
                    assert(steps.contains(ordered(*defs, adt, ms@[i as int], ms@[j as int])));
                    return true;
                }
                j = j + 1;
            }
            i = i + 1;
        }
        false
    }

    /// What the lint says of the crate, in source order.
    pub fn check_crate_post(&self, defs: &Definitions) -> (r: Vec<Finding>)
        ensures
            views(r@) == parallel_findings(*defs, self@),
    {
        let structs = collect_structs(&self.writes);
        let mut out: Vec<Finding> = Vec::new();
        let mut i: usize = 0;
        assert(views(out@) =~= Seq::<FindingView>::empty());
        while i < structs.len()
            invariant
                i <= structs@.len(),
                views(out@) == struct_findings(*defs, self@, structs@, i as int),
            decreases structs.len() - i,
        {
            let did = structs[i];
            let gs = group_fields(defs, &self.writes, did);
            let ghost all = groups_of(*defs, self@.writes, did);
            let ghost start = views(out@);
            let mut k: usize = 0;
            assert(views(out@) =~= start + group_findings(*defs, self@.in_step, did, all, 0));
            while k < gs.len()
                invariant
                    k <= gs@.len(),
                    group_views(gs@) == all,
                    views(out@) == start + group_findings(
                        *defs,
                        self@.in_step,
                        did,
                        all,
                        k as int,
                    ),
                decreases gs.len() - k,
            {
                let g = &gs[k];
                assert(all[k as int] == g@);
                if g.members.len() >= 2 && self.read_in_step(defs, did, &g.members) {
                    let names = texts_of_symbols(defs, &g.members);
                    let mut msg = String::from_str("parallel vecs: the fields ");
                    msg.append(list_names(&names).as_str());
                    msg.append(" of `");
                    msg.append(defs.path_of(did));
                    msg.append("` only change length together (");
                    msg.append(number(g.sites.len() as u128).as_str());
                    msg.append(" ");
                    msg.append(
                        if g.sites.len() == 1 {
                            "block"
                        } else {
                            "blocks"
                        },
                    );
                    msg.append(
                        ") and are read at one index, so element `i` of each is one record kept in ",
                    );
                    msg.append(number(g.members.len() as u128).as_str());
                    msg.append(" places");
                    emit(
                        &mut out,
                        Lint::ParallelVecs,
                        defs.span_of(did),
                        msg,
                        "one `Vec` of a struct with these fields holds the pairing in the type and cannot let the lengths differ",
                    );
                }
                k = k + 1;
                assert(views(out@) =~= start + group_findings(
                    *defs,
                    self@.in_step,
                    did,
                    all,
                    k as int,
                ));
            }
            assert(all.len() == gs@.len());
            i = i + 1;
        }
        sort_by_position(out)
    }
}

/// The finding is of sequences that never change length apart and of which two
/// are read in step.
pub open spec fn reported_record(
    defs: Definitions,
    s: VecsView,
    did: DefId,
    g: Group<Site>,
    f: FindingView,
) -> bool {
    never_apart(s.writes, did, g.members) && g.members.len() >= 2 && stepped(
        defs,
        s.in_step,
        did,
        g.members,
    ) && f == vecs_finding(defs, did, g)
}

proof fn lemma_group_reported(
    defs: Definitions,
    s: VecsView,
    did: DefId,
    gs: Seq<Group<Site>>,
    k: int,
    f: FindingView,
)
    requires
        gs == groups_of(defs, s.writes, did),
        0 <= k <= gs.len(),
        group_findings(defs, s.in_step, did, gs, k).contains(f),
    ensures
        exists|g: Group<Site>| #[trigger] reported_record(defs, s, did, g, f),
    decreases k,
{
    if k > 0 {
        let all = group_findings(defs, s.in_step, did, gs, k);
        let before = group_findings(defs, s.in_step, did, gs, k - 1);
        let i = choose|i: int| 0 <= i < all.len() && all[i] == f;
        if i < before.len() {
            assert(before[i] == f);
            assert(before.contains(f));
            lemma_group_reported(defs, s, did, gs, k - 1, f);
        } else {
            let g = gs[k - 1];
            assert(gs.contains(g));
            lemma_group_is_never_apart(defs, s.writes, did, g);
            assert(reported_record(defs, s, did, g, f));
        }
    }
}

proof fn lemma_struct_reported(
    defs: Definitions,
    s: VecsView,
    structs: Seq<DefId>,
    k: int,
    f: FindingView,
)
    requires
        struct_findings(defs, s, structs, k).contains(f),
    ensures
        exists|did: DefId, g: Group<Site>| #[trigger] reported_record(defs, s, did, g, f),
    decreases k,
{
    if k > 0 {
        let before = struct_findings(defs, s, structs, k - 1);
        let did = structs[k - 1];
        let gs = groups_of(defs, s.writes, did);
        let here = group_findings(defs, s.in_step, did, gs, gs.len() as int);
        let all = before + here;
        let i = choose|i: int| 0 <= i < all.len() && all[i] == f;
        if i < before.len() {
            assert(before[i] == f);
            assert(before.contains(f));
            lemma_struct_reported(defs, s, structs, k - 1, f);
        } else {
            assert(here[i - before.len()] == f);
            assert(here.contains(f));
            lemma_group_reported(defs, s, did, gs, gs.len() as int, f);
        }
    }
}

/// Every finding is of sequences whose lengths only ever change side by side
/// and of which two are read at one index: one block that changes the length
/// of one alone keeps the lint silent.
pub proof fn lemma_reported_sequences_are_never_apart(
    defs: Definitions,
    s: VecsView,
    f: FindingView,
)
    requires
        parallel_findings(defs, s).contains(f),
    ensures
        exists|did: DefId, g: Group<Site>| #[trigger] reported_record(defs, s, did, g, f),
{
    let structs = structs_written(s.writes, s.writes.len() as int);
    let unsorted = struct_findings(defs, s, structs, structs.len() as int);
    let sorted = by_position(unsorted);
    lemma_by_position(unsorted);
    sorted.to_multiset_ensures();
    unsorted.to_multiset_ensures();
    assert(sorted.to_multiset().count(f) > 0);
    assert(unsorted.contains(f));
    lemma_struct_reported(defs, s, structs, structs.len() as int, f);
}

/// `Vec` and `VecDeque` are sequences, and so is a type of one's own that
/// grows, reports a length and is read by position; a type that lacks one of
/// these is not.
pub proof fn lemma_sequences_grow_and_are_read_by_position(
    defs: Definitions,
    did: DefId,
    args: Vec<Ty>,
    adt: AdtDef,
)
    requires
        defs.adt(did) == Some(adt),
    ensures
        defs.known(did) == Known::VecType || defs.known(did) == Known::VecDequeType ==> sequence(
            defs,
            Ty::Adt(did, args),
        ),
        has_method(defs, adt, "len"@) && (has_method(defs, adt, "push"@) || has_method(
            defs,
            adt,
            "push_back"@,
        ) || has_method(defs, adt, "append"@)) && (adt.indexes || has_method(defs, adt, "get"@)
            || has_method(defs, adt, "at"@)) ==> sequence(defs, Ty::Adt(did, args)),
        defs.known(did) == Known::Unlisted && !has_method(defs, adt, "len"@) ==> !sequence(
            defs,
            Ty::Adt(did, args),
        ),
        defs.known(did) == Known::Unlisted && !has_method(defs, adt, "push"@) && !has_method(
            defs,
            adt,
            "push_back"@,
        ) && !has_method(defs, adt, "append"@) ==> !sequence(defs, Ty::Adt(did, args)),
        defs.known(did) == Known::Unlisted && !adt.indexes && !has_method(defs, adt, "get"@)
            && !has_method(defs, adt, "at"@) ==> !sequence(defs, Ty::Adt(did, args)),
{
}

proof fn lemma_sequence_name(
    defs: Definitions,
    did: DefId,
    fields: Seq<FieldDef>,
    k: int,
    name: Symbol,
)
    requires
        0 <= k <= fields.len(),
    ensures
        sequence_names(defs, did, fields, k).contains(name) <==> exists|i: int|
            0 <= i < k && writable_here(defs, did, #[trigger] fields[i]) && fields[i].name == name,
    decreases k,
{
    if k > 0 {
        lemma_sequence_name(defs, did, fields, k - 1, name);
        let before = sequence_names(defs, did, fields, k - 1);
        let all = sequence_names(defs, did, fields, k);
        if before.contains(name) {
            let i = choose|i: int| 0 <= i < before.len() && before[i] == name;
            assert(all[i] == name);
        }
        if writable_here(defs, did, fields[k - 1]) {
            assert(all[all.len() - 1] == fields[k - 1].name);
        }
        if all.contains(name) {
            let i = choose|i: int| 0 <= i < all.len() && all[i] == name;
            if i < before.len() {
                assert(before[i] == name);
            }
        }
    }
}

/// The candidates are the sequence fields of the crate's own structs that only
/// the crate can write: where the struct is exported, a field it keeps to
/// itself.
pub proof fn lemma_own_sequences_are_candidates(
    defs: Definitions,
    did: DefId,
    i: int,
    j: int,
)
    requires
        defs.at(did) matches Some(d) && d.is_local && (d.adt matches Some(a) && a.kind
            == crate::defs::AdtKind::Struct),
        0 <= i < defs.fields(did).len(),
        0 <= j < defs.fields(did).len(),
        defs.fields(did)[i].name != defs.fields(did)[j].name,
        sequence(defs, defs.fields(did)[i].ty),
        sequence(defs, defs.fields(did)[j].ty),
        !defs.exported(did) || (defs.fields(did)[i].visible_in is Some
            && defs.fields(did)[j].visible_in is Some),
    ensures
        candidates(defs, did).contains(defs.fields(did)[i].name),
        candidates(defs, did).contains(defs.fields(did)[j].name),
{
    let fields = defs.fields(did);
    let n = fields.len() as int;
    lemma_sequence_name(defs, did, fields, n, fields[i].name);
    lemma_sequence_name(defs, did, fields, n, fields[j].name);
    assert(writable_here(defs, did, fields[i]) && writable_here(defs, did, fields[j]));
    crate::groups::lemma_two_members(
        sequence_names(defs, did, fields, n),
        fields[i].name,
        fields[j].name,
    );
}

/// Nothing else is a candidate.
pub proof fn lemma_candidates_are_own_sequences(defs: Definitions, did: DefId, name: Symbol)
    requires
        candidates(defs, did).contains(name),
    ensures
        defs.at(did) matches Some(d) && d.is_local && (d.adt matches Some(a) && a.kind
            == crate::defs::AdtKind::Struct),
        exists|i: int|
            0 <= i < defs.fields(did).len() && sequence(
                defs,
                (#[trigger] defs.fields(did)[i]).ty,
            ) && (!defs.exported(did) || defs.fields(did)[i].visible_in is Some) && defs.fields(
                did,
            )[i].name == name,
{
    let fields = defs.fields(did);
    lemma_sequence_name(defs, did, fields, fields.len() as int, name);
    let i = choose|i: int|
        0 <= i < fields.len() && writable_here(defs, did, #[trigger] fields[i]) && fields[i].name
            == name;
    assert(sequence(defs, fields[i].ty));
}

/// A place projects from a local through fields, indexing, borrows and
/// derefs.
pub proof fn lemma_projection_keeps_its_local(e: Expr, inner: Expr, id: HirId)
    ensures
        (e.kind matches ExprKind::Field(x, _) && *x == inner) || (e.kind matches ExprKind::Index(x, _)
            && *x == inner) || (e.kind matches ExprKind::AddrOf(_, _, x) && *x == inner)
            || e.kind == ExprKind::Unary(UnOp::Deref, Box::new(inner)) ==> local_root(e)
            == local_root(inner),
        (e.kind matches ExprKind::Path(p) && p.res == Res::Local(id)) ==> local_root(e) == Some(id),
        (e.kind matches ExprKind::Path(p) && !(p.res is Local)) || e.kind is Call || e.kind
            is MethodCall ==> local_root(e) is None,
{
}

/// A length change belongs to the nearest block or match arm around it.
pub proof fn lemma_scope_is_the_nearest(parents: Seq<Parent>, k: int, at: HirId)
    requires
        0 <= k < parents.len(),
    ensures
        parents[k] matches Parent::Block(b) ==> step_scope(parents, k, at) == b.id,
        parents[k] matches Parent::Arm(a) ==> step_scope(parents, k, at) == a.id,
        parents[k] is Item ==> step_scope(parents, k, at) == at,
        !(parents[k] is Block) && !(parents[k] is Arm) && !(parents[k] is Item) ==> step_scope(
            parents,
            k,
            at,
        ) == step_scope(parents, k + 1, at),
        step_scope(parents, parents.len() as int, at) == at,
{
}

/// Adding to a candidate, removing from it, assigning it, or lending it
/// mutably changes its length, as far as can be told; iterating it mutably in
/// a `for` head does not.
pub proof fn lemma_length_change_is_recorded(
    defs: Definitions,
    s: VecsView,
    owner: DefId,
    e: Expr,
    parents: Seq<Parent>,
    seq: Expr,
    base: Expr,
    field: Symbol,
    adt: DefId,
)
    requires
        seq.kind == ExprKind::Field(Box::new(base), field),
        adjusted_adt(base) == Some(adt),
        candidates(defs, adt).contains(field),
    ensures
        ({
            let changed = VecsView {
                writes: s.writes.push(
                    (
                        (adt, field),
                        (
                            owner,
                            step_scope(parents, 0, e.id),
                            Place { local: local_root(base), shape: base.shape },
                        ),
                    ),
                ),
                ..s
            };
            &&& e.kind matches ExprKind::MethodCall(n, r, _) ==> (*r == seq && (defs.text(n)
                == "push"@ || defs.text(n) == "push_back"@ || defs.text(n) == "push_front"@
                || defs.text(n) == "append"@ || defs.text(n) == "insert"@ || defs.text(n)
                == "extend"@ || defs.text(n) == "extend_from_slice"@ || defs.text(n)
                == "extend_from_within"@ || defs.text(n) == "resize"@ || defs.text(n)
                == "resize_with"@ || defs.text(n) == "pop"@ || defs.text(n) == "pop_back"@
                || defs.text(n) == "pop_front"@ || defs.text(n) == "clear"@ || defs.text(n)
                == "truncate"@ || defs.text(n) == "remove"@ || defs.text(n) == "swap_remove"@
                || defs.text(n) == "swap_remove_back"@ || defs.text(n) == "swap_remove_front"@
                || defs.text(n) == "drain"@ || defs.text(n) == "retain"@ || defs.text(n)
                == "retain_mut"@ || defs.text(n) == "dedup"@ || defs.text(n) == "dedup_by"@
                || defs.text(n) == "dedup_by_key"@ || defs.text(n) == "split_off"@ || defs.text(n)
                == "set_len"@ || defs.text(n) == "splice"@ || defs.text(n)
                == "append_assume_capacity"@) ==> after_expr(defs, s, owner, e, parents)
                == changed)
            &&& (e.kind matches ExprKind::Assign(t, _) && *t == seq) || (
            e.kind matches ExprKind::AssignOp(t, _) && *t == seq) || (
            e.kind matches ExprKind::AddrOf(raw, m, t) && !raw && m && *t == seq && !(
            parents.len() > 0 && (parents[0] matches Parent::Expr(p) && p.kind is Call
                && p.origin.for_loop))) ==> after_expr(defs, s, owner, e, parents) == changed
            &&& e.kind matches ExprKind::AddrOf(_, m, _) ==> (!m ==> after_expr(
                defs,
                s,
                owner,
                e,
                parents,
            ) == s)
            &&& (e.kind is AddrOf && parents.len() > 0 && (parents[0] matches Parent::Expr(p)
                && p.kind is Call && p.origin.for_loop)) ==> after_expr(defs, s, owner, e, parents)
                == s
        }),
{
    crate::hir_shapes::lemma_write_reaches_the_field(seq, seq, base, field);
    reveal_strlit("zip");
    reveal_strlit("push");
    reveal_strlit("push_back");
    reveal_strlit("push_front");
    reveal_strlit("append");
    reveal_strlit("insert");
    reveal_strlit("extend");
    reveal_strlit("extend_from_slice");
    reveal_strlit("extend_from_within");
    reveal_strlit("resize");
    reveal_strlit("resize_with");
    reveal_strlit("pop");
    assert("pop"@[0] != "zip"@[0]);
    reveal_strlit("pop_back");
    reveal_strlit("pop_front");
    reveal_strlit("clear");
    reveal_strlit("truncate");
    reveal_strlit("remove");
    reveal_strlit("swap_remove");
    reveal_strlit("swap_remove_back");
    reveal_strlit("swap_remove_front");
    reveal_strlit("drain");
    reveal_strlit("retain");
    reveal_strlit("retain_mut");
    reveal_strlit("dedup");
    reveal_strlit("dedup_by");
    reveal_strlit("dedup_by_key");
    reveal_strlit("split_off");
    reveal_strlit("set_len");
    reveal_strlit("splice");
    reveal_strlit("append_assume_capacity");
}

proof fn lemma_steps_grow(
    defs: Definitions,
    in_step: Seq<(DefId, Symbol, Symbol)>,
    reads: Seq<Read>,
    r: Read,
    k: int,
    i: int,
)
    requires
        0 <= k <= reads.len(),
    ensures
        forall|x: (DefId, Symbol, Symbol)|
            in_step.contains(x) ==> #[trigger] steps_with(defs, in_step, reads, r, k).contains(x),
        0 <= i < k && keeps_step(reads[i], r) ==> steps_with(defs, in_step, reads, r, k).contains(
            ordered(defs, r.adt, reads[i].field, r.field),
        ),
    decreases k,
{
    if k > 0 {
        lemma_steps_grow(defs, in_step, reads, r, k - 1, i);
        let before = steps_with(defs, in_step, reads, r, k - 1);
        crate::table::lemma_added(before, ordered(defs, r.adt, reads[k - 1].field, r.field));
    }
}

/// Reading two sequence fields of one value at one index, in one body, reads
/// them in step; the names come in the order of their spelling.
pub proof fn lemma_reads_at_one_index_are_in_step(
    defs: Definitions,
    s: VecsView,
    owner: DefId,
    e: Expr,
    parents: Seq<Parent>,
    seq: Expr,
    base: Expr,
    field: Symbol,
    adt: DefId,
    index: Expr,
    i: int,
)
    requires
        seq.kind == ExprKind::Field(Box::new(base), field),
        adjusted_adt(base) == Some(adt),
        candidates(defs, adt).contains(field),
        e.kind == ExprKind::Index(Box::new(seq), Box::new(index)) || (
        e.kind matches ExprKind::MethodCall(n, r, args) && *r == seq && args@.len() == 1 && args@[0]
            == index && (defs.text(n) == "get"@ || defs.text(n) == "get_mut"@ || defs.text(n)
            == "get_unchecked"@ || defs.text(n) == "get_unchecked_mut"@)),
    ensures
        after_expr(defs, s, owner, e, parents).reads == s.reads.push(
            Read {
                owner,
                adt,
                field,
                place: Place { local: local_root(base), shape: base.shape },
                index: index.structure,
            },
        ),
        0 <= i < s.reads.len() && s.reads[i].owner == owner && s.reads[i].adt == adt
            && s.reads[i].field != field && s.reads[i].place == (Place {
            local: local_root(base),
            shape: base.shape,
        }) && s.reads[i].index == index.structure ==> after_expr(
            defs,
            s,
            owner,
            e,
            parents,
        ).in_step.contains((adt, s.reads[i].field, field)) || after_expr(
            defs,
            s,
            owner,
            e,
            parents,
        ).in_step.contains((adt, field, s.reads[i].field)),
{
    let r = Read {
        owner,
        adt,
        field,
        place: Place { local: local_root(base), shape: base.shape },
        index: index.structure,
    };
    lemma_steps_grow(defs, s.in_step, s.reads, r, s.reads.len() as int, i);
    reveal_strlit("zip");
    reveal_strlit("get");
    assert("get"@[0] != "zip"@[0]);
    reveal_strlit("get_mut");
    reveal_strlit("get_unchecked");
    reveal_strlit("get_unchecked_mut");
    lemma_reads_are_no_changes();
}

/// A read by position is no change of length.
pub proof fn lemma_reads_are_no_changes()
    ensures
        !changes_length("get"@) && !changes_length("get_mut"@) && !changes_length(
            "get_unchecked"@,
        ) && !changes_length("get_unchecked_mut"@) && !changes_length("len"@) && !changes_length(
            "iter"@,
        ) && !changes_length("iter_mut"@),
{
    reveal_strlit("get");
    reveal_strlit("get_mut");
    reveal_strlit("get_unchecked");
    reveal_strlit("get_unchecked_mut");
    reveal_strlit("len");
    reveal_strlit("iter");
    reveal_strlit("iter_mut");
    reveal_strlit("push");
    reveal_strlit("push_back");
    reveal_strlit("push_front");
    reveal_strlit("append");
    reveal_strlit("insert");
    reveal_strlit("extend");
    reveal_strlit("extend_from_slice");
    reveal_strlit("extend_from_within");
    reveal_strlit("resize");
    reveal_strlit("resize_with");
    reveal_strlit("pop");
    reveal_strlit("pop_back");
    reveal_strlit("pop_front");
    reveal_strlit("clear");
    reveal_strlit("truncate");
    reveal_strlit("remove");
    reveal_strlit("swap_remove");
    reveal_strlit("swap_remove_back");
    reveal_strlit("swap_remove_front");
    reveal_strlit("drain");
    reveal_strlit("retain");
    reveal_strlit("retain_mut");
    reveal_strlit("dedup");
    reveal_strlit("dedup_by");
    reveal_strlit("dedup_by_key");
    reveal_strlit("split_off");
    reveal_strlit("set_len");
    reveal_strlit("splice");
    reveal_strlit("append_assume_capacity");
    assert("get"@[0] == 'g');
    assert("len"@[0] == 'l');
    assert("iter"@[0] == 'i' && "iter_mut"@[0] == 'i');
    assert("get_mut"@[0] == 'g' && "get_unchecked"@[0] == 'g' && "get_unchecked_mut"@[0] == 'g');
    assert("push"@[0] == 'p' && "push_back"@[0] == 'p' && "push_front"@[0] == 'p');
    assert("insert"@[1] == 'n' && "iter"@[1] == 't');
    assert("pop"@[0] == 'p' && "drain"@[0] == 'd' && "set_len"@[0] == 's');
    assert("truncate"@[0] == 't' && "clear"@[0] == 'c' && "dedup_by"@[0] == 'd');
    assert("extend_from_slice"@[0] == 'e' && "swap_remove_front"@[0] == 's');
    assert("splice"@[0] == 's' && "remove"@[0] == 'r' && "retain"@[0] == 'r');
    assert("resize"@[0] == 'r' && "append"@[0] == 'a');
}

/// What a `zip` operand iterates is a field, behind borrows and the adapters
/// that only iterate.
pub proof fn lemma_iteration_reaches_the_field(
    defs: Definitions,
    e: Expr,
    inner: Expr,
    base: Expr,
    field: Symbol,
)
    ensures
        (e.kind matches ExprKind::AddrOf(_, _, x) && *x == inner) || (
        e.kind matches ExprKind::MethodCall(n, x, _) && *x == inner && (defs.text(n) == "iter"@
            || defs.text(n) == "iter_mut"@ || defs.text(n) == "into_iter"@ || defs.text(n)
            == "copied"@ || defs.text(n) == "cloned"@ || defs.text(n) == "by_ref"@ || defs.text(n)
            == "drain"@)) ==> zipped_field(defs, e) == zipped_field(defs, inner),
        e.kind == ExprKind::Field(Box::new(base), field) ==> zipped_field(defs, e) == Some(
            (base, field),
        ),
        e.kind is Path || e.kind is Call || e.kind is Index ==> zipped_field(defs, e) is None,
{
}

/// Zipping two sequence fields of one value reads them in step, whether `zip`
/// is called as a method or by path.
pub proof fn lemma_zip_reads_in_step(
    defs: Definitions,
    s: VecsView,
    owner: DefId,
    e: Expr,
    parents: Seq<Parent>,
    l: Expr,
    r: Expr,
    lb: Expr,
    lf: Symbol,
    rb: Expr,
    rf: Symbol,
    adt: DefId,
)
    requires
        (e.kind matches ExprKind::MethodCall(n, recv, args) && defs.text(n) == "zip"@ && *recv == l
            && args@.len() == 1 && args@[0] == r) || (e.kind matches ExprKind::Call(_, args)
            && args@.len() == 2 && args@[0] == l && args@[1] == r && (called_def(
            e,
        ) matches Some(d) && defs.name_text(d) == "zip"@)),
        zipped_field(defs, l) == Some((lb, lf)),
        zipped_field(defs, r) == Some((rb, rf)),
        lf != rf,
        adjusted_adt(lb) == Some(adt),
        adjusted_adt(rb) == Some(adt),
        candidates(defs, adt).contains(lf),
        candidates(defs, adt).contains(rf),
    ensures
        lb.shape == rb.shape && local_root(lb) == local_root(rb) ==> after_expr(
            defs,
            s,
            owner,
            e,
            parents,
        ).in_step.contains((adt, lf, rf)) || after_expr(
            defs,
            s,
            owner,
            e,
            parents,
        ).in_step.contains((adt, rf, lf)),
        lb.shape != rb.shape || local_root(lb) != local_root(rb) ==> after_expr(
            defs,
            s,
            owner,
            e,
            parents,
        ) == s,
{
    crate::table::lemma_added(s.in_step, ordered(defs, adt, lf, rf));
}

/// The reads of a body are forgotten when it ends, those of others are not.
pub proof fn lemma_reads_end_with_their_body(reads: Seq<Read>, owner: DefId, r: Read)
    ensures
        reads_outside(reads, owner).contains(r) <==> reads.contains(r) && r.owner != owner,
    decreases reads.len(),
{
    if reads.len() > 0 {
        let front = reads.drop_last();
        lemma_reads_end_with_their_body(front, owner, r);
        let before = reads_outside(front, owner);
        let all = reads_outside(reads, owner);
        assert(reads[reads.len() - 1] == reads.last());
        if front.contains(r) {
            let i = choose|i: int| 0 <= i < front.len() && front[i] == r;
            assert(reads[i] == r);
        }
        if reads.contains(r) {
            let i = choose|i: int| 0 <= i < reads.len() && reads[i] == r;
            if i < front.len() {
                assert(front[i] == r);
            }
        }
        if before.contains(r) {
            let i = choose|i: int| 0 <= i < before.len() && before[i] == r;
            assert(all[i] == r);
        }
        if reads.last().owner != owner {
            assert(all[all.len() - 1] == reads.last());
        }
        if all.contains(r) {
            let i = choose|i: int| 0 <= i < all.len() && all[i] == r;
            if i < before.len() {
                assert(before[i] == r);
            }
        }
    }
}

proof fn lemma_group_said(
    defs: Definitions,
    in_step: Seq<(DefId, Symbol, Symbol)>,
    did: DefId,
    gs: Seq<Group<Site>>,
    k: int,
    m: int,
)
    requires
        0 <= m < k <= gs.len(),
        gs[m].members.len() >= 2,
        stepped(defs, in_step, did, gs[m].members),
    ensures
        group_findings(defs, in_step, did, gs, k).contains(vecs_finding(defs, did, gs[m])),
    decreases k,
{
    let x = vecs_finding(defs, did, gs[m]);
    let all = group_findings(defs, in_step, did, gs, k);
    let before = group_findings(defs, in_step, did, gs, k - 1);
    if m == k - 1 {
        assert(all[all.len() - 1] == x);
    } else {
        lemma_group_said(defs, in_step, did, gs, k - 1, m);
        let i = choose|i: int| 0 <= i < before.len() && before[i] == x;
        assert(all[i] == x);
    }
}

proof fn lemma_struct_said(
    defs: Definitions,
    s: VecsView,
    structs: Seq<DefId>,
    k: int,
    m: int,
    x: FindingView,
)
    requires
        0 <= m < k <= structs.len(),
        ({
            let gs = groups_of(defs, s.writes, structs[m]);
            group_findings(defs, s.in_step, structs[m], gs, gs.len() as int).contains(x)
        }),
    ensures
        struct_findings(defs, s, structs, k).contains(x),
    decreases k,
{
    let before = struct_findings(defs, s, structs, k - 1);
    let gs = groups_of(defs, s.writes, structs[k - 1]);
    let last = group_findings(defs, s.in_step, structs[k - 1], gs, gs.len() as int);
    let all = struct_findings(defs, s, structs, k);
    assert(all == before + last);
    if m == k - 1 {
        let i = choose|i: int| 0 <= i < last.len() && last[i] == x;
        assert(all[before.len() + i] == x);
    } else {
        lemma_struct_said(defs, s, structs, k - 1, m, x);
        let i = choose|i: int| 0 <= i < before.len() && before[i] == x;
        assert(all[i] == x);
    }
}

/// Two sequences that only ever change length side by side, and that are read
/// in step, are reported at their struct; one site is enough.
pub proof fn lemma_parallel_sequences_are_reported(
    defs: Definitions,
    s: VecsView,
    did: DefId,
    a: Symbol,
    b: Symbol,
    here: Site,
)
    requires
        a != b,
        s.writes.contains(((did, a), here)),
        forall|x: Site|
            s.writes.contains(((did, a), x)) <==> #[trigger] s.writes.contains(((did, b), x)),
        s.in_step.contains(ordered(defs, did, a, b)),
    ensures
        exists|i: int|
            0 <= i < parallel_findings(defs, s).len() && (#[trigger] parallel_findings(
                defs,
                s,
            )[i]).at == defs.span(did) && parallel_findings(defs, s)[i].lint == Lint::ParallelVecs,
{
    let ws = s.writes;
    assert(ws.contains(((did, b), here)));
    let g = crate::groups::lemma_paired_fields_meet(
        defs,
        ws,
        did,
        ((did, a), here),
        ((did, b), here),
    );
    crate::groups::lemma_two_members(g.members, a, b);
    let p = choose|i: int| 0 <= i < g.members.len() && g.members[i] == a;
    let q = choose|i: int| 0 <= i < g.members.len() && g.members[i] == b;
    assert(s.in_step.contains(ordered(defs, did, g.members[p], g.members[q])));
    let gs = groups_of(defs, ws, did);
    let m = choose|m: int| 0 <= m < gs.len() && gs[m] == g;
    lemma_group_said(defs, s.in_step, did, gs, gs.len() as int, m);
    let structs = structs_written(ws, ws.len() as int);
    let w = choose|i: int| 0 <= i < ws.len() && ws[i] == ((did, a), here);
    crate::groups::lemma_struct_is_written(ws, ws.len() as int, w);
    let t = choose|t: int| 0 <= t < structs.len() && structs[t] == did;
    let x = vecs_finding(defs, did, g);
    let all = struct_findings(defs, s, structs, structs.len() as int);
    lemma_struct_said(defs, s, structs, structs.len() as int, t, x);
    crate::report::lemma_position_keeps(all);
    assert(parallel_findings(defs, s).contains(x));
    let i = choose|i: int|
        0 <= i < parallel_findings(defs, s).len() && parallel_findings(defs, s)[i] == x;
    assert(parallel_findings(defs, s)[i].lint == Lint::ParallelVecs);
}

/// Fields come to be in step by a read of the same value at the same index in
/// the same body, and by nothing else.
pub proof fn lemma_steps_come_from_reads(
    defs: Definitions,
    in_step: Seq<(DefId, Symbol, Symbol)>,
    reads: Seq<Read>,
    r: Read,
    k: int,
    x: (DefId, Symbol, Symbol),
)
    requires
        0 <= k <= reads.len(),
        steps_with(defs, in_step, reads, r, k).contains(x),
    ensures
        in_step.contains(x) || exists|i: int|
            0 <= i < k && (#[trigger] reads[i]).owner == r.owner && reads[i].adt == r.adt
                && reads[i].field != r.field && reads[i].place == r.place && reads[i].index
                == r.index && x == ordered(defs, r.adt, reads[i].field, r.field),
    decreases k,
{
    if k > 0 {
        let before = steps_with(defs, in_step, reads, r, k - 1);
        crate::table::lemma_added(before, ordered(defs, r.adt, reads[k - 1].field, r.field));
        if before.contains(x) {
            lemma_steps_come_from_reads(defs, in_step, reads, r, k - 1, x);
        }
    }
}

} // verus!
