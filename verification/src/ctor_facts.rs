//! One walk over a constructor's body, keeping what the slices of
//! `ctor_flow` need: what every local is defined from, which locals are moved
//! into which, what is wrapped up in a `Result` or `Option`, where `?` passes
//! a failure on, and which functions of the crate are called.

use crate::adt_facts::{config_names, err_ty, matches_config_path, result_err_ty};
use crate::defs::Definitions;
use crate::ids::DefId;
use crate::mir::{
    AggregateKind, BasicBlock, Body, Callee, Operand, Place, ProjElem, Rvalue, Statement,
    TerminatorKind, TraitKind, TryFn, Wrapper,
};
use crate::mir_flow::{
    atom_of, copy_path, exactness_of, extended_atom, index_locals_of, operand_place, path_of,
    place_info, place_of_operand, Atom, AtomView, Exactness, ANY_ELEM,
};
use crate::ty::{adt_id, mentions, peeled, Ty};
use vstd::prelude::*;
use vstd::string::*;

verus! {

// ---------------------------------------------------------------- resource errors

/// Error types that report the environment refusing, not the value being
/// wrong. An exit failing with one of these is never a validation.
pub open spec fn resource_errors() -> Seq<Seq<char>> {
    seq![
        "core::alloc::AllocError"@,
        "std::alloc::AllocError"@,
        "alloc::collections::TryReserveError"@,
        "std::collections::TryReserveError"@,
        "core::alloc::LayoutError"@,
        "std::alloc::LayoutError"@,
        "std::io::Error"@,
        "std::thread::AccessError"@,
    ]
}

/// The built-in resource errors and the configured ones.
pub fn resource_error_list(extra: &Vec<String>) -> (r: Vec<String>)
    ensures
        crate::text::texts(r@) == resource_errors() + crate::text::texts(extra@),
{
    let mut out: Vec<String> = Vec::new();
    out.push(String::from_str("core::alloc::AllocError"));
    out.push(String::from_str("std::alloc::AllocError"));
    out.push(String::from_str("alloc::collections::TryReserveError"));
    out.push(String::from_str("std::collections::TryReserveError"));
    out.push(String::from_str("core::alloc::LayoutError"));
    out.push(String::from_str("std::alloc::LayoutError"));
    out.push(String::from_str("std::io::Error"));
    out.push(String::from_str("std::thread::AccessError"));
    let ghost fixed = out@;
    assert(crate::text::texts(fixed) =~= resource_errors());
    let mut i: usize = 0;
    while i < extra.len()
        invariant
            i <= extra@.len(),
            crate::text::texts(fixed) == resource_errors(),
            crate::text::texts(out@) == resource_errors() + crate::text::texts(
                extra@.take(i as int),
            ),
        decreases extra.len() - i,
    {
        let s = extra[i].clone();
        let ghost before = out@;
        out.push(s);
        proof {
            assert(crate::text::texts(out@) =~= crate::text::texts(before).push(
                extra@[i as int]@,
            ));
            assert(crate::text::texts(extra@.take(i + 1)) =~= crate::text::texts(
                extra@.take(i as int),
            ).push(extra@[i as int]@));
        }
        i = i + 1;
    }
    assert(extra@.take(extra@.len() as int) == extra@);
    out
}

/// `ty` (through references) is an error type that some entry names.
pub open spec fn refused(defs: Definitions, ty: Ty, entries: Seq<Seq<char>>) -> bool {
    adt_id(peeled(ty)) matches Some(did) && config_names(defs, did, entries)
}

/// Whether `ty` is one of the error types in `entries`.
pub fn is_resource_error(defs: &Definitions, ty: &Ty, entries: &Vec<String>) -> (r: bool)
    ensures
        r == refused(*defs, *ty, crate::text::texts(entries@)),
{
    match ty.peel_refs().adt() {
        Some(did) => matches_config_path(defs, did, entries),
        None => false,
    }
}

/// `ty` is a `Result` whose error is a resource error.
pub open spec fn fails_on_resource(defs: Definitions, ty: Ty, entries: Seq<Seq<char>>) -> bool {
    err_ty(defs, ty) matches Some(e) && refused(defs, e, entries)
}

pub fn has_resource_error(defs: &Definitions, ty: &Ty, entries: &Vec<String>) -> (r: bool)
    ensures
        r == fails_on_resource(*defs, *ty, crate::text::texts(entries@)),
{
    match result_err_ty(defs, ty) {
        Some(e) => is_resource_error(defs, e, entries),
        None => false,
    }
}

/// `ty` is the struct, enum or union `did` itself.
pub open spec fn is_adt(ty: Ty, did: DefId) -> bool {
    adt_id(ty) == Some(did)
}

pub fn is_self_ty(ty: &Ty, self_did: DefId) -> (r: bool)
    ensures
        r == is_adt(*ty, self_did),
{
    match ty.adt() {
        Some(d) => d == self_did,
        None => false,
    }
}

// ---------------------------------------------------------------- reads

/// How a definition reads an atom.
#[derive(Debug)]
pub enum Read {
    /// Value identity: a copy/move/borrow of the place. Paths compose.
    Same(Atom),
    /// Computed from the whole operand (cast, arithmetic, repeat).
    Derived(Atom),
    /// Operand `i` of an aggregate written to the dest. Paths compose past `i`.
    AggField(u32, Atom),
    /// A variant payload of this atom was read (`(x as Some).0`).
    Payload(Atom),
    /// `discriminant(x)`: decides, never stores.
    Discr(Atom),
    /// An index local: decides, never stores.
    Index(usize),
    /// Argument of the call whose result this is: decides unless the result
    /// only ever had its payload stored.
    CallArg(Atom),
    /// An argument of a call that operates on a `&mut` argument (insert,
    /// write, advance): the call failing is about the operation, not a
    /// verdict on any value handed to it. Never followed.
    CallArgMut,
    /// Argument of a call that could write through a `&mut` to the dest.
    ViaMut(Atom),
}

/// A read as a value.
pub enum ReadView {
    Same(AtomView),
    Derived(AtomView),
    AggField(u32, AtomView),
    Payload(AtomView),
    Discr(AtomView),
    Index(usize),
    CallArg(AtomView),
    CallArgMut,
    ViaMut(AtomView),
}

impl View for Read {
    type V = ReadView;

    open spec fn view(&self) -> ReadView {
        match self {
            Read::Same(a) => ReadView::Same(a@),
            Read::Derived(a) => ReadView::Derived(a@),
            Read::AggField(i, a) => ReadView::AggField(*i, a@),
            Read::Payload(a) => ReadView::Payload(a@),
            Read::Discr(a) => ReadView::Discr(a@),
            Read::Index(l) => ReadView::Index(*l),
            Read::CallArg(a) => ReadView::CallArg(a@),
            Read::CallArgMut => ReadView::CallArgMut,
            Read::ViaMut(a) => ReadView::ViaMut(a@),
        }
    }
}

/// One assignment to (part of) a local.
#[derive(Debug)]
pub struct Def {
    /// Field path of the destination place within its local.
    pub dest: Vec<u32>,
    pub reads: Vec<Read>,
}

/// A definition as a value.
pub struct DefView {
    pub dest: Seq<u32>,
    pub reads: Seq<ReadView>,
}

/// The reads of a list as values.
pub open spec fn read_views(reads: Seq<Read>) -> Seq<ReadView> {
    reads.map_values(|r: Read| r@)
}

impl View for Def {
    type V = DefView;

    open spec fn view(&self) -> DefView {
        DefView { dest: self.dest@, reads: read_views(self.reads@) }
    }
}

/// The definitions of a list as values.
pub open spec fn def_views(defs: Seq<Def>) -> Seq<DefView> {
    defs.map_values(|d: Def| d@)
}

/// The definitions of every local as values.
pub open spec fn all_def_views(defs: Seq<Vec<Def>>) -> Seq<Seq<DefView>> {
    defs.map_values(|v: Vec<Def>| def_views(v@))
}

/// The index locals of a projection, as reads.
pub open spec fn index_reads(projection: Seq<ProjElem>) -> Seq<ReadView> {
    index_locals_of(projection).map_values(|l: usize| ReadView::Index(l))
}

/// Reads of one place in value position.
pub open spec fn place_reads(place: Place, same: bool) -> Seq<ReadView> {
    index_reads(place.projection@).push(
        match exactness_of(place.projection@) {
            Exactness::VariantPayload => ReadView::Payload(atom_of(place)),
            Exactness::Exact => if same {
                ReadView::Same(atom_of(place))
            } else {
                ReadView::Derived(atom_of(place))
            },
            Exactness::Inexact => ReadView::Derived(atom_of(place)),
        },
    )
}

/// Reads of one operand in value position.
pub open spec fn operand_reads(op: Operand, same: bool) -> Seq<ReadView> {
    match place_of_operand(op) {
        Some(p) => place_reads(p, same),
        None => Seq::empty(),
    }
}

/// Reads of operand `i` of an aggregate.
pub open spec fn part_reads(op: Operand, i: int) -> Seq<ReadView> {
    match place_of_operand(op) {
        Some(p) => index_reads(p.projection@).push(
            match exactness_of(p.projection@) {
                Exactness::VariantPayload => ReadView::Payload(atom_of(p)),
                Exactness::Exact => ReadView::AggField(i as u32, atom_of(p)),
                Exactness::Inexact => ReadView::Derived(atom_of(p)),
            },
        ),
        None => Seq::empty(),
    }
}

/// Reads of an aggregate's operands, in order.
pub open spec fn aggregate_reads(ops: Seq<Operand>) -> Seq<ReadView>
    decreases ops.len(),
{
    if ops.len() == 0 {
        Seq::empty()
    } else {
        aggregate_reads(ops.drop_last()) + part_reads(ops.last(), ops.len() - 1)
    }
}

/// What an assigned value is read from.
pub open spec fn rvalue_reads(rv: Rvalue) -> Seq<ReadView> {
    match rv {
        Rvalue::Use(op) => operand_reads(op, true),
        Rvalue::Repeat(op) => operand_reads(op, false),
        Rvalue::Cast(op) => operand_reads(op, false),
        Rvalue::UnaryOp(op) => operand_reads(op, false),
        Rvalue::WrapUnsafeBinder(op) => operand_reads(op, false),
        Rvalue::Ref(_, p) => place_reads(p, true),
        Rvalue::RawPtr(_, p) => place_reads(p, true),
        Rvalue::Reborrow(_, p) => place_reads(p, true),
        Rvalue::CopyForDeref(p) => place_reads(p, true),
        Rvalue::BinaryOp(a, b) => operand_reads(a, false) + operand_reads(b, false),
        Rvalue::Discriminant(p) => index_reads(p.projection@).push(ReadView::Discr(atom_of(p))),
        Rvalue::Aggregate(_, ops) => aggregate_reads(ops@),
        Rvalue::ThreadLocalRef => Seq::empty(),
    }
}

proof fn lemma_read_push(out: Seq<Read>, r: Read)
    ensures
        read_views(out.push(r)) == read_views(out).push(r@),
{
    assert(read_views(out.push(r)) =~= read_views(out).push(r@));
}

/// Appends the index locals as reads.
fn add_index_reads(locals: &Vec<usize>, out: &mut Vec<Read>)
    ensures
        read_views(final(out)@) == read_views(old(out)@) + locals@.map_values(
            |l: usize| ReadView::Index(l),
        ),
{
    let ghost before = read_views(out@);
    let ghost f = |l: usize| ReadView::Index(l);
    let mut i: usize = 0;
    while i < locals.len()
        invariant
            i <= locals@.len(),
            f == |l: usize| ReadView::Index(l),
            read_views(out@) == before + locals@.take(i as int).map_values(f),
        decreases locals.len() - i,
    {
        let r = Read::Index(locals[i]);
        proof {
            lemma_read_push(out@, r);
            assert(locals@.take(i + 1).map_values(f) =~= locals@.take(i as int).map_values(f).push(
                f(locals@[i as int]),
            ));
        }
        out.push(r);
        assert(read_views(out@) =~= before + locals@.take(i + 1).map_values(f));
        i = i + 1;
    }
    assert(locals@.take(locals@.len() as int) == locals@);
    assert(read_views(out@) =~= before + locals@.map_values(f));
}

/// Reads of one place in value position.
pub fn reads_of_place(place: &Place, same: bool, out: &mut Vec<Read>)
    ensures
        read_views(final(out)@) == read_views(old(out)@) + place_reads(*place, same),
{
    let ghost before = read_views(out@);
    let info = place_info(place);
    add_index_reads(&info.index_locals, out);
    let r = match info.exactness {
        Exactness::VariantPayload => Read::Payload(info.atom),
        Exactness::Exact => if same {
            Read::Same(info.atom)
        } else {
            Read::Derived(info.atom)
        },
        Exactness::Inexact => Read::Derived(info.atom),
    };
    proof {
        lemma_read_push(out@, r);
    }
    out.push(r);
    assert(read_views(out@) =~= before + place_reads(*place, same));
}

pub fn reads_of_operand(op: &Operand, same: bool, out: &mut Vec<Read>)
    ensures
        read_views(final(out)@) == read_views(old(out)@) + operand_reads(*op, same),
{
    match operand_place(op) {
        Some(p) => reads_of_place(p, same, out),
        None => {
            assert(read_views(out@) =~= read_views(out@) + operand_reads(*op, same));
        },
    }
}

fn reads_of_parts(ops: &Vec<Operand>, out: &mut Vec<Read>)
    ensures
        read_views(final(out)@) == read_views(old(out)@) + aggregate_reads(ops@),
{
    let ghost before = read_views(out@);
    let mut i: usize = 0;
    assert(before =~= before + aggregate_reads(ops@.take(0)));
    while i < ops.len()
        invariant
            i <= ops@.len(),
            read_views(out@) == before + aggregate_reads(ops@.take(i as int)),
        decreases ops.len() - i,
    {
        let ghost so_far = read_views(out@);
        assert(ops@.take(i + 1).drop_last() =~= ops@.take(i as int));
        match operand_place(&ops[i]) {
            Some(p) => {
                let info = place_info(p);
                add_index_reads(&info.index_locals, out);
                let r = match info.exactness {
                    Exactness::VariantPayload => Read::Payload(info.atom),
                    Exactness::Exact => Read::AggField(i as u32, info.atom),
                    Exactness::Inexact => Read::Derived(info.atom),
                };
                proof {
                    lemma_read_push(out@, r);
                }
                out.push(r);
            },
            None => {},
        }
        assert(read_views(out@) =~= so_far + part_reads(ops@[i as int], i as int));
        assert(read_views(out@) =~= before + aggregate_reads(ops@.take(i + 1)));
        i = i + 1;
    }
    assert(ops@.take(ops@.len() as int) == ops@);
}

/// What an assigned value is read from.
fn reads_of_rvalue(rv: &Rvalue) -> (r: Vec<Read>)
    ensures
        read_views(r@) == rvalue_reads(*rv),
{
    let mut reads: Vec<Read> = Vec::new();
    assert(read_views(reads@) =~= Seq::<ReadView>::empty());
    match rv {
        Rvalue::Use(op) => reads_of_operand(op, true, &mut reads),
        Rvalue::Repeat(op)
        | Rvalue::Cast(op)
        | Rvalue::UnaryOp(op)
        | Rvalue::WrapUnsafeBinder(op) => reads_of_operand(op, false, &mut reads),
        Rvalue::Ref(_, p) | Rvalue::RawPtr(_, p) | Rvalue::Reborrow(_, p) => reads_of_place(
            p,
            true,
            &mut reads,
        ),
        Rvalue::CopyForDeref(p) => reads_of_place(p, true, &mut reads),
        Rvalue::BinaryOp(a, b) => {
            reads_of_operand(a, false, &mut reads);
            reads_of_operand(b, false, &mut reads);
        },
        Rvalue::Discriminant(p) => {
            let info = place_info(p);
            add_index_reads(&info.index_locals, &mut reads);
            let r = Read::Discr(info.atom);
            proof {
                lemma_read_push(reads@, r);
            }
            reads.push(r);
        },
        Rvalue::Aggregate(_, ops) => reads_of_parts(ops, &mut reads),
        Rvalue::ThreadLocalRef => {},
    }
    assert(read_views(reads@) =~= rvalue_reads(*rv));
    reads
}

// ---------------------------------------------------------------- validity

/// Every local a place names is one of the body's `n` locals.
pub open spec fn place_ok(p: Place, n: nat) -> bool {
    p.local < n && forall|i: int|
        0 <= i < index_locals_of(p.projection@).len() ==> #[trigger] index_locals_of(
            p.projection@,
        )[i] < n
}

pub open spec fn operand_ok(op: Operand, n: nat) -> bool {
    place_of_operand(op) matches Some(p) ==> place_ok(p, n)
}

pub open spec fn rvalue_ok(rv: Rvalue, n: nat) -> bool {
    match rv {
        Rvalue::Use(op) => operand_ok(op, n),
        Rvalue::Repeat(op) => operand_ok(op, n),
        Rvalue::Cast(op) => operand_ok(op, n),
        Rvalue::UnaryOp(op) => operand_ok(op, n),
        Rvalue::WrapUnsafeBinder(op) => operand_ok(op, n),
        Rvalue::Ref(_, p) => place_ok(p, n),
        Rvalue::RawPtr(_, p) => place_ok(p, n),
        Rvalue::Reborrow(_, p) => place_ok(p, n),
        Rvalue::CopyForDeref(p) => place_ok(p, n),
        Rvalue::BinaryOp(a, b) => operand_ok(a, n) && operand_ok(b, n),
        Rvalue::Discriminant(p) => place_ok(p, n),
        Rvalue::Aggregate(_, ops) => forall|i: int|
            0 <= i < ops@.len() ==> operand_ok(#[trigger] ops@[i], n),
        Rvalue::ThreadLocalRef => true,
    }
}

pub open spec fn statement_ok(st: Statement, n: nat) -> bool {
    match st {
        Statement::Assign(dest, rv) => place_ok(dest, n) && rvalue_ok(rv, n),
        Statement::Other => true,
    }
}

pub open spec fn terminator_ok(kind: TerminatorKind, n: nat) -> bool {
    match kind {
        TerminatorKind::SwitchInt { discr, targets } => operand_ok(discr, n),
        TerminatorKind::Call { func, args, destination, target } => place_ok(destination, n)
            && forall|i: int| 0 <= i < args@.len() ==> operand_ok(#[trigger] args@[i], n),
        _ => true,
    }
}

pub open spec fn block_ok(b: BasicBlock, n: nat) -> bool {
    &&& forall|i: int| 0 <= i < b.statements@.len() ==> statement_ok(#[trigger] b.statements@[i], n)
    &&& b.terminator matches Some(t) ==> terminator_ok(t.kind, n)
}

/// A body as the compiler makes them: there is a return place, the parameters
/// come right after it, and every local and block named exists.
pub open spec fn valid_body(body: Body) -> bool {
    &&& body.arg_count < body.local_tys@.len()
    &&& body.blocks@.len() < usize::MAX
    &&& crate::mir::closed_cfg(body)
    &&& forall|b: int|
        0 <= b < body.blocks@.len() ==> block_ok(#[trigger] body.blocks@[b], body.local_tys@.len())
}

// ---------------------------------------------------------------- facts

/// A `Result`/`Option` aggregate assigned to a whole local.
#[derive(Debug)]
pub struct WrapperAggregate {
    pub dest: usize,
    /// It is `Err` or `None`.
    pub failure: bool,
    /// It is an `Err` of a resource error.
    pub resource: bool,
    /// Its first operand.
    pub operand: Option<Atom>,
    pub block: usize,
}

pub struct WrapperView {
    pub dest: usize,
    pub failure: bool,
    pub resource: bool,
    pub operand: Option<AtomView>,
    pub block: usize,
}

/// An optional atom as a value.
pub open spec fn atom_view(a: Option<Atom>) -> Option<AtomView> {
    match a {
        Some(x) => Some(x@),
        None => None,
    }
}

/// Optional atoms as values.
pub open spec fn atom_views(s: Seq<Option<Atom>>) -> Seq<Option<AtomView>> {
    s.map_values(|a: Option<Atom>| atom_view(a))
}

impl View for WrapperAggregate {
    type V = WrapperView;

    open spec fn view(&self) -> WrapperView {
        WrapperView {
            dest: self.dest,
            failure: self.failure,
            resource: self.resource,
            operand: atom_view(self.operand),
            block: self.block,
        }
    }
}

/// A call to a crate-local fn whose result is a whole local: callee and
/// argument atoms by position.
#[derive(Debug)]
pub struct LocalCall {
    pub dest: usize,
    pub callee: DefId,
    pub args: Vec<Option<Atom>>,
}

pub struct LocalCallView {
    pub dest: usize,
    pub callee: DefId,
    pub args: Seq<Option<AtomView>>,
}

impl View for LocalCall {
    type V = LocalCallView;

    open spec fn view(&self) -> LocalCallView {
        LocalCallView { dest: self.dest, callee: self.callee, args: atom_views(self.args@) }
    }
}

/// A failure passed on by `?`.
#[derive(Clone, Copy, Debug)]
pub struct Residual {
    pub dest: usize,
    pub resource: bool,
    pub block: usize,
}

/// What one walk over a body's blocks, in order, collects.
#[derive(Debug)]
pub struct Collected {
    /// The definitions of each local.
    pub defs: Vec<Vec<Def>>,
    /// Whole-local moves (`_a = move _b`) and `Try::branch` look-through.
    pub alias: Vec<Vec<usize>>,
    /// Locals whose variant payload was moved whole into this local.
    pub payload_alias: Vec<Vec<usize>>,
    /// What a local holds a `&mut` to.
    pub mut_refs: Vec<Option<Atom>>,
    pub wrappers: Vec<WrapperAggregate>,
    pub calls: Vec<LocalCall>,
    pub residuals: Vec<Residual>,
    /// Closures defined in the body whose signature can yield `Self`.
    pub closures: Vec<DefId>,
}

/// What a walk collects, as values.
pub struct CollectedView {
    pub defs: Seq<Seq<DefView>>,
    pub alias: Seq<Seq<usize>>,
    pub payload_alias: Seq<Seq<usize>>,
    pub mut_refs: Seq<Option<AtomView>>,
    pub wrappers: Seq<WrapperView>,
    pub calls: Seq<LocalCallView>,
    pub residuals: Seq<Residual>,
    pub closures: Seq<DefId>,
}

pub open spec fn local_lists(v: Seq<Vec<usize>>) -> Seq<Seq<usize>> {
    v.map_values(|l: Vec<usize>| l@)
}

pub open spec fn wrapper_views(v: Seq<WrapperAggregate>) -> Seq<WrapperView> {
    v.map_values(|w: WrapperAggregate| w@)
}

pub open spec fn call_views(v: Seq<LocalCall>) -> Seq<LocalCallView> {
    v.map_values(|c: LocalCall| c@)
}

impl View for Collected {
    type V = CollectedView;

    open spec fn view(&self) -> CollectedView {
        CollectedView {
            defs: all_def_views(self.defs@),
            alias: local_lists(self.alias@),
            payload_alias: local_lists(self.payload_alias@),
            mut_refs: atom_views(self.mut_refs@),
            wrappers: wrapper_views(self.wrappers@),
            calls: call_views(self.calls@),
            residuals: self.residuals@,
            closures: self.closures@,
        }
    }
}

/// Nothing collected, for a body of `n` locals.
pub open spec fn nothing_collected(n: nat) -> CollectedView {
    CollectedView {
        defs: Seq::new(n, |i: int| Seq::empty()),
        alias: Seq::new(n, |i: int| Seq::empty()),
        payload_alias: Seq::new(n, |i: int| Seq::empty()),
        mut_refs: Seq::new(n, |i: int| None),
        wrappers: Seq::empty(),
        calls: Seq::empty(),
        residuals: Seq::empty(),
        closures: Seq::empty(),
    }
}

/// `lists` with `x` appended to list `l`.
pub open spec fn appended<A>(lists: Seq<Seq<A>>, l: int, x: A) -> Seq<Seq<A>> {
    lists.update(l, lists[l].push(x))
}

/// `lists` with `x`, if there is one, appended to list `l`.
pub open spec fn appended_if<A>(lists: Seq<Seq<A>>, l: int, x: Option<A>) -> Seq<Seq<A>> {
    match x {
        Some(y) => appended(lists, l, y),
        None => lists,
    }
}

/// `list` with `x`, if there is one, behind it.
pub open spec fn pushed_if<A>(list: Seq<A>, x: Option<A>) -> Seq<A> {
    match x {
        Some(y) => list.push(y),
        None => list,
    }
}

/// The whole local that an assignment moves into a whole local.
pub open spec fn moved_local(dest: Place, rv: Rvalue) -> Option<usize> {
    match rv {
        Rvalue::Use(op) => match place_of_operand(op) {
            Some(p) => if dest.projection@.len() == 0 && p.projection@.len() == 0 {
                Some(p.local)
            } else {
                None
            },
            None => None,
        },
        _ => None,
    }
}

/// The local whose variant payload an assignment moves into a whole local.
pub open spec fn moved_payload(dest: Place, rv: Rvalue) -> Option<usize> {
    match rv {
        Rvalue::Use(op) => match place_of_operand(op) {
            Some(p) => if dest.projection@.len() == 0 && p.projection@.len() > 0 && exactness_of(
                p.projection@,
            ) == Exactness::VariantPayload {
                Some(p.local)
            } else {
                None
            },
            None => None,
        },
        _ => None,
    }
}

/// The place an assignment lets a whole local write to.
pub open spec fn borrowed_mutably(dest: Place, rv: Rvalue) -> Option<AtomView> {
    if dest.projection@.len() > 0 {
        None
    } else {
        match rv {
            Rvalue::Ref(m, p) => if m {
                Some(atom_of(p))
            } else {
                None
            },
            Rvalue::RawPtr(m, p) => if m {
                Some(atom_of(p))
            } else {
                None
            },
            Rvalue::Reborrow(m, p) => if m {
                Some(atom_of(p))
            } else {
                None
            },
            _ => None,
        }
    }
}

/// The `Result` or `Option` an assignment wraps up in a whole local.
pub open spec fn wrapped(
    defs: Definitions,
    entries: Seq<Seq<char>>,
    dest: Place,
    rv: Rvalue,
    bb: usize,
) -> Option<WrapperView> {
    match rv {
        Rvalue::Aggregate(kind, ops) => match kind {
            AggregateKind::Wrapper(w, ty) => if dest.projection@.len() == 0 {
                Some(
                    WrapperView {
                        dest: dest.local,
                        failure: w == Wrapper::ResultErr || w == Wrapper::OptionNone,
                        resource: w == Wrapper::ResultErr && (ty matches Some(t) && refused(
                            defs,
                            t,
                            entries,
                        )),
                        operand: if ops@.len() > 0 {
                            operand_atom(ops@[0])
                        } else {
                            None
                        },
                        block: bb,
                    },
                )
            } else {
                None
            },
            _ => None,
        },
        _ => None,
    }
}

/// The atom an operand reads.
pub open spec fn operand_atom(op: Operand) -> Option<AtomView> {
    match place_of_operand(op) {
        Some(p) => Some(atom_of(p)),
        None => None,
    }
}

/// The closure of this crate an assignment makes, when it can yield `Self`.
pub open spec fn yielding_closure(rv: Rvalue, self_did: DefId) -> Option<DefId> {
    match rv {
        Rvalue::Aggregate(kind, ops) => match kind {
            AggregateKind::Closure(def, out) => if mentions(out, self_did) {
                def
            } else {
                None
            },
            _ => None,
        },
        _ => None,
    }
}

/// What the walk reads things by: the definitions, the error types that are
/// the environment's, and the type that is constructed.
pub struct Scope {
    pub defs: Definitions,
    pub entries: Seq<Seq<char>>,
    pub self_did: DefId,
}

/// What is collected once a statement has been seen too.
pub open spec fn after_statement(
    c: CollectedView,
    scope: Scope,
    st: Statement,
    bb: usize,
) -> CollectedView {
    match st {
        Statement::Assign(dest, rv) => {
            let l = dest.local as int;
            CollectedView {
                defs: appended(
                    c.defs,
                    l,
                    DefView { dest: path_of(dest.projection@), reads: rvalue_reads(rv) },
                ),
                alias: appended_if(c.alias, l, moved_local(dest, rv)),
                payload_alias: appended_if(c.payload_alias, l, moved_payload(dest, rv)),
                mut_refs: match borrowed_mutably(dest, rv) {
                    Some(a) => c.mut_refs.update(l, Some(a)),
                    None => c.mut_refs,
                },
                wrappers: pushed_if(c.wrappers, wrapped(scope.defs, scope.entries, dest, rv, bb)),
                calls: c.calls,
                residuals: c.residuals,
                closures: pushed_if(c.closures, yielding_closure(rv, scope.self_did)),
            }
        },
        Statement::Other => c,
    }
}

/// The argument atoms of a call, by position.
pub open spec fn argument_atoms(args: Seq<Operand>) -> Seq<Option<AtomView>> {
    args.map_values(|a: Operand| operand_atom(a))
}

/// The atoms there are, in order.
pub open spec fn present(atoms: Seq<Option<AtomView>>) -> Seq<AtomView>
    decreases atoms.len(),
{
    if atoms.len() == 0 {
        Seq::empty()
    } else {
        pushed_if(present(atoms.drop_last()), atoms.last())
    }
}

/// What an argument holds a `&mut` to.
pub open spec fn pointed_to(mut_refs: Seq<Option<AtomView>>, a: AtomView) -> Option<AtomView> {
    if a.1.len() == 0 {
        mut_refs[a.0 as int]
    } else {
        None
    }
}

/// Some argument is a `&mut`: the call is an operation on it.
pub open spec fn is_operation(mut_refs: Seq<Option<AtomView>>, atoms: Seq<AtomView>) -> bool {
    exists|i: int| 0 <= i < atoms.len() && pointed_to(mut_refs, #[trigger] atoms[i]) is Some
}

/// What each argument is to the call's result.
pub open spec fn argument_reads(atoms: Seq<AtomView>, operation: bool) -> Seq<ReadView> {
    atoms.map_values(
        |a: AtomView|
            if operation {
                ReadView::CallArgMut
            } else {
                ReadView::CallArg(a)
            },
    )
}

/// What each argument is to what the call can write to.
pub open spec fn written_reads(atoms: Seq<AtomView>) -> Seq<ReadView> {
    atoms.map_values(|a: AtomView| ReadView::ViaMut(a))
}

/// The definitions once everything the first `k` arguments point to has been
/// written.
pub open spec fn after_writes(
    defs: Seq<Seq<DefView>>,
    mut_refs: Seq<Option<AtomView>>,
    atoms: Seq<AtomView>,
    k: int,
) -> Seq<Seq<DefView>>
    decreases k,
{
    if k <= 0 {
        defs
    } else {
        let before = after_writes(defs, mut_refs, atoms, k - 1);
        match pointed_to(mut_refs, atoms[k - 1]) {
            Some(target) => appended(
                before,
                target.0 as int,
                DefView { dest: target.1, reads: written_reads(atoms) },
            ),
            None => before,
        }
    }
}

/// Trait methods whose result is the receiver's value seen differently.
pub open spec fn is_view_trait(t: Option<TraitKind>) -> bool {
    t matches Some(k) && k != TraitKind::Other
}

/// The receiver as a view call hands it back: an element of it for indexing,
/// itself otherwise.
pub open spec fn viewed(t: Option<TraitKind>, recv: AtomView) -> AtomView {
    if t == Some(TraitKind::Index) || t == Some(TraitKind::IndexMut) {
        extended_atom(recv, seq![ANY_ELEM])
    } else {
        recv
    }
}

/// The whole locals among the atoms, as index reads.
pub open spec fn whole_index_reads(atoms: Seq<AtomView>) -> Seq<ReadView>
    decreases atoms.len(),
{
    if atoms.len() == 0 {
        Seq::empty()
    } else {
        let rest = whole_index_reads(atoms.drop_last());
        if atoms.last().1.len() == 0 {
            rest.push(ReadView::Index(atoms.last().0))
        } else {
            rest
        }
    }
}

/// What sort of call this is to the walk.
pub enum CallSort {
    /// The result is a view of this atom.
    ViewOf(AtomView),
    /// `?` passing a failure on, and whether it is the environment's.
    PassesFailure(bool),
    /// `?` taking this local apart.
    Takes(usize),
    /// `?` taking something else apart.
    TakesPart,
    /// A call to this function of the crate, into a whole local.
    OfCrate(DefId),
    Foreign,
}

pub open spec fn call_sort(
    scope: Scope,
    func: Option<Callee>,
    atoms: Seq<Option<AtomView>>,
    destination: Place,
) -> CallSort {
    match func {
        Some(callee) => {
            if is_view_trait(callee.of_trait) && atoms.len() > 0 && atoms[0] is Some {
                CallSort::ViewOf(viewed(callee.of_trait, atoms[0]->Some_0))
            } else if callee.try_fn == Some(TryFn::FromResidual) {
                CallSort::PassesFailure(
                    callee.residual matches Some(t) && fails_on_resource(
                        scope.defs,
                        t,
                        scope.entries,
                    ),
                )
            } else if callee.try_fn == Some(TryFn::Branch) {
                if atoms.len() > 0 && (atoms[0] matches Some(a) && a.1.len() == 0) {
                    CallSort::Takes(atoms[0]->Some_0.0)
                } else {
                    CallSort::TakesPart
                }
            } else if callee.is_local && destination.projection@.len() == 0 {
                CallSort::OfCrate(callee.def)
            } else {
                CallSort::Foreign
            }
        },
        None => CallSort::Foreign,
    }
}

/// What is collected once a call has been seen too.
pub open spec fn after_call(
    c: CollectedView,
    scope: Scope,
    func: Option<Callee>,
    args: Seq<Operand>,
    destination: Place,
    bb: usize,
) -> CollectedView {
    let atoms = argument_atoms(args);
    let there = present(atoms);
    let sort = call_sort(scope, func, atoms, destination);
    let l = destination.local as int;
    let reads = match sort {
        CallSort::ViewOf(a) => seq![ReadView::Same(a)] + whole_index_reads(
            present(atoms.drop_first()),
        ),
        _ => argument_reads(there, is_operation(c.mut_refs, there)),
    };
    CollectedView {
        defs: appended(
            after_writes(c.defs, c.mut_refs, there, there.len() as int),
            l,
            DefView { dest: path_of(destination.projection@), reads },
        ),
        alias: match sort {
            CallSort::Takes(r) => appended(c.alias, l, r),
            _ => c.alias,
        },
        payload_alias: c.payload_alias,
        mut_refs: c.mut_refs,
        wrappers: c.wrappers,
        calls: match sort {
            CallSort::OfCrate(def) => c.calls.push(
                LocalCallView { dest: destination.local, callee: def, args: atoms },
            ),
            _ => c.calls,
        },
        residuals: match sort {
            CallSort::PassesFailure(resource) => c.residuals.push(
                Residual { dest: destination.local, resource, block: bb },
            ),
            _ => c.residuals,
        },
        closures: c.closures,
    }
}

/// What is collected once the first `k` statements of a block have been seen
/// too.
pub open spec fn after_statements(
    c: CollectedView,
    scope: Scope,
    sts: Seq<Statement>,
    bb: usize,
    k: int,
) -> CollectedView
    decreases k,
{
    if k <= 0 {
        c
    } else {
        after_statement(after_statements(c, scope, sts, bb, k - 1), scope, sts[k - 1], bb)
    }
}

/// What is collected once a block has been seen too; a cleanup block adds
/// nothing.
pub open spec fn after_block(
    c: CollectedView,
    scope: Scope,
    block: BasicBlock,
    bb: usize,
) -> CollectedView {
    if block.is_cleanup {
        c
    } else {
        let d = after_statements(c, scope, block.statements@, bb, block.statements@.len() as int);
        match block.terminator {
            Some(t) => match t.kind {
                TerminatorKind::Call { func, args, destination, target } => after_call(
                    d,
                    scope,
                    func,
                    args@,
                    destination,
                    bb,
                ),
                _ => d,
            },
            None => d,
        }
    }
}

/// What the first `k` blocks give.
pub open spec fn after_blocks(scope: Scope, body: Body, k: int) -> CollectedView
    decreases k,
{
    if k <= 0 {
        nothing_collected(body.local_tys@.len())
    } else {
        after_block(after_blocks(scope, body, k - 1), scope, body.blocks@[k - 1], (k - 1) as usize)
    }
}

/// What a body gives.
pub open spec fn collected(scope: Scope, body: Body) -> CollectedView {
    after_blocks(scope, body, body.blocks@.len() as int)
}

// ---------------------------------------------------------------- the walk keeps locals in range

/// The local a read starts from, if it starts from one, is below `n`.
pub open spec fn read_ok(r: ReadView, n: nat) -> bool {
    match r {
        ReadView::Same(a) => a.0 < n,
        ReadView::Derived(a) => a.0 < n,
        ReadView::AggField(_, a) => a.0 < n,
        ReadView::Payload(a) => a.0 < n,
        ReadView::Discr(a) => a.0 < n,
        ReadView::Index(l) => l < n,
        ReadView::CallArg(a) => a.0 < n,
        ReadView::CallArgMut => true,
        ReadView::ViaMut(a) => a.0 < n,
    }
}

pub open spec fn reads_ok(reads: Seq<ReadView>, n: nat) -> bool {
    forall|i: int| 0 <= i < reads.len() ==> read_ok(#[trigger] reads[i], n)
}

pub open spec fn atom_ok(a: Option<AtomView>, n: nat) -> bool {
    a matches Some(x) ==> x.0 < n
}

pub open spec fn atoms_ok(s: Seq<Option<AtomView>>, n: nat) -> bool {
    forall|i: int| 0 <= i < s.len() ==> atom_ok(#[trigger] s[i], n)
}

/// Every definition reads locals below `n` only.
pub open spec fn defs_ok(defs: Seq<Seq<DefView>>, n: nat) -> bool {
    &&& defs.len() == n
    &&& forall|l: int, d: int|
        0 <= l < n && 0 <= d < defs[l].len() ==> reads_ok((#[trigger] defs[l][d]).reads, n)
}

pub open spec fn lists_ok(lists: Seq<Seq<usize>>, n: nat) -> bool {
    &&& lists.len() == n
    &&& forall|l: int, i: int|
        0 <= l < n && 0 <= i < lists[l].len() ==> #[trigger] lists[l][i] < n
}

/// Everything collected names locals below `n` and blocks below `m` only.
pub open spec fn collected_ok(c: CollectedView, n: nat, m: nat) -> bool {
    &&& defs_ok(c.defs, n)
    &&& lists_ok(c.alias, n)
    &&& lists_ok(c.payload_alias, n)
    &&& c.mut_refs.len() == n
    &&& atoms_ok(c.mut_refs, n)
    &&& forall|i: int|
        0 <= i < c.wrappers.len() ==> (#[trigger] c.wrappers[i]).dest < n && c.wrappers[i].block < m
            && atom_ok(c.wrappers[i].operand, n)
    &&& forall|i: int|
        0 <= i < c.calls.len() ==> (#[trigger] c.calls[i]).dest < n && atoms_ok(c.calls[i].args, n)
    &&& forall|i: int|
        0 <= i < c.residuals.len() ==> (#[trigger] c.residuals[i]).dest < n && c.residuals[i].block
            < m
}

proof fn lemma_place_reads_ok(p: Place, same: bool, n: nat)
    requires
        place_ok(p, n),
    ensures
        reads_ok(place_reads(p, same), n),
        reads_ok(index_reads(p.projection@), n),
{
    let idx = index_reads(p.projection@);
    assert forall|i: int| 0 <= i < idx.len() implies read_ok(#[trigger] idx[i], n) by {
        assert(index_locals_of(p.projection@)[i] < n);
    }
    let all = place_reads(p, same);
    assert forall|i: int| 0 <= i < all.len() implies read_ok(#[trigger] all[i], n) by {
        if i < idx.len() {
            assert(all[i] == idx[i]);
        }
    }
}

proof fn lemma_operand_reads_ok(op: Operand, same: bool, n: nat)
    requires
        operand_ok(op, n),
    ensures
        reads_ok(operand_reads(op, same), n),
        atom_ok(operand_atom(op), n),
{
    match place_of_operand(op) {
        Some(p) => lemma_place_reads_ok(p, same, n),
        None => {},
    }
}

proof fn lemma_concat_ok(a: Seq<ReadView>, b: Seq<ReadView>, n: nat)
    requires
        reads_ok(a, n),
        reads_ok(b, n),
    ensures
        reads_ok(a + b, n),
{
    let c = a + b;
    assert forall|i: int| 0 <= i < c.len() implies read_ok(#[trigger] c[i], n) by {
        if i < a.len() {
            assert(c[i] == a[i]);
        } else {
            assert(c[i] == b[i - a.len()]);
        }
    }
}

proof fn lemma_aggregate_reads_ok(ops: Seq<Operand>, n: nat)
    requires
        forall|i: int| 0 <= i < ops.len() ==> operand_ok(#[trigger] ops[i], n),
    ensures
        reads_ok(aggregate_reads(ops), n),
    decreases ops.len(),
{
    if ops.len() > 0 {
        let rest = ops.drop_last();
        assert forall|i: int| 0 <= i < rest.len() implies operand_ok(#[trigger] rest[i], n) by {
            assert(rest[i] == ops[i]);
        }
        lemma_aggregate_reads_ok(rest, n);
        let last = ops.last();
        assert(operand_ok(ops[ops.len() - 1], n));
        let part = part_reads(last, ops.len() - 1);
        assert(reads_ok(part, n)) by {
            match place_of_operand(last) {
                Some(p) => {
                    lemma_place_reads_ok(p, true, n);
                    let idx = index_reads(p.projection@);
                    assert forall|i: int| 0 <= i < part.len() implies read_ok(
                        #[trigger] part[i],
                        n,
                    ) by {
                        if i < idx.len() {
                            assert(part[i] == idx[i]);
                        }
                    }
                },
                None => {},
            }
        }
        lemma_concat_ok(aggregate_reads(rest), part, n);
    }
}

proof fn lemma_rvalue_reads_ok(rv: Rvalue, n: nat)
    requires
        rvalue_ok(rv, n),
    ensures
        reads_ok(rvalue_reads(rv), n),
{
    match rv {
        Rvalue::Use(op) => lemma_operand_reads_ok(op, true, n),
        Rvalue::Repeat(op) => lemma_operand_reads_ok(op, false, n),
        Rvalue::Cast(op) => lemma_operand_reads_ok(op, false, n),
        Rvalue::UnaryOp(op) => lemma_operand_reads_ok(op, false, n),
        Rvalue::WrapUnsafeBinder(op) => lemma_operand_reads_ok(op, false, n),
        Rvalue::Ref(_, p) => lemma_place_reads_ok(p, true, n),
        Rvalue::RawPtr(_, p) => lemma_place_reads_ok(p, true, n),
        Rvalue::Reborrow(_, p) => lemma_place_reads_ok(p, true, n),
        Rvalue::CopyForDeref(p) => lemma_place_reads_ok(p, true, n),
        Rvalue::BinaryOp(a, b) => {
            lemma_operand_reads_ok(a, false, n);
            lemma_operand_reads_ok(b, false, n);
            lemma_concat_ok(operand_reads(a, false), operand_reads(b, false), n);
        },
        Rvalue::Discriminant(p) => {
            lemma_place_reads_ok(p, true, n);
            let idx = index_reads(p.projection@);
            let all = rvalue_reads(rv);
            assert forall|i: int| 0 <= i < all.len() implies read_ok(#[trigger] all[i], n) by {
                if i < idx.len() {
                    assert(all[i] == idx[i]);
                }
            }
        },
        Rvalue::Aggregate(_, ops) => lemma_aggregate_reads_ok(ops@, n),
        Rvalue::ThreadLocalRef => {},
    }
}

proof fn lemma_appended_def_ok(defs: Seq<Seq<DefView>>, l: int, d: DefView, n: nat)
    requires
        defs_ok(defs, n),
        0 <= l < n,
        reads_ok(d.reads, n),
    ensures
        defs_ok(appended(defs, l, d), n),
{
    let after = appended(defs, l, d);
    assert forall|k: int, j: int|
        0 <= k < n && 0 <= j < after[k].len() implies reads_ok((#[trigger] after[k][j]).reads, n) by {
        if k == l && j == defs[l].len() {
        } else {
            assert(after[k][j] == defs[k][j]);
        }
    }
}

proof fn lemma_appended_list_ok(lists: Seq<Seq<usize>>, l: int, x: usize, n: nat)
    requires
        lists_ok(lists, n),
        0 <= l < n,
        x < n,
    ensures
        lists_ok(appended(lists, l, x), n),
{
    let after = appended(lists, l, x);
    assert forall|k: int, j: int|
        0 <= k < n && 0 <= j < after[k].len() implies #[trigger] after[k][j] < n by {
        if k == l && j == lists[l].len() {
        } else {
            assert(after[k][j] == lists[k][j]);
        }
    }
}

proof fn lemma_statement_keeps_ok(
    c: CollectedView,
    scope: Scope,
    st: Statement,
    bb: usize,
    n: nat,
    m: nat,
)
    requires
        collected_ok(c, n, m),
        statement_ok(st, n),
        bb < m,
    ensures
        collected_ok(after_statement(c, scope, st, bb), n, m),
{
    match st {
        Statement::Assign(dest, rv) => {
            let l = dest.local as int;
            lemma_rvalue_reads_ok(rv, n);
            lemma_appended_def_ok(
                c.defs,
                l,
                DefView { dest: path_of(dest.projection@), reads: rvalue_reads(rv) },
                n,
            );
            if moved_local(dest, rv) is Some {
                lemma_appended_list_ok(c.alias, l, moved_local(dest, rv)->Some_0, n);
            }
            if moved_payload(dest, rv) is Some {
                lemma_appended_list_ok(c.payload_alias, l, moved_payload(dest, rv)->Some_0, n);
            }
            let after = after_statement(c, scope, st, bb);
            assert(atoms_ok(after.mut_refs, n));
            match rv {
                Rvalue::Aggregate(kind, ops) => {
                    if ops@.len() > 0 {
                        assert(operand_ok(ops@[0], n));
                        lemma_operand_reads_ok(ops@[0], true, n);
                    }
                },
                _ => {},
            }
        },
        Statement::Other => {},
    }
}

proof fn lemma_present_ok(atoms: Seq<Option<AtomView>>, n: nat)
    requires
        atoms_ok(atoms, n),
    ensures
        forall|i: int| 0 <= i < present(atoms).len() ==> (#[trigger] present(atoms)[i]).0 < n,
    decreases atoms.len(),
{
    if atoms.len() > 0 {
        let rest = atoms.drop_last();
        assert forall|i: int| 0 <= i < rest.len() implies atom_ok(#[trigger] rest[i], n) by {
            assert(rest[i] == atoms[i]);
        }
        lemma_present_ok(rest, n);
        assert(atom_ok(atoms[atoms.len() - 1], n));
        let fewer = present(rest);
        let all = present(atoms);
        assert forall|i: int| 0 <= i < all.len() implies (#[trigger] all[i]).0 < n by {
            if i < fewer.len() {
                assert(all[i] == fewer[i]);
            }
        }
    }
}

proof fn lemma_whole_index_reads_ok(atoms: Seq<AtomView>, n: nat)
    requires
        forall|i: int| 0 <= i < atoms.len() ==> (#[trigger] atoms[i]).0 < n,
    ensures
        reads_ok(whole_index_reads(atoms), n),
    decreases atoms.len(),
{
    if atoms.len() > 0 {
        let rest = atoms.drop_last();
        assert forall|i: int| 0 <= i < rest.len() implies (#[trigger] rest[i]).0 < n by {
            assert(rest[i] == atoms[i]);
        }
        lemma_whole_index_reads_ok(rest, n);
        assert(atoms[atoms.len() - 1].0 < n);
    }
}

proof fn lemma_writes_keep_ok(
    defs: Seq<Seq<DefView>>,
    mut_refs: Seq<Option<AtomView>>,
    atoms: Seq<AtomView>,
    k: int,
    n: nat,
)
    requires
        defs_ok(defs, n),
        mut_refs.len() == n,
        atoms_ok(mut_refs, n),
        forall|i: int| 0 <= i < atoms.len() ==> (#[trigger] atoms[i]).0 < n,
        0 <= k <= atoms.len(),
    ensures
        defs_ok(after_writes(defs, mut_refs, atoms, k), n),
    decreases k,
{
    if k > 0 {
        lemma_writes_keep_ok(defs, mut_refs, atoms, k - 1, n);
        assert(atoms[k - 1].0 < n);
        match pointed_to(mut_refs, atoms[k - 1]) {
            Some(target) => {
                assert(atom_ok(mut_refs[atoms[k - 1].0 as int], n));
                let d = DefView { dest: target.1, reads: written_reads(atoms) };
                assert(reads_ok(d.reads, n)) by {
                    assert forall|i: int| 0 <= i < d.reads.len() implies read_ok(
                        #[trigger] d.reads[i],
                        n,
                    ) by {
                        assert(atoms[i].0 < n);
                    }
                }
                lemma_appended_def_ok(
                    after_writes(defs, mut_refs, atoms, k - 1),
                    target.0 as int,
                    d,
                    n,
                );
            },
            None => {},
        }
    }
}

proof fn lemma_call_keeps_ok(
    c: CollectedView,
    scope: Scope,
    func: Option<Callee>,
    args: Seq<Operand>,
    destination: Place,
    bb: usize,
    n: nat,
    m: nat,
)
    requires
        collected_ok(c, n, m),
        place_ok(destination, n),
        forall|i: int| 0 <= i < args.len() ==> operand_ok(#[trigger] args[i], n),
        bb < m,
    ensures
        collected_ok(after_call(c, scope, func, args, destination, bb), n, m),
{
    let atoms = argument_atoms(args);
    let there = present(atoms);
    assert forall|i: int| 0 <= i < atoms.len() implies atom_ok(#[trigger] atoms[i], n) by {
        lemma_operand_reads_ok(args[i], true, n);
    }
    lemma_present_ok(atoms, n);
    lemma_writes_keep_ok(c.defs, c.mut_refs, there, there.len() as int, n);
    let sort = call_sort(scope, func, atoms, destination);
    let reads = match sort {
        CallSort::ViewOf(a) => seq![ReadView::Same(a)] + whole_index_reads(
            present(atoms.drop_first()),
        ),
        _ => argument_reads(there, is_operation(c.mut_refs, there)),
    };
    assert(reads_ok(reads, n)) by {
        match sort {
            CallSort::ViewOf(a) => {
                let rest = atoms.drop_first();
                assert forall|i: int| 0 <= i < rest.len() implies atom_ok(#[trigger] rest[i], n) by {
                    assert(rest[i] == atoms[i + 1]);
                }
                lemma_present_ok(rest, n);
                lemma_whole_index_reads_ok(present(rest), n);
                assert(atom_ok(atoms[0], n));
                lemma_concat_ok(seq![ReadView::Same(a)], whole_index_reads(present(rest)), n);
            },
            _ => {
                assert forall|i: int| 0 <= i < reads.len() implies read_ok(#[trigger] reads[i], n) by {
                    assert(there[i].0 < n);
                }
            },
        }
    }
    let l = destination.local as int;
    lemma_appended_def_ok(
        after_writes(c.defs, c.mut_refs, there, there.len() as int),
        l,
        DefView { dest: path_of(destination.projection@), reads },
        n,
    );
    match sort {
        CallSort::Takes(r) => {
            assert(atom_ok(atoms[0], n));
            lemma_appended_list_ok(c.alias, l, r, n);
        },
        _ => {},
    }
}

proof fn lemma_statements_keep_ok(
    c: CollectedView,
    scope: Scope,
    sts: Seq<Statement>,
    bb: usize,
    k: int,
    n: nat,
    m: nat,
)
    requires
        collected_ok(c, n, m),
        forall|i: int| 0 <= i < sts.len() ==> statement_ok(#[trigger] sts[i], n),
        0 <= k <= sts.len(),
        bb < m,
    ensures
        collected_ok(after_statements(c, scope, sts, bb, k), n, m),
    decreases k,
{
    if k > 0 {
        lemma_statements_keep_ok(c, scope, sts, bb, k - 1, n, m);
        assert(statement_ok(sts[k - 1], n));
        lemma_statement_keeps_ok(
            after_statements(c, scope, sts, bb, k - 1),
            scope,
            sts[k - 1],
            bb,
            n,
            m,
        );
    }
}

proof fn lemma_block_keeps_ok(
    c: CollectedView,
    scope: Scope,
    block: BasicBlock,
    bb: usize,
    n: nat,
    m: nat,
)
    requires
        collected_ok(c, n, m),
        block_ok(block, n),
        bb < m,
    ensures
        collected_ok(after_block(c, scope, block, bb), n, m),
{
    if !block.is_cleanup {
        let k = block.statements@.len() as int;
        lemma_statements_keep_ok(c, scope, block.statements@, bb, k, n, m);
        match block.terminator {
            Some(t) => match t.kind {
                TerminatorKind::Call { func, args, destination, target } => {
                    lemma_call_keeps_ok(
                        after_statements(c, scope, block.statements@, bb, k),
                        scope,
                        func,
                        args@,
                        destination,
                        bb,
                        n,
                        m,
                    );
                },
                _ => {},
            },
            None => {},
        }
    }
}

/// What a walk over the blocks of a valid body collects names locals and
/// blocks of that body only.
pub proof fn lemma_collected_ok(scope: Scope, body: Body, k: int)
    requires
        valid_body(body),
        0 <= k <= body.blocks@.len(),
    ensures
        collected_ok(after_blocks(scope, body, k), body.local_tys@.len(), body.blocks@.len()),
    decreases k,
{
    if k > 0 {
        lemma_collected_ok(scope, body, k - 1);
        assert(block_ok(body.blocks@[k - 1], body.local_tys@.len()));
        lemma_block_keeps_ok(
            after_blocks(scope, body, k - 1),
            scope,
            body.blocks@[k - 1],
            (k - 1) as usize,
            body.local_tys@.len(),
            body.blocks@.len(),
        );
    }
}

// ---------------------------------------------------------------- the walk

fn add_def(defs: &mut Vec<Vec<Def>>, l: usize, d: Def)
    requires
        l < old(defs)@.len(),
    ensures
        all_def_views(final(defs)@) == appended(all_def_views(old(defs)@), l as int, d@),
        final(defs)@.len() == old(defs)@.len(),
{
    let ghost before = defs@;
    defs[l].push(d);
    proof {
        assert(def_views(defs@[l as int]@) =~= def_views(before[l as int]@).push(d@));
        assert(all_def_views(defs@) =~= appended(all_def_views(before), l as int, d@));
    }
}

fn add_local(lists: &mut Vec<Vec<usize>>, l: usize, x: usize)
    requires
        l < old(lists)@.len(),
    ensures
        local_lists(final(lists)@) == appended(local_lists(old(lists)@), l as int, x),
        final(lists)@.len() == old(lists)@.len(),
{
    let ghost before = lists@;
    lists[l].push(x);
    proof {
        assert(local_lists(lists@) =~= appended(local_lists(before), l as int, x));
    }
}

/// The atom an operand reads.
fn atom_of_operand(op: &Operand) -> (r: Option<Atom>)
    ensures
        atom_view(r) == operand_atom(*op),
{
    match operand_place(op) {
        Some(p) => Some(place_info(p).atom),
        None => None,
    }
}

fn copy_atom(a: &Option<Atom>) -> (r: Option<Atom>)
    ensures
        atom_view(r) == atom_view(*a),
{
    match a {
        Some(x) => Some(x.copied()),
        None => None,
    }
}

fn copy_atoms(v: &Vec<Option<Atom>>) -> (r: Vec<Option<Atom>>)
    ensures
        atom_views(r@) == atom_views(v@),
{
    let mut out: Vec<Option<Atom>> = Vec::new();
    let mut i: usize = 0;
    while i < v.len()
        invariant
            i <= v@.len(),
            out@.len() == i,
            forall|k: int| 0 <= k < i ==> atom_view(#[trigger] out@[k]) == atom_view(v@[k]),
        decreases v.len() - i,
    {
        out.push(copy_atom(&v[i]));
        i = i + 1;
    }
    assert(atom_views(out@) =~= atom_views(v@));
    out
}

/// The atoms of a list as values.
pub open spec fn plain_views(s: Seq<Atom>) -> Seq<AtomView> {
    s.map_values(|a: Atom| a@)
}

proof fn lemma_plain_push(s: Seq<Atom>, a: Atom)
    ensures
        plain_views(s.push(a)) == plain_views(s).push(a@),
{
    assert(plain_views(s.push(a)) =~= plain_views(s).push(a@));
}

/// The atoms there are from position `from` on, in order.
fn present_atoms(atoms: &Vec<Option<Atom>>, from: usize) -> (r: Vec<Atom>)
    requires
        from <= atoms@.len(),
    ensures
        plain_views(r@) == present(atom_views(atoms@).skip(from as int)),
{
    let mut out: Vec<Atom> = Vec::new();
    let ghost all = atom_views(atoms@).skip(from as int);
    let mut i: usize = from;
    assert(plain_views(out@) =~= present(all.take(0)));
    while i < atoms.len()
        invariant
            from <= i <= atoms@.len(),
            all == atom_views(atoms@).skip(from as int),
            plain_views(out@) == present(all.take(i - from)),
        decreases atoms.len() - i,
    {
        proof {
            assert(all.take(i + 1 - from).drop_last() =~= all.take(i - from));
            assert(all.take(i + 1 - from).last() == atom_view(atoms@[i as int]));
        }
        match &atoms[i] {
            Some(a) => {
                let b = a.copied();
                proof {
                    lemma_plain_push(out@, b);
                }
                out.push(b);
            },
            None => {},
        }
        i = i + 1;
    }
    assert(all.take(atoms@.len() - from) =~= all);
    out
}

/// Whether some argument is a `&mut`.
fn operates(mut_refs: &Vec<Option<Atom>>, atoms: &Vec<Atom>) -> (r: bool)
    requires
        forall|i: int| 0 <= i < atoms@.len() ==> (#[trigger] atoms@[i])@.0 < mut_refs@.len(),
    ensures
        r == is_operation(atom_views(mut_refs@), plain_views(atoms@)),
{
    let mut i: usize = 0;
    while i < atoms.len()
        invariant
            i <= atoms@.len(),
            forall|i: int| 0 <= i < atoms@.len() ==> (#[trigger] atoms@[i])@.0 < mut_refs@.len(),
            forall|k: int|
                0 <= k < i ==> pointed_to(
                    atom_views(mut_refs@),
                    #[trigger] plain_views(atoms@)[k],
                ) is None,
        decreases atoms.len() - i,
    {
        let l: usize = atoms[i].local;
        assert(atoms@[i as int]@.0 < mut_refs@.len());
        assert(plain_views(atoms@)[i as int] == atoms@[i as int]@);
        if atoms[i].path.len() == 0 && mut_refs[l].is_some() {
            assert(pointed_to(atom_views(mut_refs@), plain_views(atoms@)[i as int]) is Some);
            return true;
        }
        i = i + 1;
    }
    false
}

fn reads_of_arguments(atoms: &Vec<Atom>, operation: bool) -> (r: Vec<Read>)
    ensures
        read_views(r@) == argument_reads(plain_views(atoms@), operation),
{
    let mut out: Vec<Read> = Vec::new();
    let mut i: usize = 0;
    while i < atoms.len()
        invariant
            i <= atoms@.len(),
            out@.len() == i,
            forall|k: int|
                0 <= k < i ==> (#[trigger] out@[k])@ == (if operation {
                    ReadView::CallArgMut
                } else {
                    ReadView::CallArg(atoms@[k]@)
                }),
        decreases atoms.len() - i,
    {
        if operation {
            out.push(Read::CallArgMut);
        } else {
            out.push(Read::CallArg(atoms[i].copied()));
        }
        i = i + 1;
    }
    assert(read_views(out@) =~= argument_reads(plain_views(atoms@), operation));
    out
}

fn reads_of_writers(atoms: &Vec<Atom>) -> (r: Vec<Read>)
    ensures
        read_views(r@) == written_reads(plain_views(atoms@)),
{
    let mut out: Vec<Read> = Vec::new();
    let mut i: usize = 0;
    while i < atoms.len()
        invariant
            i <= atoms@.len(),
            out@.len() == i,
            forall|k: int| 0 <= k < i ==> (#[trigger] out@[k])@ == ReadView::ViaMut(atoms@[k]@),
        decreases atoms.len() - i,
    {
        out.push(Read::ViaMut(atoms[i].copied()));
        i = i + 1;
    }
    assert(read_views(out@) =~= written_reads(plain_views(atoms@)));
    out
}

fn reads_of_whole(atoms: &Vec<Atom>, out: &mut Vec<Read>)
    ensures
        read_views(final(out)@) == read_views(old(out)@) + whole_index_reads(plain_views(atoms@)),
{
    let ghost before = read_views(out@);
    let ghost all = plain_views(atoms@);
    let mut i: usize = 0;
    assert(before =~= before + whole_index_reads(all.take(0)));
    while i < atoms.len()
        invariant
            i <= atoms@.len(),
            all == plain_views(atoms@),
            read_views(out@) == before + whole_index_reads(all.take(i as int)),
        decreases atoms.len() - i,
    {
        assert(all.take(i + 1).drop_last() =~= all.take(i as int));
        if atoms[i].path.len() == 0 {
            let r = Read::Index(atoms[i].local);
            proof {
                lemma_read_push(out@, r);
            }
            out.push(r);
        }
        assert(read_views(out@) =~= before + whole_index_reads(all.take(i + 1)));
        i = i + 1;
    }
    assert(all.take(all.len() as int) =~= all);
}

impl Collected {
    fn none(n: usize) -> (r: Collected)
        ensures
            r@ == nothing_collected(n as nat),
    {
        let mut defs: Vec<Vec<Def>> = Vec::new();
        let mut alias: Vec<Vec<usize>> = Vec::new();
        let mut payload_alias: Vec<Vec<usize>> = Vec::new();
        let mut mut_refs: Vec<Option<Atom>> = Vec::new();
        let mut i: usize = 0;
        while i < n
            invariant
                i <= n,
                defs@.len() == i,
                alias@.len() == i,
                payload_alias@.len() == i,
                mut_refs@.len() == i,
                forall|k: int| 0 <= k < i ==> (#[trigger] defs@[k])@.len() == 0,
                forall|k: int| 0 <= k < i ==> (#[trigger] alias@[k])@.len() == 0,
                forall|k: int| 0 <= k < i ==> (#[trigger] payload_alias@[k])@.len() == 0,
                forall|k: int| 0 <= k < i ==> #[trigger] mut_refs@[k] is None,
            decreases n - i,
        {
            defs.push(Vec::new());
            alias.push(Vec::new());
            payload_alias.push(Vec::new());
            mut_refs.push(None);
            i = i + 1;
        }
        let r = Collected {
            defs,
            alias,
            payload_alias,
            mut_refs,
            wrappers: Vec::new(),
            calls: Vec::new(),
            residuals: Vec::new(),
            closures: Vec::new(),
        };
        proof {
            let e = nothing_collected(n as nat);
            assert forall|k: int| 0 <= k < n implies #[trigger] r@.defs[k] == e.defs[k] by {
                assert(r.defs@[k]@.len() == 0);
                assert(r@.defs[k] =~= Seq::<DefView>::empty());
            }
            assert forall|k: int| 0 <= k < n implies #[trigger] r@.alias[k] == e.alias[k] by {
                assert(r.alias@[k]@.len() == 0);
                assert(r@.alias[k] =~= Seq::<usize>::empty());
            }
            assert forall|k: int| 0 <= k < n implies #[trigger] r@.payload_alias[k]
                == e.payload_alias[k] by {
                assert(r.payload_alias@[k]@.len() == 0);
                assert(r@.payload_alias[k] =~= Seq::<usize>::empty());
            }
            assert(r@.defs =~= e.defs);
            assert(r@.alias =~= e.alias);
            assert(r@.payload_alias =~= e.payload_alias);
            assert(r@.mut_refs =~= e.mut_refs);
            assert(r@.wrappers =~= e.wrappers);
            assert(r@.calls =~= e.calls);
        }
        r
    }

    fn note_mut_ref(&mut self, dest: &Place, target: &Place)
        requires
            dest.local < old(self).mut_refs@.len(),
        ensures
            final(self)@ == (CollectedView {
                mut_refs: if dest.projection@.len() == 0 {
                    old(self)@.mut_refs.update(dest.local as int, Some(atom_of(*target)))
                } else {
                    old(self)@.mut_refs
                },
                ..old(self)@
            }),
    {
        if dest.projection.len() == 0 {
            let ghost before = self@.mut_refs;
            self.mut_refs.set(dest.local, Some(place_info(target).atom));
            assert(self@.mut_refs =~= before.update(dest.local as int, Some(atom_of(*target))));
        }
    }

    fn note_statement(
        &mut self,
        defs: &Definitions,
        entries: &Vec<String>,
        self_did: DefId,
        st: &Statement,
        bb: usize,
        n: usize,
        Ghost(m): Ghost<nat>,
    )
        requires
            collected_ok(old(self)@, n as nat, m),
            statement_ok(*st, n as nat),
        ensures
            final(self)@ == after_statement(
                old(self)@,
                Scope { defs: *defs, entries: crate::text::texts(entries@), self_did },
                *st,
                bb,
            ),
    {
        let ghost scope = Scope { defs: *defs, entries: crate::text::texts(entries@), self_did };
        let ghost start = self@;
        match st {
            Statement::Assign(dest, rv) => {
                let ghost l = dest.local as int;
                let reads = reads_of_rvalue(rv);
                match rv {
                    Rvalue::Use(op) => {
                        if dest.projection.len() == 0 {
                            match operand_place(op) {
                                Some(p) => {
                                    let info = place_info(p);
                                    if p.projection.len() == 0 {
                                        add_local(&mut self.alias, dest.local, p.local);
                                    } else if info.exactness == Exactness::VariantPayload {
                                        add_local(&mut self.payload_alias, dest.local, p.local);
                                    }
                                },
                                None => {},
                            }
                        }
                    },
                    Rvalue::Ref(m, p) | Rvalue::RawPtr(m, p) | Rvalue::Reborrow(m, p) => {
                        if *m {
                            self.note_mut_ref(dest, p);
                        }
                    },
                    Rvalue::Aggregate(kind, ops) => {
                        match kind {
                            AggregateKind::Wrapper(w, ty) => {
                                if dest.projection.len() == 0 {
                                    let resource = match (w, ty) {
                                        (Wrapper::ResultErr, Some(t)) => is_resource_error(
                                            defs,
                                            t,
                                            entries,
                                        ),
                                        _ => false,
                                    };
                                    let failure = match w {
                                        Wrapper::ResultErr | Wrapper::OptionNone => true,
                                        _ => false,
                                    };
                                    let operand = if ops.len() > 0 {
                                        atom_of_operand(&ops[0])
                                    } else {
                                        None
                                    };
                                    let agg = WrapperAggregate {
                                        dest: dest.local,
                                        failure,
                                        resource,
                                        operand,
                                        block: bb,
                                    };
                                    let ghost before = self.wrappers@;
                                    self.wrappers.push(agg);
                                    assert(wrapper_views(self.wrappers@) =~= wrapper_views(
                                        before,
                                    ).push(agg@));
                                }
                            },
                            AggregateKind::Closure(def, out) => {
                                if out.mentions_adt(self_did) {
                                    match def {
                                        Some(d) => self.closures.push(*d),
                                        None => {},
                                    }
                                }
                            },
                            AggregateKind::Other => {},
                        }
                    },
                    _ => {},
                }
                let path = place_info(dest).atom.path;
                let d = Def { dest: path, reads };
                add_def(&mut self.defs, dest.local, d);
                proof {
                    let want = after_statement(start, scope, *st, bb);
                    assert(d@ == DefView {
                        dest: path_of(dest.projection@),
                        reads: rvalue_reads(*rv),
                    });
                    assert(self@.defs =~= want.defs);
                    assert(self@.alias =~= want.alias);
                    assert(self@.payload_alias =~= want.payload_alias);
                    assert(self@.mut_refs =~= want.mut_refs);
                    assert(self@.wrappers =~= want.wrappers);
                    assert(self@.closures =~= want.closures);
                }
            },
            Statement::Other => {},
        }
    }

    fn note_writes(&mut self, atoms: &Vec<Atom>, n: usize, Ghost(m): Ghost<nat>)
        requires
            collected_ok(old(self)@, n as nat, m),
            forall|i: int| 0 <= i < atoms@.len() ==> (#[trigger] atoms@[i])@.0 < n,
        ensures
            final(self)@ == (CollectedView {
                defs: after_writes(
                    old(self)@.defs,
                    old(self)@.mut_refs,
                    plain_views(atoms@),
                    atoms@.len() as int,
                ),
                ..old(self)@
            }),
    {
        let ghost start = self@;
        let ghost all = plain_views(atoms@);
        let mut i: usize = 0;
        while i < atoms.len()
            invariant
                i <= atoms@.len(),
                all == plain_views(atoms@),
                collected_ok(start, n as nat, m),
                forall|i: int| 0 <= i < atoms@.len() ==> (#[trigger] atoms@[i])@.0 < n,
                self@ == (CollectedView {
                    defs: after_writes(start.defs, start.mut_refs, all, i as int),
                    ..start
                }),
            decreases atoms.len() - i,
        {
            let l: usize = atoms[i].local;
            assert(atoms@[i as int]@.0 < n);
            assert(all[i as int] == atoms@[i as int]@);
            proof {
                assert forall|k: int| 0 <= k < all.len() implies (#[trigger] all[k]).0 < n by {
                    assert(atoms@[k]@.0 < n);
                }
                lemma_writes_keep_ok(start.defs, start.mut_refs, all, i as int, n as nat);
            }
            assert(self@.mut_refs.len() == n);
            if atoms[i].path.len() == 0 {
                assert(atom_views(self.mut_refs@)[l as int] == atom_view(self.mut_refs@[l as int]));
                match &self.mut_refs[l] {
                    Some(target) => {
                        let t: usize = target.local;
                        let d = Def {
                            dest: copy_path(&target.path),
                            reads: reads_of_writers(atoms),
                        };
                        proof {
                            assert(atom_ok(start.mut_refs[l as int], n as nat));
                            assert(d@ == DefView { dest: target@.1, reads: written_reads(all) });
                        }
                        add_def(&mut self.defs, t, d);
                    },
                    None => {},
                }
            }
            i = i + 1;
        }
    }

    fn note_call(
        &mut self,
        defs: &Definitions,
        entries: &Vec<String>,
        self_did: DefId,
        func: &Option<Callee>,
        args: &Vec<Operand>,
        destination: &Place,
        bb: usize,
        n: usize,
        Ghost(m): Ghost<nat>,
    )
        requires
            collected_ok(old(self)@, n as nat, m),
            place_ok(*destination, n as nat),
            forall|i: int| 0 <= i < args@.len() ==> operand_ok(#[trigger] args@[i], n as nat),
        ensures
            final(self)@ == after_call(
                old(self)@,
                Scope { defs: *defs, entries: crate::text::texts(entries@), self_did },
                *func,
                args@,
                *destination,
                bb,
            ),
    {
        let ghost scope = Scope { defs: *defs, entries: crate::text::texts(entries@), self_did };
        let ghost start = self@;
        let mut arg_atoms: Vec<Option<Atom>> = Vec::new();
        let mut i: usize = 0;
        while i < args.len()
            invariant
                i <= args@.len(),
                arg_atoms@.len() == i,
                forall|k: int|
                    0 <= k < i ==> atom_view(#[trigger] arg_atoms@[k]) == operand_atom(args@[k]),
            decreases args.len() - i,
        {
            arg_atoms.push(atom_of_operand(&args[i]));
            i = i + 1;
        }
        let ghost atoms = argument_atoms(args@);
        assert(atom_views(arg_atoms@) =~= atoms);
        let there = present_atoms(&arg_atoms, 0);
        assert(atoms.skip(0) =~= atoms);
        proof {
            assert forall|k: int| 0 <= k < atoms.len() implies atom_ok(
                #[trigger] atoms[k],
                n as nat,
            ) by {
                lemma_operand_reads_ok(args@[k], true, n as nat);
            }
            lemma_present_ok(atoms, n as nat);
            assert forall|k: int| 0 <= k < there@.len() implies (#[trigger] there@[k])@.0 < n by {
                assert(plain_views(there@)[k] == there@[k]@);
                assert(present(atoms)[k].0 < n);
            }
        }
        let operation = operates(&self.mut_refs, &there);
        let mut reads = reads_of_arguments(&there, operation);
        self.note_writes(&there, n, Ghost(m));
        let ghost sort = call_sort(scope, *func, atoms, *destination);
        match func {
            Some(callee) => {
                let is_view = match callee.of_trait {
                    Some(TraitKind::Other) => false,
                    Some(_) => true,
                    None => false,
                };
                let recv = if is_view && arg_atoms.len() > 0 {
                    copy_atom(&arg_atoms[0])
                } else {
                    None
                };
                proof {
                    if arg_atoms@.len() > 0 {
                        assert(atoms[0] == atom_view(arg_atoms@[0]));
                    }
                }
                match recv {
                    Some(recv) => {
                        let whole = match callee.of_trait {
                            Some(TraitKind::Index) | Some(TraitKind::IndexMut) => {
                                let tail: Vec<u32> = vec![ANY_ELEM];
                                assert(tail@ =~= seq![ANY_ELEM]);
                                recv.extended(&tail)
                            },
                            _ => recv,
                        };
                        reads = Vec::new();
                        let first = Read::Same(whole);
                        reads.push(first);
                        assert(read_views(reads@) =~= seq![first@]);
                        let others = present_atoms(&arg_atoms, 1);
                        reads_of_whole(&others, &mut reads);
                        assert(atoms.skip(1) =~= atoms.drop_first());
                    },
                    None => {
                        match callee.try_fn {
                            Some(TryFn::FromResidual) => {
                                let resource = match &callee.residual {
                                    Some(t) => has_resource_error(defs, t, entries),
                                    None => false,
                                };
                                self.residuals.push(
                                    Residual { dest: destination.local, resource, block: bb },
                                );
                            },
                            Some(TryFn::Branch) => {
                                if arg_atoms.len() > 0 {
                                    match &arg_atoms[0] {
                                        Some(r) => {
                                            if r.path.len() == 0 {
                                                add_local(
                                                    &mut self.alias,
                                                    destination.local,
                                                    r.local,
                                                );
                                            }
                                        },
                                        None => {},
                                    }
                                }
                            },
                            None => {
                                if callee.is_local && destination.projection.len() == 0 {
                                    let call = LocalCall {
                                        dest: destination.local,
                                        callee: callee.def,
                                        args: copy_atoms(&arg_atoms),
                                    };
                                    let ghost before = self.calls@;
                                    self.calls.push(call);
                                    assert(call_views(self.calls@) =~= call_views(before).push(
                                        call@,
                                    ));
                                }
                            },
                        }
                    },
                }
            },
            None => {},
        }
        let path = place_info(destination).atom.path;
        let d = Def { dest: path, reads };
        proof {
            lemma_writes_keep_ok(
                start.defs,
                start.mut_refs,
                present(atoms),
                present(atoms).len() as int,
                n as nat,
            );
        }
        add_def(&mut self.defs, destination.local, d);
        proof {
            let want = after_call(start, scope, *func, args@, *destination, bb);
            assert(self@.defs =~= want.defs);
            assert(self@.alias =~= want.alias);
            assert(self@.payload_alias =~= want.payload_alias);
            assert(self@.mut_refs =~= want.mut_refs);
            assert(self@.wrappers =~= want.wrappers);
            assert(self@.calls =~= want.calls);
            assert(self@.residuals =~= want.residuals);
            assert(self@.closures =~= want.closures);
        }
    }
}

/// Walks a body and collects what the slices need.
pub fn collect(body: &Body, defs: &Definitions, entries: &Vec<String>, self_did: DefId) -> (r:
    Collected)
    requires
        valid_body(*body),
    ensures
        r@ == collected(
            (Scope { defs: *defs, entries: crate::text::texts(entries@), self_did }),
            *body,
        ),
        collected_ok(r@, body.local_tys@.len(), body.blocks@.len()),
{
    let ghost scope = Scope { defs: *defs, entries: crate::text::texts(entries@), self_did };
    let n: usize = body.local_tys.len();
    let ghost m = body.blocks@.len();
    let mut c = Collected::none(n);
    let mut b: usize = 0;
    while b < body.blocks.len()
        invariant
            b <= body.blocks@.len(),
            valid_body(*body),
            n == body.local_tys@.len(),
            m == body.blocks@.len(),
            scope == (Scope { defs: *defs, entries: crate::text::texts(entries@), self_did }),
            c@ == after_blocks(scope, *body, b as int),
        decreases body.blocks.len() - b,
    {
        proof {
            lemma_collected_ok(scope, *body, b as int);
        }
        let block = &body.blocks[b];
        let ghost start = c@;
        assert(block_ok(body.blocks@[b as int], n as nat));
        if !block.is_cleanup {
            let mut i: usize = 0;
            while i < block.statements.len()
                invariant
                    i <= block.statements@.len(),
                    block_ok(*block, n as nat),
                    collected_ok(start, n as nat, m),
                    b < m,
                    scope == (Scope { defs: *defs, entries: crate::text::texts(entries@), self_did }),
                    c@ == after_statements(start, scope, block.statements@, b, i as int),
                decreases block.statements.len() - i,
            {
                proof {
                    lemma_statements_keep_ok(
                        start,
                        scope,
                        block.statements@,
                        b,
                        i as int,
                        n as nat,
                        m,
                    );
                    assert(statement_ok(block.statements@[i as int], n as nat));
                }
                c.note_statement(
                    defs,
                    entries,
                    self_did,
                    &block.statements[i],
                    b,
                    n,
                    Ghost(m),
                );
                i = i + 1;
            }
            proof {
                lemma_statements_keep_ok(
                    start,
                    scope,
                    block.statements@,
                    b,
                    i as int,
                    n as nat,
                    m,
                );
            }
            match &block.terminator {
                Some(t) => {
                    match &t.kind {
                        TerminatorKind::Call { func, args, destination, target } => {
                            c.note_call(
                                defs,
                                entries,
                                self_did,
                                func,
                                args,
                                destination,
                                b,
                                n,
                                Ghost(m),
                            );
                        },
                        _ => {},
                    }
                },
                None => {},
            }
        }
        b = b + 1;
    }
    proof {
        lemma_collected_ok(scope, *body, body.blocks@.len() as int);
    }
    c
}

/// Being refused memory or I/O says nothing of a value: these errors of std
/// are known as such.
pub proof fn lemma_known_resource_errors(path: Seq<char>)
    ensures
        path == "core::alloc::AllocError"@ || path == "std::alloc::AllocError"@ || path
            == "alloc::collections::TryReserveError"@ || path
            == "std::collections::TryReserveError"@ || path == "core::alloc::LayoutError"@ || path
            == "std::alloc::LayoutError"@ || path == "std::io::Error"@ || path
            == "std::thread::AccessError"@ <==> resource_errors().contains(path),
{
    let v = resource_errors();
    assert(v[0] == "core::alloc::AllocError"@ && v[1] == "std::alloc::AllocError"@);
    assert(v[2] == "alloc::collections::TryReserveError"@);
    assert(v[3] == "std::collections::TryReserveError"@);
    assert(v[4] == "core::alloc::LayoutError"@ && v[5] == "std::alloc::LayoutError"@);
    assert(v[6] == "std::io::Error"@ && v[7] == "std::thread::AccessError"@);
}

proof fn lemma_plain_index_reads(p: Place)
    requires
        index_locals_of(p.projection@).len() == 0,
    ensures
        index_reads(p.projection@) == Seq::<ReadView>::empty(),
{
    assert(index_reads(p.projection@) =~= Seq::empty());
}

/// What a value reads of a place it is exact about: a copy and a borrow are
/// that value, what is computed is derived from it, a discriminant tells its
/// variant, and what is taken out of a variant is its payload.
pub proof fn lemma_values_read_their_place(p: Place, m: bool)
    requires
        index_locals_of(p.projection@).len() == 0,
    ensures
        exactness_of(p.projection@) == Exactness::Exact ==> ({
            let whole = seq![ReadView::Same(atom_of(p))];
            let part = seq![ReadView::Derived(atom_of(p))];
            &&& rvalue_reads(Rvalue::Use(Operand::Copy(p))) == whole
            &&& rvalue_reads(Rvalue::Use(Operand::Move(p))) == whole
            &&& rvalue_reads(Rvalue::Ref(m, p)) == whole
            &&& rvalue_reads(Rvalue::RawPtr(m, p)) == whole
            &&& rvalue_reads(Rvalue::Reborrow(m, p)) == whole
            &&& rvalue_reads(Rvalue::CopyForDeref(p)) == whole
            &&& rvalue_reads(Rvalue::Cast(Operand::Copy(p))) == part
            &&& rvalue_reads(Rvalue::UnaryOp(Operand::Copy(p))) == part
            &&& rvalue_reads(Rvalue::Repeat(Operand::Copy(p))) == part
            &&& rvalue_reads(Rvalue::BinaryOp(Operand::Copy(p), Operand::Constant)) == part
            &&& rvalue_reads(Rvalue::BinaryOp(Operand::Constant, Operand::Copy(p))) == part
        }),
        exactness_of(p.projection@) == Exactness::VariantPayload ==> rvalue_reads(
            Rvalue::Use(Operand::Copy(p)),
        ) == seq![ReadView::Payload(atom_of(p))] && rvalue_reads(Rvalue::Ref(m, p)) == seq![
            ReadView::Payload(atom_of(p)),
        ],
        exactness_of(p.projection@) == Exactness::Inexact ==> rvalue_reads(
            Rvalue::Use(Operand::Copy(p)),
        ) == seq![ReadView::Derived(atom_of(p))],
        rvalue_reads(Rvalue::Discriminant(p)) == seq![ReadView::Discr(atom_of(p))],
        rvalue_reads(Rvalue::Use(Operand::Constant)).len() == 0,
{
    lemma_plain_index_reads(p);
    let none = Seq::<ReadView>::empty();
    let whole = seq![ReadView::Same(atom_of(p))];
    let part = seq![ReadView::Derived(atom_of(p))];
    assert(none.push(ReadView::Same(atom_of(p))) =~= whole);
    assert(none.push(ReadView::Derived(atom_of(p))) =~= part);
    assert(none.push(ReadView::Payload(atom_of(p))) =~= seq![ReadView::Payload(atom_of(p))]);
    assert(none.push(ReadView::Discr(atom_of(p))) =~= seq![ReadView::Discr(atom_of(p))]);
    assert(part + none =~= part);
    assert(none + part =~= part);
}

/// Each part of an aggregate is read from the operand it is built from.
pub proof fn lemma_parts_are_read(ops: Seq<Operand>, i: int, p: Place)
    requires
        0 <= i < ops.len(),
        place_of_operand(ops[i]) == Some(p),
    ensures
        exactness_of(p.projection@) == Exactness::Exact ==> aggregate_reads(ops).contains(
            ReadView::AggField(i as u32, atom_of(p)),
        ),
        exactness_of(p.projection@) == Exactness::VariantPayload ==> aggregate_reads(ops).contains(
            ReadView::Payload(atom_of(p)),
        ),
    decreases ops.len(),
{
    let last = part_reads(ops.last(), ops.len() - 1);
    let before = aggregate_reads(ops.drop_last());
    let a = ReadView::AggField(i as u32, atom_of(p));
    let b = ReadView::Payload(atom_of(p));
    crate::table::lemma_either(before, last, a);
    crate::table::lemma_either(before, last, b);
    if i < ops.len() - 1 {
        lemma_parts_are_read(ops.drop_last(), i, p);
    } else {
        assert(last[last.len() - 1] == last.last());
    }
}

/// An index is read wherever it selects.
pub proof fn lemma_indices_are_read(p: Place, same: bool, k: int)
    requires
        0 <= k < index_locals_of(p.projection@).len(),
    ensures
        place_reads(p, same).contains(ReadView::Index(index_locals_of(p.projection@)[k])),
{
    let all = place_reads(p, same);
    assert(all[k] == ReadView::Index(index_locals_of(p.projection@)[k]));
}

/// An assignment defines the part of the local it is to, by what it reads; a
/// whole local moved into another is an alias of it, and so is the payload
/// taken out of one.
pub proof fn lemma_assignment_is_collected(
    c: CollectedView,
    scope: Scope,
    dest: Place,
    rv: Rvalue,
    bb: usize,
    p: Place,
)
    requires
        dest.local < c.defs.len(),
        c.alias.len() == c.defs.len(),
        c.payload_alias.len() == c.defs.len(),
        c.mut_refs.len() == c.defs.len(),
    ensures
        ({
            let d = after_statement(c, scope, Statement::Assign(dest, rv), bb);
            let l = dest.local as int;
            &&& d.defs[l] == c.defs[l].push(
                DefView { dest: path_of(dest.projection@), reads: rvalue_reads(rv) },
            )
            &&& forall|k: int| 0 <= k < c.defs.len() && k != l ==> #[trigger] d.defs[k] == c.defs[k]
            &&& (rv == Rvalue::Use(Operand::Move(p)) || rv == Rvalue::Use(Operand::Copy(p)))
                && dest.projection@.len() == 0 && p.projection@.len() == 0 ==> d.alias[l].contains(
                p.local,
            ) && d.payload_alias == c.payload_alias
            &&& (rv == Rvalue::Use(Operand::Move(p)) || rv == Rvalue::Use(Operand::Copy(p)))
                && dest.projection@.len() == 0 && exactness_of(p.projection@)
                == Exactness::VariantPayload ==> d.payload_alias[l].contains(p.local)
            &&& (rv == Rvalue::Ref(true, p) || rv == Rvalue::RawPtr(true, p) || rv
                == Rvalue::Reborrow(true, p)) && dest.projection@.len() == 0 ==> d.mut_refs[l]
                == Some(atom_of(p))
            &&& rv == Rvalue::Ref(false, p) ==> d.mut_refs == c.mut_refs
        }),
{
    let d = after_statement(c, scope, Statement::Assign(dest, rv), bb);
    let l = dest.local as int;
    if (rv == Rvalue::Use(Operand::Move(p)) || rv == Rvalue::Use(Operand::Copy(p)))
        && dest.projection@.len() == 0 {
        if p.projection@.len() == 0 {
            assert(d.alias[l][c.alias[l].len() as int] == p.local);
        } else if exactness_of(p.projection@) == Exactness::VariantPayload {
            assert(d.payload_alias[l][c.payload_alias[l].len() as int] == p.local);
        }
    }
}

/// A whole `Err` or `None` is a failure, `Ok` and `Some` are none; an `Err` of
/// a resource is one of those.
pub proof fn lemma_wrappers_are_told_apart(
    defs: Definitions,
    entries: Seq<Seq<char>>,
    dest: Place,
    w: Wrapper,
    ty: Option<Ty>,
    ops: Vec<Operand>,
    bb: usize,
)
    requires
        dest.projection@.len() == 0,
    ensures
        wrapped(
            defs,
            entries,
            dest,
            Rvalue::Aggregate(AggregateKind::Wrapper(w, ty), ops),
            bb,
        ) matches Some(x) && x.dest == dest.local && x.block == bb && (x.failure <==> w
            == Wrapper::ResultErr || w == Wrapper::OptionNone) && (x.resource <==> w
            == Wrapper::ResultErr && (ty matches Some(t) && refused(defs, t, entries))),
        wrapped(defs, entries, dest, Rvalue::Aggregate(AggregateKind::Other, ops), bb) is None,
{
}

/// A call of a method that only lets one see a value is that value; `?` takes
/// its operand, and passes its failure on; a call of the crate's own function
/// is on record.
pub proof fn lemma_calls_are_told_apart(
    scope: Scope,
    callee: Callee,
    atoms: Seq<Option<AtomView>>,
    destination: Place,
    recv: AtomView,
)
    requires
        atoms.len() > 0,
        atoms[0] == Some(recv),
    ensures
        ({
            let sort = call_sort(scope, Some(callee), atoms, destination);
            &&& callee.of_trait == Some(TraitKind::Deref) || callee.of_trait == Some(
                TraitKind::DerefMut,
            ) || callee.of_trait == Some(TraitKind::Clone) || callee.of_trait == Some(
                TraitKind::Borrow,
            ) || callee.of_trait == Some(TraitKind::BorrowMut) || callee.of_trait == Some(
                TraitKind::AsRef,
            ) || callee.of_trait == Some(TraitKind::AsMut) || callee.of_trait == Some(
                TraitKind::ToOwned,
            ) ==> sort == CallSort::ViewOf(recv)
            &&& callee.of_trait == Some(TraitKind::Index) || callee.of_trait == Some(
                TraitKind::IndexMut,
            ) ==> sort == CallSort::ViewOf(extended_atom(recv, seq![ANY_ELEM]))
            &&& (callee.of_trait is None || callee.of_trait == Some(TraitKind::Other)) ==> ({
                &&& callee.try_fn == Some(TryFn::Branch) && recv.1.len() == 0 ==> sort
                    == CallSort::Takes(recv.0)
                &&& callee.try_fn == Some(TryFn::FromResidual) ==> sort is PassesFailure
                &&& callee.try_fn is None && callee.is_local && destination.projection@.len() == 0
                    ==> sort == CallSort::OfCrate(callee.def)
                &&& callee.try_fn is None && !callee.is_local ==> sort == CallSort::Foreign
            })
        }),
        call_sort(scope, None, atoms, destination) == CallSort::Foreign,
{
}

/// What a call is given through a mutable borrow it may write, from any of its
/// arguments; one that is given none computes its result from them.
pub proof fn lemma_call_results(atoms: Seq<AtomView>, mut_refs: Seq<Option<AtomView>>, i: int)
    requires
        0 <= i < atoms.len(),
    ensures
        argument_reads(atoms, false)[i] == ReadView::CallArg(atoms[i]),
        argument_reads(atoms, true)[i] == ReadView::CallArgMut,
        written_reads(atoms)[i] == ReadView::ViaMut(atoms[i]),
        atoms[i].1.len() == 0 && mut_refs[atoms[i].0 as int] is Some ==> is_operation(
            mut_refs,
            atoms,
        ),
        (forall|k: int| 0 <= k < atoms.len() ==> (#[trigger] atoms[k]).1.len() > 0)
            ==> !is_operation(mut_refs, atoms),
{
    assert(pointed_to(mut_refs, atoms[i]) is Some ==> is_operation(mut_refs, atoms));
}

/// Whatever the one collection holds the other holds too.
pub open spec fn grown(c: CollectedView, d: CollectedView) -> bool {
    &&& c.defs.len() == d.defs.len()
    &&& forall|l: int, x: DefView|
        0 <= l < c.defs.len() && #[trigger] c.defs[l].contains(x) ==> d.defs[l].contains(x)
    &&& forall|x: LocalCallView| #[trigger] c.calls.contains(x) ==> d.calls.contains(x)
    &&& forall|x: WrapperView| #[trigger] c.wrappers.contains(x) ==> d.wrappers.contains(x)
    &&& forall|x: Residual| #[trigger] c.residuals.contains(x) ==> d.residuals.contains(x)
}

proof fn lemma_appended_holds(lists: Seq<Seq<DefView>>, l: int, x: DefView)
    requires
        0 <= l < lists.len(),
    ensures
        appended(lists, l, x).len() == lists.len(),
        appended(lists, l, x)[l].contains(x),
        forall|k: int, y: DefView|
            0 <= k < lists.len() && #[trigger] lists[k].contains(y) ==> appended(
                lists,
                l,
                x,
            )[k].contains(y),
{
    let after = appended(lists, l, x);
    crate::table::lemma_pushed(lists[l], x, x);
    assert forall|k: int, y: DefView|
        0 <= k < lists.len() && #[trigger] lists[k].contains(y) implies after[k].contains(y) by {
        crate::table::lemma_pushed(lists[l], x, y);
    }
}

proof fn lemma_pushed_if_holds<A>(list: Seq<A>, x: Option<A>, y: A)
    ensures
        list.contains(y) || x == Some(y) ==> pushed_if(list, x).contains(y),
{
    match x {
        Some(z) => {
            crate::table::lemma_pushed(list, z, y);
        },
        None => {},
    }
}

proof fn lemma_statement_grows(c: CollectedView, scope: Scope, st: Statement, bb: usize)
    requires
        statement_ok(st, c.defs.len()),
    ensures
        grown(c, after_statement(c, scope, st, bb)),
        st matches Statement::Assign(dest, rv) ==> after_statement(
            c,
            scope,
            st,
            bb,
        ).defs[dest.local as int].contains(
            DefView { dest: path_of(dest.projection@), reads: rvalue_reads(rv) },
        ),
{
    match st {
        Statement::Assign(dest, rv) => {
            let l = dest.local as int;
            let x = DefView { dest: path_of(dest.projection@), reads: rvalue_reads(rv) };
            lemma_appended_holds(c.defs, l, x);
            let d = after_statement(c, scope, st, bb);
            assert forall|w: WrapperView| #[trigger] c.wrappers.contains(
                w,
            ) implies d.wrappers.contains(w) by {
                lemma_pushed_if_holds(
                    c.wrappers,
                    wrapped(scope.defs, scope.entries, dest, rv, bb),
                    w,
                );
            }
        },
        Statement::Other => {},
    }
}

proof fn lemma_statements_grow(
    c: CollectedView,
    scope: Scope,
    sts: Seq<Statement>,
    bb: usize,
    k: int,
    i: int,
)
    requires
        0 <= i <= k <= sts.len(),
        forall|j: int| 0 <= j < sts.len() ==> statement_ok(#[trigger] sts[j], c.defs.len()),
    ensures
        grown(c, after_statements(c, scope, sts, bb, k)),
        i < k && sts[i] is Assign ==> after_statements(
            c,
            scope,
            sts,
            bb,
            k,
        ).defs[sts[i]->Assign_0.local as int].contains(
            DefView {
                dest: path_of(sts[i]->Assign_0.projection@),
                reads: rvalue_reads(sts[i]->Assign_1),
            },
        ),
    decreases k,
{
    if k > 0 {
        let before = after_statements(c, scope, sts, bb, k - 1);
        lemma_statements_grow(
            c,
            scope,
            sts,
            bb,
            k - 1,
            if i < k {
                i
            } else {
                k - 1
            },
        );
        assert(statement_ok(sts[k - 1], c.defs.len()));
        lemma_statement_grows(before, scope, sts[k - 1], bb);
    }
}

proof fn lemma_writes_grow(
    defs: Seq<Seq<DefView>>,
    mut_refs: Seq<Option<AtomView>>,
    atoms: Seq<AtomView>,
    k: int,
)
    requires
        0 <= k <= atoms.len(),
        mut_refs.len() == defs.len(),
        atoms_ok(mut_refs, defs.len()),
        forall|i: int| 0 <= i < atoms.len() ==> (#[trigger] atoms[i]).0 < defs.len(),
    ensures
        after_writes(defs, mut_refs, atoms, k).len() == defs.len(),
        forall|l: int, y: DefView|
            0 <= l < defs.len() && #[trigger] defs[l].contains(y) ==> after_writes(
                defs,
                mut_refs,
                atoms,
                k,
            )[l].contains(y),
    decreases k,
{
    if k > 0 {
        lemma_writes_grow(defs, mut_refs, atoms, k - 1);
        let before = after_writes(defs, mut_refs, atoms, k - 1);
        match pointed_to(mut_refs, atoms[k - 1]) {
            Some(target) => {
                assert(atom_ok(mut_refs[atoms[k - 1].0 as int], defs.len()));
                lemma_appended_holds(
                    before,
                    target.0 as int,
                    DefView { dest: target.1, reads: written_reads(atoms) },
                );
            },
            None => {},
        }
    }
}

proof fn lemma_call_grows(
    c: CollectedView,
    scope: Scope,
    func: Option<Callee>,
    args: Seq<Operand>,
    destination: Place,
    bb: usize,
    n: nat,
    m: nat,
)
    requires
        collected_ok(c, n, m),
        place_ok(destination, n),
        forall|i: int| 0 <= i < args.len() ==> operand_ok(#[trigger] args[i], n),
    ensures
        grown(c, after_call(c, scope, func, args, destination, bb)),
        call_sort(scope, func, argument_atoms(args), destination) matches CallSort::OfCrate(def)
            ==> after_call(c, scope, func, args, destination, bb).calls.contains(
            LocalCallView { dest: destination.local, callee: def, args: argument_atoms(args) },
        ),
        call_sort(scope, func, argument_atoms(args), destination) matches CallSort::PassesFailure(
            resource,
        ) ==> after_call(c, scope, func, args, destination, bb).residuals.contains(
            Residual { dest: destination.local, resource, block: bb },
        ),
{
    let atoms = argument_atoms(args);
    assert(atoms_ok(atoms, n)) by {
        assert forall|i: int| 0 <= i < atoms.len() implies atom_ok(#[trigger] atoms[i], n) by {
            assert(operand_ok(args[i], n));
        }
    }
    lemma_present_ok(atoms, n);
    let there = present(atoms);
    lemma_writes_grow(c.defs, c.mut_refs, there, there.len() as int);
    let written = after_writes(c.defs, c.mut_refs, there, there.len() as int);
    let d = after_call(c, scope, func, args, destination, bb);
    let l = destination.local as int;
    lemma_appended_holds(written, l, d.defs[l].last());
    assert(d.defs[l].last() == d.defs[l][d.defs[l].len() - 1]);
    assert forall|k: int, x: DefView|
        0 <= k < c.defs.len() && #[trigger] c.defs[k].contains(x) implies d.defs[k].contains(x) by {
        assert(written[k].contains(x));
        assert(d.defs == appended(written, l, d.defs[l].last()));
    }
    match call_sort(scope, func, atoms, destination) {
        CallSort::OfCrate(def) => {
            let x = LocalCallView { dest: destination.local, callee: def, args: atoms };
            assert forall|y: LocalCallView| c.calls.contains(y) || y == x implies d.calls.contains(
                y,
            ) by {
                crate::table::lemma_pushed(c.calls, x, y);
            }
            assert(d.calls.contains(x));
        },
        CallSort::PassesFailure(resource) => {
            let x = Residual { dest: destination.local, resource, block: bb };
            assert forall|y: Residual|
                c.residuals.contains(y) || y == x implies d.residuals.contains(y) by {
                crate::table::lemma_pushed(c.residuals, x, y);
            }
            assert(d.residuals.contains(x));
        },
        _ => {},
    }
}

proof fn lemma_block_grows(
    c: CollectedView,
    scope: Scope,
    block: BasicBlock,
    bb: usize,
    n: nat,
    m: nat,
    i: int,
)
    requires
        collected_ok(c, n, m),
        block_ok(block, n),
        bb < m,
    ensures
        grown(c, after_block(c, scope, block, bb)),
        !block.is_cleanup && 0 <= i < block.statements@.len() && block.statements@[i] is Assign
            ==> after_block(
            c,
            scope,
            block,
            bb,
        ).defs[block.statements@[i]->Assign_0.local as int].contains(
            DefView {
                dest: path_of(block.statements@[i]->Assign_0.projection@),
                reads: rvalue_reads(block.statements@[i]->Assign_1),
            },
        ),
{
    if !block.is_cleanup {
        let sts = block.statements@;
        let k = sts.len() as int;
        let j: int = if 0 <= i < k {
            i
        } else {
            0
        };
        lemma_statements_grow(c, scope, sts, bb, k, j);
        lemma_statements_keep_ok(c, scope, sts, bb, k, n, m);
        let d = after_statements(c, scope, sts, bb, k);
        match block.terminator {
            Some(t) => match t.kind {
                TerminatorKind::Call { func, args, destination, target } => {
                    lemma_call_grows(d, scope, func, args@, destination, bb, n, m);
                },
                _ => {},
            },
            None => {},
        }
        if 0 <= i < k && sts[i] is Assign {
            assert(statement_ok(sts[i], n));
            let l = sts[i]->Assign_0.local as int;
            assert(d.defs[l].contains(
                DefView {
                    dest: path_of(sts[i]->Assign_0.projection@),
                    reads: rvalue_reads(sts[i]->Assign_1),
                },
            ));
        }
    }
}

proof fn lemma_blocks_grow(scope: Scope, body: Body, j: int, k: int)
    requires
        valid_body(body),
        0 <= j <= k <= body.blocks@.len(),
    ensures
        grown(after_blocks(scope, body, j), after_blocks(scope, body, k)),
    decreases k - j,
{
    if j < k {
        lemma_blocks_grow(scope, body, j, k - 1);
        lemma_collected_ok(scope, body, k - 1);
        let c = after_blocks(scope, body, k - 1);
        assert(block_ok(body.blocks@[k - 1], body.local_tys@.len()));
        lemma_block_grows(
            c,
            scope,
            body.blocks@[k - 1],
            (k - 1) as usize,
            body.local_tys@.len(),
            body.blocks@.len(),
            0,
        );
    }
}

/// Every assignment of a body is collected, whichever block it stands in,
/// unless the block only cleans up.
pub proof fn lemma_every_assignment_is_collected(
    scope: Scope,
    body: Body,
    b: int,
    i: int,
    dest: Place,
    rv: Rvalue,
)
    requires
        valid_body(body),
        0 <= b < body.blocks@.len(),
        !body.blocks@[b].is_cleanup,
        0 <= i < body.blocks@[b].statements@.len(),
        body.blocks@[b].statements@[i] == Statement::Assign(dest, rv),
    ensures
        collected(scope, body).defs[dest.local as int].contains(
            DefView { dest: path_of(dest.projection@), reads: rvalue_reads(rv) },
        ),
{
    let n = body.local_tys@.len();
    let m = body.blocks@.len();
    lemma_collected_ok(scope, body, b);
    lemma_collected_ok(scope, body, b + 1);
    assert(block_ok(body.blocks@[b], n));
    assert(statement_ok(body.blocks@[b].statements@[i], n));
    let c = after_blocks(scope, body, b);
    lemma_block_grows(c, scope, body.blocks@[b], b as usize, n, m, i);
    lemma_blocks_grow(scope, body, b + 1, m as int);
    let x = DefView { dest: path_of(dest.projection@), reads: rvalue_reads(rv) };
    assert(after_blocks(scope, body, b + 1).defs[dest.local as int].contains(x));
}

/// Every call of the crate's own functions is collected, and every failure
/// `?` passes on.
pub proof fn lemma_every_call_is_collected(
    scope: Scope,
    body: Body,
    b: int,
    func: Option<Callee>,
    args: Vec<Operand>,
    destination: Place,
)
    requires
        valid_body(body),
        0 <= b < body.blocks@.len(),
        !body.blocks@[b].is_cleanup,
        body.blocks@[b].terminator matches Some(t) && (t.kind matches TerminatorKind::Call {
            func: f,
            args: a,
            destination: d,
            target,
        } && f == func && a == args && d == destination),
    ensures
        call_sort(scope, func, argument_atoms(args@), destination) matches CallSort::OfCrate(def)
            ==> collected(scope, body).calls.contains(
            LocalCallView { dest: destination.local, callee: def, args: argument_atoms(args@) },
        ),
        call_sort(scope, func, argument_atoms(args@), destination) matches CallSort::PassesFailure(
            resource,
        ) ==> collected(scope, body).residuals.contains(
            Residual { dest: destination.local, resource, block: b as usize },
        ),
{
    let n = body.local_tys@.len();
    let m = body.blocks@.len();
    let block = body.blocks@[b];
    lemma_collected_ok(scope, body, b);
    assert(block_ok(block, n));
    let c = after_blocks(scope, body, b);
    let sts = block.statements@;
    lemma_statements_keep_ok(c, scope, sts, b as usize, sts.len() as int, n, m);
    let d = after_statements(c, scope, sts, b as usize, sts.len() as int);
    lemma_call_grows(d, scope, func, args@, destination, b as usize, n, m);
    lemma_blocks_grow(scope, body, b + 1, m as int);
    assert(after_blocks(scope, body, b + 1) == after_call(
        d,
        scope,
        func,
        args@,
        destination,
        b as usize,
    ));
}

/// A part that is moved, or a move into a part, makes no alias, and neither
/// does what is computed; only a mutable borrow of a whole local's own is
/// followed.
pub proof fn lemma_parts_make_no_alias(dest: Place, p: Place, rv: Rvalue)
    ensures
        dest.projection@.len() > 0 ==> moved_local(dest, rv) is None && moved_payload(dest, rv)
            is None && borrowed_mutably(dest, rv) is None,
        (rv == Rvalue::Use(Operand::Move(p)) || rv == Rvalue::Use(Operand::Copy(p)))
            && p.projection@.len() > 0 ==> moved_local(dest, rv) is None,
        (rv == Rvalue::Use(Operand::Move(p)) || rv == Rvalue::Use(Operand::Copy(p)))
            && exactness_of(p.projection@) != Exactness::VariantPayload ==> moved_payload(dest, rv)
            is None,
        !(rv is Use) ==> moved_local(dest, rv) is None && moved_payload(dest, rv) is None,
        rv == Rvalue::Ref(false, p) || rv == Rvalue::RawPtr(false, p) || rv == Rvalue::Reborrow(
            false,
            p,
        ) || rv is Use ==> borrowed_mutably(dest, rv) is None,
{
}

} // verus!
