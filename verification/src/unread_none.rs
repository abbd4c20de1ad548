//! An `Option` field every read of which assumes `Some`: two or more `unwrap`
//! or `expect` reads and not one site that handles `None`.

use crate::adt_facts::{is_known_ty, is_option_ty, struct_field, struct_field_at};
use crate::defs::{Definitions, FieldDef, Known};
use crate::hir::{Expr, ExprKind, FieldPat, Parent, Pat, PatKind};
use crate::hir_shapes::{adjusted_adt, adt_behind};
use crate::ids::{DefId, HirId, Symbol};
use crate::report::{emit, finding, views, Finding, FindingView, Lint};
use crate::table::{add_new, with_added};
use crate::text::{decimal, number};
use crate::ty::{adt_id, peeled};
use vstd::prelude::*;
use vstd::string::*;

verus! {

/// What finally becomes of a field access.
#[derive(Clone, Copy, Debug, PartialEq, Eq, Structural)]
pub enum ReadKind {
    Panicking,
    Handled,
    Write,
}

#[derive(Clone, Copy, Debug, PartialEq, Eq, Structural)]
pub struct Access {
    pub adt: DefId,
    pub field: Symbol,
    pub kind: ReadKind,
}

#[derive(Debug)]
pub struct UnreadNone {
    pub accesses: Vec<Access>,
}

/// The field is an `Option` of a crate-private local struct.
pub open spec fn watched(defs: Definitions, did: DefId, field: Symbol) -> bool {
    &&& defs.is_struct(did) && defs.local(did) && !defs.exported(did)
    &&& struct_field_at(defs, did, field) matches Some(f) && is_known_ty(
        defs,
        f.ty,
        Known::OptionType,
    )
}

fn is_watched(defs: &Definitions, did: DefId, field: Symbol) -> (r: bool)
    ensures
        r == watched(*defs, did, field),
{
    match struct_field(defs, did, field) {
        Some(f) => defs.struct_here(did) && defs.is_local(did) && !defs.is_exported(did)
            && is_option_ty(defs, &f.ty),
        None => false,
    }
}

/// The crate-private local struct whose `Option` field is accessed.
pub open spec fn option_field(defs: Definitions, base: Expr, field: Symbol) -> Option<DefId> {
    match adjusted_adt(base) {
        Some(did) => if watched(defs, did, field) {
            Some(did)
        } else {
            None
        },
        None => None,
    }
}

fn option_field_of(defs: &Definitions, base: &Expr, field: Symbol) -> (r: Option<DefId>)
    ensures
        r == option_field(*defs, *base, field),
{
    match adt_behind(base) {
        Some(did) => if is_watched(defs, did, field) {
            Some(did)
        } else {
            None
        },
        None => None,
    }
}

/// What one node around does with the value `current`: settle what becomes of
/// it, or hand it on.
pub open spec fn consumed(defs: Definitions, p: Expr, current: HirId) -> Option<ReadKind> {
    match p.kind {
        ExprKind::MethodCall(name, recv, _) => if recv.id != current {
            Some(ReadKind::Handled)
        } else if defs.text(name) == "unwrap"@ || defs.text(name) == "expect"@ {
            Some(ReadKind::Panicking)
        } else if defs.text(name) == "as_ref"@ || defs.text(name) == "as_mut"@ || defs.text(name)
            == "clone"@ {
            None
        } else {
            Some(ReadKind::Handled)
        },
        ExprKind::AddrOf(_, _, inner) => if inner.id == current {
            None
        } else {
            Some(ReadKind::Handled)
        },
        ExprKind::Assign(lhs, _) => if lhs.id == current {
            Some(ReadKind::Write)
        } else {
            Some(ReadKind::Handled)
        },
        ExprKind::AssignOp(lhs, _) => if lhs.id == current {
            Some(ReadKind::Write)
        } else {
            Some(ReadKind::Handled)
        },
        _ => Some(ReadKind::Handled),
    }
}

fn consumes(defs: &Definitions, p: &Expr, current: HirId) -> (r: Option<ReadKind>)
    ensures
        r == consumed(*defs, *p, current),
{
    match &p.kind {
        ExprKind::MethodCall(name, recv, _) => {
            if recv.id != current {
                Some(ReadKind::Handled)
            } else if defs.reads(*name, "unwrap") || defs.reads(*name, "expect") {
                Some(ReadKind::Panicking)
            } else if defs.reads(*name, "as_ref") || defs.reads(*name, "as_mut") || defs.reads(
                *name,
                "clone",
            ) {
                None
            } else {
                Some(ReadKind::Handled)
            }
        },
        ExprKind::AddrOf(_, _, inner) => if inner.id == current {
            None
        } else {
            Some(ReadKind::Handled)
        },
        ExprKind::Assign(lhs, _) => if lhs.id == current {
            Some(ReadKind::Write)
        } else {
            Some(ReadKind::Handled)
        },
        ExprKind::AssignOp(lhs, _) => if lhs.id == current {
            Some(ReadKind::Write)
        } else {
            Some(ReadKind::Handled)
        },
        _ => Some(ReadKind::Handled),
    }
}

/// What becomes of the value `current`, looking at no more than six nodes
/// around it. Anything but `unwrap` and `expect` is taken to handle `None`:
/// uncounted handling makes for silence, never for a finding.
pub open spec fn classified(
    defs: Definitions,
    parents: Seq<Parent>,
    k: int,
    current: HirId,
) -> ReadKind
    decreases 6 - k,
{
    if k >= 6 || k >= parents.len() {
        ReadKind::Handled
    } else {
        match parents[k] {
            Parent::Expr(p) => match consumed(defs, *p, current) {
                Some(kind) => kind,
                None => classified(defs, parents, k + 1, p.id),
            },
            _ => ReadKind::Handled,
        }
    }
}

pub fn classify(defs: &Definitions, e: &Expr, parents: &Vec<Parent>) -> (r: ReadKind)
    ensures
        r == classified(*defs, parents@, 0, e.id),
{
    let mut current: HirId = e.id;
    let mut k: usize = 0;
    while k < 6 && k < parents.len()
        invariant
            k <= 6,
            k <= parents@.len(),
            classified(*defs, parents@, 0, e.id) == classified(
                *defs,
                parents@,
                k as int,
                current,
            ),
        decreases 6 - k,
    {
        match &parents[k] {
            Parent::Expr(p) => match consumes(defs, p, current) {
                Some(kind) => {
                    return kind;
                },
                None => {
                    current = p.id;
                },
            },
            _ => {
                return ReadKind::Handled;
            },
        }
        k = k + 1;
    }
    ReadKind::Handled
}

/// The accesses seen once an expression has been visited.
pub open spec fn after_expr(
    defs: Definitions,
    s: Seq<Access>,
    e: Expr,
    parents: Seq<Parent>,
) -> Seq<Access> {
    match e.kind {
        ExprKind::Field(base, field) => match option_field(defs, *base, field) {
            Some(adt) => s.push(
                Access { adt, field, kind: classified(defs, parents, 0, e.id) },
            ),
            None => s,
        },
        _ => s,
    }
}

/// The accesses once a struct pattern's first `k` fields have been seen. A
/// field matched by anything but `_` is taken to be handled.
pub open spec fn after_fields(
    defs: Definitions,
    s: Seq<Access>,
    adt: DefId,
    fs: Seq<FieldPat>,
    k: int,
) -> Seq<Access>
    decreases k,
{
    if k <= 0 {
        s
    } else {
        let before = after_fields(defs, s, adt, fs, k - 1);
        let f = fs[k - 1];
        if !(f.pat.kind is Wild) && watched(defs, adt, f.name) {
            before.push(Access { adt, field: f.name, kind: ReadKind::Handled })
        } else {
            before
        }
    }
}

/// The accesses once the first `k` of a struct's fields have been handled.
pub open spec fn after_all(
    defs: Definitions,
    s: Seq<Access>,
    adt: DefId,
    fs: Seq<FieldDef>,
    k: int,
) -> Seq<Access>
    decreases k,
{
    if k <= 0 {
        s
    } else {
        let before = after_all(defs, s, adt, fs, k - 1);
        if watched(defs, adt, fs[k - 1].name) {
            before.push(Access { adt, field: fs[k - 1].name, kind: ReadKind::Handled })
        } else {
            before
        }
    }
}

/// Some part of a pattern looks at what it matches.
pub open spec fn looks(ps: Seq<Pat>) -> bool {
    exists|i: int| 0 <= i < ps.len() && !((#[trigger] ps[i]).kind is Wild)
}

/// The accesses seen once a pattern has been visited. Which fields the parts
/// of a tuple pattern are depends on where `..` stands in it, so one that looks
/// at any is taken to handle them all.
pub open spec fn after_pat(defs: Definitions, s: Seq<Access>, p: Pat) -> Seq<Access> {
    match adt_id(peeled(p.ty)) {
        Some(adt) => match p.kind {
            PatKind::Struct(_, fs) => after_fields(defs, s, adt, fs@, fs@.len() as int),
            PatKind::TupleStruct(_, ps) => if looks(ps@) {
                after_all(defs, s, adt, defs.fields(adt), defs.fields(adt).len() as int)
            } else {
                s
            },
            _ => s,
        },
        None => s,
    }
}

fn does_look(ps: &Vec<Pat>) -> (r: bool)
    ensures
        r == looks(ps@),
{
    let mut i: usize = 0;
    while i < ps.len()
        invariant
            i <= ps@.len(),
            forall|k: int| 0 <= k < i ==> (#[trigger] ps@[k]).kind is Wild,
        decreases ps.len() - i,
    {
        match &ps[i].kind {
            PatKind::Wild => {},
            _ => {
                assert(!(ps@[i as int].kind is Wild));
                return true;
            },
        }
        i = i + 1;
    }
    false
}

/// How many accesses of the field are of the kind.
pub open spec fn count(s: Seq<Access>, adt: DefId, field: Symbol, kind: ReadKind) -> nat
    decreases s.len(),
{
    if s.len() == 0 {
        0
    } else {
        count(s.drop_last(), adt, field, kind) + if s.last() == (Access { adt, field, kind }) {
            1nat
        } else {
            0nat
        }
    }
}

/// What the lint says of a field.
pub open spec fn field_finding(
    defs: Definitions,
    s: Seq<Access>,
    adt: DefId,
    field: Symbol,
) -> Option<FindingView> {
    let panicking = count(s, adt, field, ReadKind::Panicking);
    match struct_field_at(defs, adt, field) {
        Some(f) => if count(s, adt, field, ReadKind::Handled) > 0 || panicking < 2 {
            None
        } else {
            Some(
                finding(
                    Lint::UnreadNone,
                    f.span,
                    "every read of `"@ + defs.name_text(adt) + "."@ + defs.text(field)
                        + "` assumes `Some` ("@ + decimal(panicking)
                        + " unwraps, 0 sites handle `None`)"@,
                    "`None` is a state no reader survives; split the phases into types, or store `T` directly"@,
                ),
            )
        },
        None => None,
    }
}

/// The fields the first `k` accesses are of, each once.
pub open spec fn fields(s: Seq<Access>, k: int) -> Seq<(DefId, Symbol)>
    decreases k,
{
    if k <= 0 {
        Seq::empty()
    } else {
        with_added(fields(s, k - 1), (s[k - 1].adt, s[k - 1].field))
    }
}

pub open spec fn field_findings(
    defs: Definitions,
    s: Seq<Access>,
    fs: Seq<(DefId, Symbol)>,
    k: int,
) -> Seq<FindingView>
    decreases k,
{
    if k <= 0 {
        Seq::empty()
    } else {
        let before = field_findings(defs, s, fs, k - 1);
        match field_finding(defs, s, fs[k - 1].0, fs[k - 1].1) {
            Some(f) => before.push(f),
            None => before,
        }
    }
}

/// What the lint says of the crate.
pub open spec fn unread_findings(defs: Definitions, s: Seq<Access>) -> Seq<FindingView> {
    let fs = fields(s, s.len() as int);
    field_findings(defs, s, fs, fs.len() as int)
}

impl UnreadNone {
    pub fn new() -> (r: Self)
        ensures
            r.accesses@.len() == 0,
    {
        UnreadNone { accesses: Vec::new() }
    }

    /// Visits an expression; `parents` are the nodes around it, innermost
    /// first.
    pub fn check_expr(&mut self, defs: &Definitions, e: &Expr, parents: &Vec<Parent>)
        ensures
            final(self).accesses@ == after_expr(*defs, old(self).accesses@, *e, parents@),
    {
        match &e.kind {
            ExprKind::Field(base, field) => {
                match option_field_of(defs, base, *field) {
                    Some(adt) => {
                        let kind = classify(defs, e, parents);
                        self.accesses.push(Access { adt, field: *field, kind });
                    },
                    None => {},
                }
            },
            _ => {},
        }
    }

    /// Visits a pattern.
    pub fn check_pat(&mut self, defs: &Definitions, p: &Pat)
        ensures
            final(self).accesses@ == after_pat(*defs, old(self).accesses@, *p),
    {
        let adt = match p.ty.peel_refs().adt() {
            Some(d) => d,
            None => {
                return;
            },
        };
        let ghost start = self.accesses@;
        match &p.kind {
            PatKind::Struct(_, fs) => {
                let mut i: usize = 0;
                while i < fs.len()
                    invariant
                        i <= fs@.len(),
                        self.accesses@ == after_fields(*defs, start, adt, fs@, i as int),
                    decreases fs.len() - i,
                {
                    let ignored = match &fs[i].pat.kind {
                        PatKind::Wild => true,
                        _ => false,
                    };
                    if !ignored && is_watched(defs, adt, fs[i].name) {
                        self.accesses.push(
                            Access { adt, field: fs[i].name, kind: ReadKind::Handled },
                        );
                    }
                    i = i + 1;
                }
            },
            PatKind::TupleStruct(_, ps) => {
                if does_look(ps) {
                    match defs.fields_of(adt) {
                        Some(fs) => {
                            let mut i: usize = 0;
                            while i < fs.len()
                                invariant
                                    i <= fs@.len(),
                                    fs@ == defs.fields(adt),
                                    self.accesses@ == after_all(
                                        *defs,
                                        start,
                                        adt,
                                        fs@,
                                        i as int,
                                    ),
                                decreases fs.len() - i,
                            {
                                if is_watched(defs, adt, fs[i].name) {
                                    self.accesses.push(
                                        Access { adt, field: fs[i].name, kind: ReadKind::Handled },
                                    );
                                }
                                i = i + 1;
                            }
                        },
                        None => {},
                    }
                }
            },
            _ => {},
        }
    }

    fn count_of(&self, adt: DefId, field: Symbol, kind: ReadKind) -> (r: usize)
        ensures
            r == count(self.accesses@, adt, field, kind),
    {
        let ghost s = self.accesses@;
        let want = Access { adt, field, kind };
        let mut n: usize = 0;
        let mut i: usize = 0;
        while i < self.accesses.len()
            invariant
                i <= self.accesses@.len(),
                s == self.accesses@,
                want == (Access { adt, field, kind }),
                n <= i,
                n == count(s.take(i as int), adt, field, kind),
            decreases self.accesses.len() - i,
        {
            assert(s.take(i + 1).drop_last() =~= s.take(i as int));
            if self.accesses[i] == want {
                n = n + 1;
            }
            i = i + 1;
        }
        assert(s.take(i as int) =~= s);
        n
    }

    /// What the lint says of the crate.
    pub fn check_crate_post(&self, defs: &Definitions) -> (r: Vec<Finding>)
        ensures
            views(r@) == unread_findings(*defs, self.accesses@),
    {
        let mut fs: Vec<(DefId, Symbol)> = Vec::new();
        let mut i: usize = 0;
        while i < self.accesses.len()
            invariant
                i <= self.accesses@.len(),
                fs@ == fields(self.accesses@, i as int),
            decreases self.accesses.len() - i,
        {
            add_new(&mut fs, (self.accesses[i].adt, self.accesses[i].field));
            i = i + 1;
        }
        let mut out: Vec<Finding> = Vec::new();
        let mut k: usize = 0;
        assert(views(out@) =~= Seq::<FindingView>::empty());
        while k < fs.len()
            invariant
                k <= fs@.len(),
                views(out@) == field_findings(*defs, self.accesses@, fs@, k as int),
            decreases fs.len() - k,
        {
            let (adt, field) = fs[k];
            let panicking: usize = self.count_of(adt, field, ReadKind::Panicking);
            if self.count_of(adt, field, ReadKind::Handled) == 0 && panicking >= 2 {
                match struct_field(defs, adt, field) {
                    Some(f) => {
                        let mut msg = String::from_str("every read of `");
                        msg.append(defs.name_of(adt));
                        msg.append(".");
                        msg.append(defs.text_of(field));
                        msg.append("` assumes `Some` (");
                        msg.append(number(panicking as u128).as_str());
                        msg.append(" unwraps, 0 sites handle `None`)");
                        emit(
                            &mut out,
                            Lint::UnreadNone,
                            f.span,
                            msg,
                            "`None` is a state no reader survives; split the phases into types, or store `T` directly",
                        );
                    },
                    None => {},
                }
            }
            k = k + 1;
        }
        out
    }
}

/// One site that handles `None` keeps the lint quiet about the field.
pub proof fn lemma_handled_field_is_quiet(
    defs: Definitions,
    s: Seq<Access>,
    adt: DefId,
    field: Symbol,
    i: int,
)
    requires
        0 <= i < s.len(),
        s[i] == (Access { adt, field, kind: ReadKind::Handled }),
    ensures
        field_finding(defs, s, adt, field) is None,
{
    lemma_counted(s, adt, field, ReadKind::Handled, i);
}

proof fn lemma_counted(s: Seq<Access>, adt: DefId, field: Symbol, kind: ReadKind, i: int)
    requires
        0 <= i < s.len(),
        s[i] == (Access { adt, field, kind }),
    ensures
        count(s, adt, field, kind) > 0,
    decreases s.len(),
{
    if i < s.len() - 1 {
        lemma_counted(s.drop_last(), adt, field, kind, i);
    }
}

proof fn lemma_field_handled(
    defs: Definitions,
    s: Seq<Access>,
    adt: DefId,
    fs: Seq<FieldPat>,
    k: int,
    i: int,
)
    requires
        0 <= i < k <= fs.len(),
        !(fs[i].pat.kind is Wild),
        watched(defs, adt, fs[i].name),
    ensures
        after_fields(defs, s, adt, fs, k).contains(
            Access { adt, field: fs[i].name, kind: ReadKind::Handled },
        ),
    decreases k,
{
    let all = after_fields(defs, s, adt, fs, k);
    let want = Access { adt, field: fs[i].name, kind: ReadKind::Handled };
    if i == k - 1 {
        assert(all[all.len() - 1] == want);
    } else {
        let before = after_fields(defs, s, adt, fs, k - 1);
        lemma_field_handled(defs, s, adt, fs, k - 1, i);
        let j = choose|j: int| 0 <= j < before.len() && before[j] == want;
        assert(all[j] == want);
    }
}

/// A pattern that looks into the field is a site that handles `None`: it keeps
/// the lint quiet about the field.
pub proof fn lemma_destructured_field_is_quiet(
    defs: Definitions,
    s: Seq<Access>,
    p: Pat,
    adt: DefId,
    fs: Vec<FieldPat>,
    i: int,
)
    requires
        adt_id(peeled(p.ty)) == Some(adt),
        p.kind matches PatKind::Struct(_, list) && list == fs,
        0 <= i < fs@.len(),
        !(fs@[i].pat.kind is Wild),
        watched(defs, adt, fs@[i].name),
    ensures
        field_finding(defs, after_pat(defs, s, p), adt, fs@[i].name) is None,
{
    let all = after_pat(defs, s, p);
    let want = Access { adt, field: fs@[i].name, kind: ReadKind::Handled };
    lemma_field_handled(defs, s, adt, fs@, fs@.len() as int, i);
    let j = choose|j: int| 0 <= j < all.len() && all[j] == want;
    lemma_handled_field_is_quiet(defs, all, adt, fs@[i].name, j);
}

/// `Option` fields of the crate's own structs that are not exported are
/// watched, and no others.
pub proof fn lemma_own_options_are_watched(
    defs: Definitions,
    did: DefId,
    field: Symbol,
    f: FieldDef,
)
    requires
        struct_field_at(defs, did, field) == Some(f),
    ensures
        (defs.at(did) matches Some(d) && d.is_local && !d.is_exported && (d.adt matches Some(a)
            && a.kind == crate::defs::AdtKind::Struct)) && (f.ty matches crate::ty::Ty::Adt(o, _)
            && defs.known(o) == Known::OptionType) ==> watched(defs, did, field),
        defs.exported(did) || !defs.local(did) ==> !watched(defs, did, field),
        !(f.ty is Adt) ==> !watched(defs, did, field),
{
}

/// `unwrap` and `expect` assume `Some`; `as_ref`, `as_mut`, `clone` and a
/// borrow pass the option on; assigning it writes it; anything else handles
/// it.
pub proof fn lemma_what_a_reader_does(
    defs: Definitions,
    p: Expr,
    name: Symbol,
    inner: Expr,
    current: HirId,
)
    requires
        inner.id == current,
    ensures
        p.kind matches ExprKind::MethodCall(n, r, _) ==> (n == name && *r == inner ==> ({
            let t = defs.text(name);
            &&& t == "unwrap"@ || t == "expect"@ ==> consumed(defs, p, current) == Some(
                ReadKind::Panicking,
            )
            &&& t == "as_ref"@ || t == "as_mut"@ || t == "clone"@ ==> consumed(defs, p, current)
                is None
            &&& t != "unwrap"@ && t != "expect"@ && t != "as_ref"@ && t != "as_mut"@ && t
                != "clone"@ ==> consumed(defs, p, current) == Some(ReadKind::Handled)
        })),
        p.kind matches ExprKind::AddrOf(_, _, x) ==> (*x == inner ==> consumed(defs, p, current)
            is None),
        p.kind matches ExprKind::Assign(x, _) ==> (*x == inner ==> consumed(defs, p, current)
            == Some(ReadKind::Write)),
        p.kind matches ExprKind::AssignOp(x, _) ==> (*x == inner ==> consumed(defs, p, current)
            == Some(ReadKind::Write)),
        p.kind is Match || p.kind is If || p.kind is Let || p.kind is Call || p.kind is Binary
            ==> consumed(defs, p, current) == Some(ReadKind::Handled),
{
    reveal_strlit("unwrap");
    reveal_strlit("expect");
    reveal_strlit("as_ref");
    reveal_strlit("as_mut");
    reveal_strlit("clone");
    assert("unwrap"@[0] == 'u' && "expect"@[0] == 'e');
    assert("as_ref"@[0] == 'a' && "as_mut"@[0] == 'a' && "clone"@[0] == 'c');
}

/// A read is what its reader does, seen through what only passes it on.
pub proof fn lemma_read_is_what_its_reader_does(
    defs: Definitions,
    s: Seq<Access>,
    e: Expr,
    base: Expr,
    field: Symbol,
    adt: DefId,
    parents: Seq<Parent>,
    p: Expr,
    k: int,
    current: HirId,
)
    requires
        e.kind == ExprKind::Field(Box::new(base), field),
        adjusted_adt(base) == Some(adt),
        watched(defs, adt, field),
    ensures
        after_expr(defs, s, e, parents) == s.push(
            Access { adt, field, kind: classified(defs, parents, 0, e.id) },
        ),
        0 <= k < 6 && k < parents.len() && parents[k] == Parent::Expr(&p) && consumed(
            defs,
            p,
            current,
        ) is Some ==> classified(defs, parents, k, current) == consumed(defs, p, current)->Some_0,
        0 <= k < 6 && k < parents.len() && parents[k] == Parent::Expr(&p) && consumed(
            defs,
            p,
            current,
        ) is None ==> classified(defs, parents, k, current) == classified(
            defs,
            parents,
            k + 1,
            p.id,
        ),
        parents.len() == 0 ==> classified(defs, parents, 0, e.id) == ReadKind::Handled,
{
}

proof fn lemma_field_taken(
    defs: Definitions,
    s: Seq<Access>,
    adt: DefId,
    fs: Seq<FieldPat>,
    k: int,
    i: int,
)
    requires
        0 <= i < k <= fs.len(),
        !(fs[i].pat.kind is Wild),
        watched(defs, adt, fs[i].name),
    ensures
        after_fields(defs, s, adt, fs, k).contains(
            Access { adt, field: fs[i].name, kind: ReadKind::Handled },
        ),
    decreases k,
{
    if i < k - 1 {
        lemma_field_taken(defs, s, adt, fs, k - 1, i);
    }
    crate::table::lemma_pushed(
        after_fields(defs, s, adt, fs, k - 1),
        Access { adt, field: fs[k - 1].name, kind: ReadKind::Handled },
        Access { adt, field: fs[i].name, kind: ReadKind::Handled },
    );
}

/// Taking a watched field out by a pattern handles it; passing over it with
/// `_` does not.
pub proof fn lemma_pattern_handles(
    defs: Definitions,
    s: Seq<Access>,
    p: Pat,
    adt: DefId,
    fs: Seq<FieldPat>,
    i: int,
)
    requires
        peeled(p.ty) matches crate::ty::Ty::Adt(d, _) && d == adt,
        p.kind matches PatKind::Struct(_, v) && v@ == fs,
        0 <= i < fs.len(),
        watched(defs, adt, fs[i].name),
    ensures
        !(fs[i].pat.kind is Wild) ==> after_pat(defs, s, p).contains(
            Access { adt, field: fs[i].name, kind: ReadKind::Handled },
        ),
        fs.len() == 1 && fs[i].pat.kind is Wild ==> after_pat(defs, s, p) == s,
{
    if !(fs[i].pat.kind is Wild) {
        lemma_field_taken(defs, s, adt, fs, fs.len() as int, i);
    }
    if fs.len() == 1 {
        assert(after_fields(defs, s, adt, fs, 0) == s);
    }
}

proof fn lemma_count(s: Seq<Access>, adt: DefId, field: Symbol, kind: ReadKind)
    ensures
        count(s, adt, field, kind) >= 1 <==> s.contains(Access { adt, field, kind }),
        count(s, adt, field, kind) >= 2 <==> exists|i: int, j: int|
            0 <= i < j < s.len() && #[trigger] s[i] == (Access { adt, field, kind })
                && #[trigger] s[j] == (Access { adt, field, kind }),
    decreases s.len(),
{
    let x = Access { adt, field, kind };
    if s.len() > 0 {
        let front = s.drop_last();
        lemma_count(front, adt, field, kind);
        let n = s.len() - 1;
        assert(s[n] == s.last());
        if front.contains(x) {
            let i = choose|i: int| 0 <= i < front.len() && front[i] == x;
            assert(s[i] == x);
            if s.last() == x {
                assert(s[i] == x && s[n] == x);
            }
        }
        if count(front, adt, field, kind) >= 2 {
            let (i, j) = choose|i: int, j: int|
                0 <= i < j < front.len() && #[trigger] front[i] == x && #[trigger] front[j] == x;
            assert(s[i] == x && s[j] == x);
        }
        if s.contains(x) {
            let i = choose|i: int| 0 <= i < s.len() && s[i] == x;
            if i < n {
                assert(front[i] == x);
            }
        }
        if exists|i: int, j: int|
            0 <= i < j < s.len() && #[trigger] s[i] == x && #[trigger] s[j] == x {
            let (i, j) = choose|i: int, j: int|
                0 <= i < j < s.len() && #[trigger] s[i] == x && #[trigger] s[j] == x;
            assert(front[i] == x);
            if j < n {
                assert(front[j] == x);
            }
        }
    }
}

proof fn lemma_field_listed(s: Seq<Access>, k: int, i: int)
    requires
        0 <= i < k <= s.len(),
    ensures
        fields(s, k).contains((s[i].adt, s[i].field)),
    decreases k,
{
    crate::table::lemma_added(fields(s, k - 1), (s[k - 1].adt, s[k - 1].field));
    if i < k - 1 {
        lemma_field_listed(s, k - 1, i);
    }
}

proof fn lemma_field_said(
    defs: Definitions,
    s: Seq<Access>,
    fs: Seq<(DefId, Symbol)>,
    k: int,
    m: int,
)
    requires
        0 <= m < k <= fs.len(),
        field_finding(defs, s, fs[m].0, fs[m].1) is Some,
    ensures
        field_findings(defs, s, fs, k).contains(
            field_finding(defs, s, fs[m].0, fs[m].1)->Some_0,
        ),
    decreases k,
{
    let x = field_finding(defs, s, fs[m].0, fs[m].1)->Some_0;
    if m < k - 1 {
        lemma_field_said(defs, s, fs, k - 1, m);
    }
    match field_finding(defs, s, fs[k - 1].0, fs[k - 1].1) {
        Some(f) => {
            crate::table::lemma_pushed(field_findings(defs, s, fs, k - 1), f, x);
        },
        None => {},
    }
}

/// A field that two reads unwrap and that none handles is reported at its
/// declaration.
pub proof fn lemma_unread_none_is_reported(
    defs: Definitions,
    s: Seq<Access>,
    i: int,
    j: int,
    adt: DefId,
    field: Symbol,
)
    requires
        0 <= i < j < s.len(),
        s[i] == (Access { adt, field, kind: ReadKind::Panicking }),
        s[j] == (Access { adt, field, kind: ReadKind::Panicking }),
        !s.contains(Access { adt, field, kind: ReadKind::Handled }),
        struct_field_at(defs, adt, field) is Some,
    ensures
        exists|k: int|
            0 <= k < unread_findings(defs, s).len() && (#[trigger] unread_findings(defs, s)[k]).at
                == struct_field_at(defs, adt, field)->Some_0.span && unread_findings(
                defs,
                s,
            )[k].lint == Lint::UnreadNone,
{
    lemma_count(s, adt, field, ReadKind::Panicking);
    lemma_count(s, adt, field, ReadKind::Handled);
    let n = s.len() as int;
    lemma_field_listed(s, n, i);
    let fs = fields(s, n);
    let m = choose|m: int| 0 <= m < fs.len() && fs[m] == (adt, field);
    lemma_field_said(defs, s, fs, fs.len() as int, m);
    let x = field_finding(defs, s, adt, field)->Some_0;
    let all = unread_findings(defs, s);
    let k = choose|k: int| 0 <= k < all.len() && all[k] == x;
    assert(all[k].lint == Lint::UnreadNone);
}

/// Nothing is said of a field that is unwrapped once, or that some read
/// handles.
pub proof fn lemma_reported_option_is_only_unwrapped(
    defs: Definitions,
    s: Seq<Access>,
    adt: DefId,
    field: Symbol,
)
    requires
        field_finding(defs, s, adt, field) is Some,
    ensures
        !s.contains(Access { adt, field, kind: ReadKind::Handled }),
        exists|i: int, j: int|
            0 <= i < j < s.len() && #[trigger] s[i] == (Access {
                adt,
                field,
                kind: ReadKind::Panicking,
            }) && #[trigger] s[j] == (Access { adt, field, kind: ReadKind::Panicking }),
{
    lemma_count(s, adt, field, ReadKind::Panicking);
    lemma_count(s, adt, field, ReadKind::Handled);
}

} // verus!
