//! A bool field that two or more methods test and bail on at entry:
//! `if self.flag { return .. }` as the first statement. The field has to be
//! written somewhere after construction too: a flag only ever set in a
//! literal is a role or an option, and the methods are not enforcing an order.

use crate::adt_facts::{struct_field, struct_field_at};
use crate::defs::Definitions;
use crate::hir::{Expr, ExprKind, StmtKind};
use crate::hir_shapes::{
    assigned_adt_field, ends_in_return, field_of_self, peel_not, returns_last, self_field,
    without_not, written_adt_field,
};
use crate::ids::{DefId, Symbol};
use crate::report::{emit, finding, views, Finding, FindingView, Lint};
use crate::table::{add_new, is_in, with_added};
use crate::text::{decimal, number};
use crate::ty::{adt_id, peeled};
use vstd::prelude::*;
use vstd::string::*;

verus! {

#[derive(Debug)]
pub struct GuardFlag {
    /// The field each guarding method tests.
    pub guards: Vec<(DefId, Symbol)>,
    /// Fields assigned, compound-assigned or mutably borrowed anywhere: the
    /// ones whose value is a state rather than a setting.
    pub written: Vec<(DefId, Symbol)>,
}

#[verifier::ext_equal]
pub struct FlagView {
    pub guards: Seq<(DefId, Symbol)>,
    pub written: Seq<(DefId, Symbol)>,
}

impl View for GuardFlag {
    type V = FlagView;

    open spec fn view(&self) -> FlagView {
        FlagView { guards: self.guards@, written: self.written@ }
    }
}

/// The bool field of a local struct that `self.field` is.
pub open spec fn self_flag(defs: Definitions, e: Expr) -> Option<(DefId, Symbol)> {
    match field_of_self(defs, e) {
        Some((base, name)) => match adt_id(peeled(base.ty)) {
            Some(did) => if defs.local(did) && defs.is_struct(did) && (struct_field_at(
                defs,
                did,
                name,
            ) matches Some(f) && f.ty is Bool) {
                Some((did, name))
            } else {
                None
            },
            None => None,
        },
        None => None,
    }
}

fn self_bool_field(defs: &Definitions, e: &Expr) -> (r: Option<(DefId, Symbol)>)
    ensures
        r == self_flag(*defs, *e),
{
    match self_field(defs, e) {
        Some((base, name)) => match base.ty.peel_refs().adt() {
            Some(did) => {
                let flag = match struct_field(defs, did, name) {
                    Some(f) => f.ty.is_bool(),
                    None => false,
                };
                if defs.is_local(did) && defs.struct_here(did) && flag {
                    Some((did, name))
                } else {
                    None
                }
            },
            None => None,
        },
        None => None,
    }
}

/// The place an expression writes or lends for writing.
pub open spec fn written_place(e: Expr) -> Option<Expr> {
    match e.kind {
        ExprKind::Assign(t, _) => Some(*t),
        ExprKind::AssignOp(t, _) => Some(*t),
        ExprKind::AddrOf(_, mutable, t) => if mutable {
            Some(*t)
        } else {
            None
        },
        _ => None,
    }
}

/// What is known once an expression has been visited.
pub open spec fn after_expr(defs: Definitions, s: FlagView, e: Expr) -> FlagView {
    match written_place(e) {
        Some(t) => match written_adt_field(t) {
            Some((did, name)) => if defs.is_struct(did) && defs.local(did) {
                FlagView { written: with_added(s.written, (did, name)), ..s }
            } else {
                s
            },
            None => s,
        },
        None => s,
    }
}

/// The field a function tests and bails on at entry.
pub open spec fn guarded_by(defs: Definitions, body: Expr) -> Option<(DefId, Symbol)> {
    match body.kind {
        ExprKind::Block(b) => if b.stmts@.len() == 0 {
            None
        } else {
            match b.stmts@[0].kind {
                StmtKind::Expr(e) => bails_on(defs, e),
                StmtKind::Semi(e) => bails_on(defs, e),
                _ => None,
            }
        },
        _ => None,
    }
}

pub open spec fn bails_on(defs: Definitions, e: Expr) -> Option<(DefId, Symbol)> {
    match e.kind {
        ExprKind::If(cond, yes, _) => if returns_last(*yes) {
            self_flag(defs, without_not(*cond).0)
        } else {
            None
        },
        _ => None,
    }
}

fn bailed_on(defs: &Definitions, e: &Expr) -> (r: Option<(DefId, Symbol)>)
    ensures
        r == bails_on(*defs, *e),
{
    match &e.kind {
        ExprKind::If(cond, yes, _) => if ends_in_return(yes) {
            self_bool_field(defs, peel_not(cond).0)
        } else {
            None
        },
        _ => None,
    }
}

/// What is known once a function has been visited.
pub open spec fn after_fn(defs: Definitions, s: FlagView, is_closure: bool, body: Expr) -> FlagView {
    match guarded_by(defs, body) {
        Some(f) => if is_closure {
            s
        } else {
            FlagView { guards: s.guards.push(f), ..s }
        },
        None => s,
    }
}

/// How many methods test the field.
pub open spec fn testers(guards: Seq<(DefId, Symbol)>, f: (DefId, Symbol)) -> nat
    decreases guards.len(),
{
    if guards.len() == 0 {
        0
    } else {
        testers(guards.drop_last(), f) + if guards.last() == f {
            1nat
        } else {
            0nat
        }
    }
}

/// What the lint says of a field.
pub open spec fn flag_finding(
    defs: Definitions,
    s: FlagView,
    f: (DefId, Symbol),
) -> Option<FindingView> {
    match struct_field_at(defs, f.0, f.1) {
        Some(field) => if testers(s.guards, f) < 2 || !s.written.contains(f) {
            None
        } else {
            Some(
                finding(
                    Lint::GuardFlag,
                    field.span,
                    "`"@ + defs.text(f.1) + "` is tested and bailed on at the start of "@ + decimal(
                        testers(s.guards, f),
                    ) + " methods of `"@ + defs.path_text(f.0) + "`"@,
                    "the ordering invariant lives at runtime; a separate type for the guarded state enforces it at compile time"@,
                ),
            )
        },
        None => None,
    }
}

/// The fields of the first `k` guards, each once.
pub open spec fn flags(guards: Seq<(DefId, Symbol)>, k: int) -> Seq<(DefId, Symbol)>
    decreases k,
{
    if k <= 0 {
        Seq::empty()
    } else {
        with_added(flags(guards, k - 1), guards[k - 1])
    }
}

pub open spec fn flag_findings(
    defs: Definitions,
    s: FlagView,
    fs: Seq<(DefId, Symbol)>,
    k: int,
) -> Seq<FindingView>
    decreases k,
{
    if k <= 0 {
        Seq::empty()
    } else {
        let before = flag_findings(defs, s, fs, k - 1);
        match flag_finding(defs, s, fs[k - 1]) {
            Some(f) => before.push(f),
            None => before,
        }
    }
}

/// What the lint says of the crate.
pub open spec fn guard_findings(defs: Definitions, s: FlagView) -> Seq<FindingView> {
    let fs = flags(s.guards, s.guards.len() as int);
    flag_findings(defs, s, fs, fs.len() as int)
}

impl GuardFlag {
    pub fn new() -> (r: Self)
        ensures
            r@ == (FlagView { guards: Seq::empty(), written: Seq::empty() }),
    {
        GuardFlag { guards: Vec::new(), written: Vec::new() }
    }

    /// Visits an expression.
    pub fn check_expr(&mut self, defs: &Definitions, e: &Expr)
        ensures
            final(self)@ == after_expr(*defs, old(self)@, *e),
    {
        let ghost before = self@;
        let target = match &e.kind {
            ExprKind::Assign(t, _) => t,
            ExprKind::AssignOp(t, _) => t,
            ExprKind::AddrOf(_, mutable, t) => {
                if !*mutable {
                    return;
                }
                t
            },
            _ => {
                return;
            },
        };
        match assigned_adt_field(target) {
            Some((did, name)) => {
                if defs.struct_here(did) && defs.is_local(did) {
                    add_new(&mut self.written, (did, name));
                    assert(self@ =~= after_expr(*defs, before, *e));
                }
            },
            None => {},
        }
    }

    /// Visits a function.
    pub fn check_fn(&mut self, defs: &Definitions, is_closure: bool, body: &Expr)
        ensures
            final(self)@ == after_fn(*defs, old(self)@, is_closure, *body),
    {
        let ghost before = self@;
        if is_closure {
            return;
        }
        let found = match &body.kind {
            ExprKind::Block(b) => {
                if b.stmts.len() == 0 {
                    return;
                }
                match &b.stmts[0].kind {
                    StmtKind::Expr(e) => bailed_on(defs, e),
                    StmtKind::Semi(e) => bailed_on(defs, e),
                    _ => None,
                }
            },
            _ => None,
        };
        match found {
            Some(f) => {
                self.guards.push(f);
                assert(self@ =~= after_fn(*defs, before, is_closure, *body));
            },
            None => {},
        }
    }

    fn count(&self, f: (DefId, Symbol)) -> (r: usize)
        ensures
            r == testers(self@.guards, f),
    {
        let ghost gs = self.guards@;
        let mut n: usize = 0;
        let mut i: usize = 0;
        while i < self.guards.len()
            invariant
                i <= self.guards@.len(),
                gs == self.guards@,
                n <= i,
                n == testers(gs.take(i as int), f),
            decreases self.guards.len() - i,
        {
            assert(gs.take(i + 1).drop_last() =~= gs.take(i as int));
            if self.guards[i].0 == f.0 && self.guards[i].1 == f.1 {
                n = n + 1;
            }
            i = i + 1;
        }
        assert(gs.take(i as int) =~= gs);
        n
    }

    /// What the lint says of the crate.
    pub fn check_crate_post(&self, defs: &Definitions) -> (r: Vec<Finding>)
        ensures
            views(r@) == guard_findings(*defs, self@),
    {
        let mut fs: Vec<(DefId, Symbol)> = Vec::new();
        let mut i: usize = 0;
        while i < self.guards.len()
            invariant
                i <= self.guards@.len(),
                fs@ == flags(self@.guards, i as int),
            decreases self.guards.len() - i,
        {
            add_new(&mut fs, self.guards[i]);
            i = i + 1;
        }
        let mut out: Vec<Finding> = Vec::new();
        let mut k: usize = 0;
        assert(views(out@) =~= Seq::<FindingView>::empty());
        while k < fs.len()
            invariant
                k <= fs@.len(),
                views(out@) == flag_findings(*defs, self@, fs@, k as int),
            decreases fs.len() - k,
        {
            let f = fs[k];
            let n: usize = self.count(f);
            if n >= 2 && is_in(&self.written, &f) {
                match struct_field(defs, f.0, f.1) {
                    Some(field) => {
                        let mut msg = String::from_str("`");
                        msg.append(defs.text_of(f.1));
                        msg.append("` is tested and bailed on at the start of ");
                        msg.append(number(n as u128).as_str());
                        msg.append(" methods of `");
                        msg.append(defs.path_of(f.0));
                        msg.append("`");
                        emit(
                            &mut out,
                            Lint::GuardFlag,
                            field.span,
                            msg,
                            "the ordering invariant lives at runtime; a separate type for the guarded state enforces it at compile time",
                        );
                    },
                    None => {},
                }
            }
            k = k + 1;
        }
        out
    }
}

/// A flag that is only ever set in literals is not reported.
pub proof fn lemma_unwritten_flag_is_quiet(defs: Definitions, s: FlagView, f: (DefId, Symbol))
    requires
        !s.written.contains(f),
    ensures
        flag_finding(defs, s, f) is None,
{
}

/// One method bailing on a flag is no pattern: it takes two.
pub proof fn lemma_single_guard_is_quiet(defs: Definitions, s: FlagView, f: (DefId, Symbol))
    requires
        testers(s.guards, f) < 2,
    ensures
        flag_finding(defs, s, f) is None,
{
}

/// Assigning a field of a struct of the crate, compound-assigning it or
/// lending it mutably makes it a state; reading it, or lending it shared, does
/// not.
pub proof fn lemma_written_fields_are_states(
    defs: Definitions,
    s: FlagView,
    e: Expr,
    place: Expr,
    base: Expr,
    name: Symbol,
    did: DefId,
)
    requires
        place.kind == ExprKind::Field(Box::new(base), name),
        peeled(base.adjusted) matches crate::ty::Ty::Adt(d, _) && d == did,
        defs.at(did) matches Some(d) && d.is_local && (d.adt matches Some(a) && a.kind
            == crate::defs::AdtKind::Struct),
    ensures
        (e.kind matches ExprKind::Assign(t, _) && *t == place) || (e.kind matches ExprKind::AssignOp(
            t,
            _,
        ) && *t == place) || (e.kind matches ExprKind::AddrOf(_, m, t) && m && *t == place)
            ==> after_expr(defs, s, e).written.contains((did, name)),
        !(e.kind is Assign) && !(e.kind is AssignOp) && !(e.kind matches ExprKind::AddrOf(_, m, _)
            && m) ==> after_expr(defs, s, e) == s,
        after_expr(defs, s, e).guards == s.guards,
        forall|f: (DefId, Symbol)|
            s.written.contains(f) ==> #[trigger] after_expr(defs, s, e).written.contains(f),
{
    crate::hir_shapes::lemma_write_reaches_the_field(place, place, base, name);
    crate::table::lemma_added(s.written, (did, name));
    assert forall|f: (DefId, Symbol)| s.written.contains(f) implies #[trigger] after_expr(
        defs,
        s,
        e,
    ).written.contains(f) by {
        match written_place(e) {
            Some(t) => match written_adt_field(t) {
                Some(w) => {
                    crate::table::lemma_added(s.written, w);
                },
                None => {},
            },
            None => {},
        }
    }
}

/// A method whose first statement returns on `self.flag`, or on its negation,
/// is a guard of that flag.
pub proof fn lemma_bailing_method_guards(
    defs: Definitions,
    s: FlagView,
    body: Expr,
    b: crate::hir::Block,
    test: Expr,
    cond: Expr,
    yes: Expr,
    access: Expr,
    me: Expr,
    flag: Symbol,
    did: DefId,
)
    requires
        body.kind == ExprKind::Block(b),
        b.stmts@.len() > 0,
        b.stmts@[0].kind == StmtKind::Expr(test) || b.stmts@[0].kind == StmtKind::Semi(test),
        test.kind matches ExprKind::If(c, y, _) && *c == cond && *y == yes,
        cond == access || cond.kind == ExprKind::Unary(crate::hir::UnOp::Not, Box::new(access)),
        access.kind == ExprKind::Field(Box::new(me), flag),
        me.kind matches ExprKind::Path(p) && !p.type_relative && !p.has_self && p.segments@.len()
            == 1 && defs.text(p.segments@[0]) == "self"@,
        peeled(me.ty) matches crate::ty::Ty::Adt(d, _) && d == did,
        defs.at(did) matches Some(d) && d.is_local && (d.adt matches Some(a) && a.kind
            == crate::defs::AdtKind::Struct),
        struct_field_at(defs, did, flag) matches Some(f) && f.ty is Bool,
    ensures
        yes.kind is Ret || (yes.kind matches ExprKind::Block(yb) && yb.expr is None
            && yb.stmts@.len() > 0 && (yb.stmts@[yb.stmts@.len() - 1].kind matches StmtKind::Semi(
            last,
        ) && last.kind is Ret)) ==> after_fn(defs, s, false, body) == (FlagView {
            guards: s.guards.push((did, flag)),
            ..s
        }),
        !(yes.kind is Ret) && !(yes.kind is Block) ==> after_fn(defs, s, false, body) == s,
        after_fn(defs, s, true, body) == s,
{
    crate::hir_shapes::lemma_self_is_a_bare_path(defs, me, me, flag);
    crate::hir_shapes::lemma_self_is_a_bare_path(defs, access, me, flag);
    crate::hir_shapes::lemma_negation_is_peeled(access, access);
    crate::hir_shapes::lemma_negation_is_peeled(cond, access);
    if yes.kind is Block {
        let yb = yes.kind->Block_0;
        crate::hir_shapes::lemma_ends_in_return(yes, yb);
        if yb.expr is None && yb.stmts@.len() > 0 {
            match yb.stmts@[yb.stmts@.len() - 1].kind {
                StmtKind::Semi(last) => {
                    crate::hir_shapes::lemma_ends_in_return(last, yb);
                },
                _ => {},
            }
        }
    } else {
        crate::hir_shapes::lemma_ends_in_return(yes, b);
    }
}

proof fn lemma_two_testers(guards: Seq<(DefId, Symbol)>, f: (DefId, Symbol))
    ensures
        testers(guards, f) >= 1 <==> guards.contains(f),
        testers(guards, f) >= 2 <==> exists|i: int, j: int|
            0 <= i < j < guards.len() && #[trigger] guards[i] == f && #[trigger] guards[j] == f,
    decreases guards.len(),
{
    if guards.len() > 0 {
        let front = guards.drop_last();
        lemma_two_testers(front, f);
        let n = guards.len() - 1;
        assert(guards[n] == guards.last());
        if front.contains(f) {
            let i = choose|i: int| 0 <= i < front.len() && front[i] == f;
            assert(guards[i] == f);
            if guards.last() == f {
                assert(guards[i] == f && guards[n] == f);
            }
        }
        if testers(front, f) >= 2 {
            let (i, j) = choose|i: int, j: int|
                0 <= i < j < front.len() && #[trigger] front[i] == f && #[trigger] front[j] == f;
            assert(guards[i] == f && guards[j] == f);
        }
        if guards.contains(f) {
            let i = choose|i: int| 0 <= i < guards.len() && guards[i] == f;
            if i < n {
                assert(front[i] == f);
            }
        }
        if exists|i: int, j: int|
            0 <= i < j < guards.len() && #[trigger] guards[i] == f && #[trigger] guards[j] == f {
            let (i, j) = choose|i: int, j: int|
                0 <= i < j < guards.len() && #[trigger] guards[i] == f && #[trigger] guards[j] == f;
            assert(front[i] == f);
            if j < n {
                assert(front[j] == f);
            }
        }
    }
}

proof fn lemma_guard_listed(guards: Seq<(DefId, Symbol)>, k: int, i: int)
    requires
        0 <= i < k <= guards.len(),
    ensures
        flags(guards, k).contains(guards[i]),
    decreases k,
{
    crate::table::lemma_added(flags(guards, k - 1), guards[k - 1]);
    if i < k - 1 {
        lemma_guard_listed(guards, k - 1, i);
    }
}

proof fn lemma_flag_reported(
    defs: Definitions,
    s: FlagView,
    fs: Seq<(DefId, Symbol)>,
    k: int,
    m: int,
)
    requires
        0 <= m < k <= fs.len(),
        flag_finding(defs, s, fs[m]) is Some,
    ensures
        flag_findings(defs, s, fs, k).contains(flag_finding(defs, s, fs[m])->Some_0),
    decreases k,
{
    let x = flag_finding(defs, s, fs[m])->Some_0;
    let all = flag_findings(defs, s, fs, k);
    let before = flag_findings(defs, s, fs, k - 1);
    if m == k - 1 {
        assert(all[all.len() - 1] == x);
    } else {
        lemma_flag_reported(defs, s, fs, k - 1, m);
        let i = choose|i: int| 0 <= i < before.len() && before[i] == x;
        assert(all[i] == x);
    }
}

/// A flag that two methods bail on, and that something writes, is reported at
/// its declaration.
pub proof fn lemma_guarded_state_is_reported(
    defs: Definitions,
    s: FlagView,
    f: (DefId, Symbol),
    i: int,
    j: int,
)
    requires
        0 <= i < j < s.guards.len(),
        s.guards[i] == f,
        s.guards[j] == f,
        s.written.contains(f),
        struct_field_at(defs, f.0, f.1) is Some,
    ensures
        exists|k: int|
            0 <= k < guard_findings(defs, s).len() && (#[trigger] guard_findings(defs, s)[k]).at
                == struct_field_at(defs, f.0, f.1)->Some_0.span && guard_findings(defs, s)[k].lint
                == Lint::GuardFlag,
{
    lemma_two_testers(s.guards, f);
    let n = s.guards.len() as int;
    lemma_guard_listed(s.guards, n, i);
    let fs = flags(s.guards, n);
    let m = choose|m: int| 0 <= m < fs.len() && fs[m] == f;
    let x = flag_finding(defs, s, f)->Some_0;
    lemma_flag_reported(defs, s, fs, fs.len() as int, m);
    let k = choose|k: int|
        0 <= k < guard_findings(defs, s).len() && guard_findings(defs, s)[k] == x;
    assert(guard_findings(defs, s)[k].lint == Lint::GuardFlag);
}

/// Nothing is said of a flag that fewer than two methods bail on, or that
/// nothing writes.
pub proof fn lemma_reported_flag_guards_a_state(
    defs: Definitions,
    s: FlagView,
    f: (DefId, Symbol),
)
    requires
        flag_finding(defs, s, f) is Some,
    ensures
        s.written.contains(f),
        exists|i: int, j: int|
            0 <= i < j < s.guards.len() && #[trigger] s.guards[i] == f && #[trigger] s.guards[j]
                == f,
{
    lemma_two_testers(s.guards, f);
}

/// A test of a field that is no flag, or of another crate's type, guards
/// nothing, and neither does a test that stands behind other statements; what
/// is written of other types is no state.
pub proof fn lemma_what_guards_nothing(
    defs: Definitions,
    s: FlagView,
    e: Expr,
    me: Expr,
    name: Symbol,
    did: DefId,
    body: Expr,
)
    requires
        e.kind == ExprKind::Field(Box::new(me), name),
        peeled(me.ty) matches crate::ty::Ty::Adt(d, _) && d == did,
    ensures
        !defs.local(did) || !defs.is_struct(did) ==> self_flag(defs, e) is None,
        (struct_field_at(defs, did, name) matches Some(f) && !(f.ty is Bool)) ==> self_flag(defs, e)
            is None,
        !(body.kind is Block) ==> after_fn(defs, s, false, body) == s,
        (body.kind matches ExprKind::Block(b) && (b.stmts@.len() == 0 || b.stmts@[0].kind is Let
            || b.stmts@[0].kind is Item)) ==> after_fn(defs, s, false, body) == s,
{
}

/// Writing a field of another crate's type, or of an enum, is on no record.
pub proof fn lemma_foreign_writes_are_let_be(
    defs: Definitions,
    s: FlagView,
    e: Expr,
    place: Expr,
    did: DefId,
    name: Symbol,
)
    requires
        (e.kind matches ExprKind::Assign(t, _) && *t == place),
        written_adt_field(place) == Some((did, name)),
        !defs.local(did) || !defs.is_struct(did),
    ensures
        after_expr(defs, s, e) == s,
{
}

} // verus!
