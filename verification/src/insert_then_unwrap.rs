//! `map.get(&k).unwrap()` when the presence it bets on was proved a few
//! statements up by `map.insert(k, ..)`, with nothing in between that could
//! touch the map or the key: no calls, no assignments to either.

use crate::defs::{Definitions, Known};
use crate::hir::{targets, walk, walked, Block, Expr, ExprKind, Res, Stmt, StmtKind, UnOp};
use crate::hir_shapes::{adjusted_adt, adt_behind, lone_segment, single_segment};
use crate::ids::HirId;
use crate::report::{emit, finding, views, Finding, FindingView, Lint};
use crate::table::Same;
use crate::text::{
    chars_of, same, string_of, strip_prefix, trim_start_char, trimmed_start, without_prefix,
};
use vstd::prelude::*;
use vstd::string::*;

verus! {

/// The identity of a small expression worth following.
#[derive(Debug)]
pub struct Identity {
    /// The local it starts from; none for a literal. Two locals of one name
    /// are two.
    pub root: Option<HirId>,
    /// How it reads.
    pub text: String,
}

pub struct IdentityView {
    pub root: Option<HirId>,
    pub text: Seq<char>,
}

impl View for Identity {
    type V = IdentityView;

    open spec fn view(&self) -> IdentityView {
        IdentityView { root: self.root, text: self.text@ }
    }
}

impl Identity {
    fn same(&self, other: &Identity) -> (r: bool)
        ensures
            r == (self@ == other@),
    {
        self.root.same(&other.root) && same(self.text.as_str(), other.text.as_str())
    }
}

/// The identity of an expression: `self.a.b` chains, plain locals and
/// literals, with their sign, behind borrows and derefs. Anything else has
/// none, and what cannot be followed cannot be proved.
pub open spec fn identity(defs: Definitions, e: Expr) -> Option<IdentityView>
    decreases e,
{
    match e.kind {
        ExprKind::Field(base, name) => match identity(defs, *base) {
            Some(b) => Some(
                IdentityView { root: b.root, text: b.text + "."@ + defs.text(name) },
            ),
            None => None,
        },
        ExprKind::Path(p) => match (single_segment(p), p.res) {
            (Some(s), Res::Local(id)) => Some(
                IdentityView { root: Some(id), text: defs.text(s) },
            ),
            _ => None,
        },
        ExprKind::Lit(l) => Some(IdentityView { root: None, text: "lit:"@ + l.text@ }),
        ExprKind::AddrOf(_, _, inner) => identity(defs, *inner),
        ExprKind::Unary(op, inner) => if op == UnOp::Deref {
            identity(defs, *inner)
        } else if op == UnOp::Neg {
            match inner.kind {
                ExprKind::Lit(l) => Some(IdentityView { root: None, text: "neg:"@ + l.text@ }),
                _ => None,
            }
        } else {
            None
        },
        _ => None,
    }
}

fn identity_of(defs: &Definitions, e: &Expr) -> (r: Option<Identity>)
    ensures
        match r {
            Some(t) => identity(*defs, *e) == Some(t@),
            None => identity(*defs, *e) is None,
        },
    decreases e,
{
    match &e.kind {
        ExprKind::Field(base, name) => match identity_of(defs, base) {
            Some(b) => {
                let root = b.root;
                let mut t = b.text;
                t.append(".");
                t.append(defs.text_of(*name));
                Some(Identity { root, text: t })
            },
            None => None,
        },
        ExprKind::Path(p) => match (lone_segment(p), p.res) {
            (Some(s), Res::Local(id)) => Some(
                Identity { root: Some(id), text: String::from_str(defs.text_of(s)) },
            ),
            _ => None,
        },
        ExprKind::Lit(l) => {
            let mut t = String::from_str("lit:");
            t.append(l.text.as_str());
            Some(Identity { root: None, text: t })
        },
        ExprKind::AddrOf(_, _, inner) => identity_of(defs, inner),
        ExprKind::Unary(op, inner) => match op {
            UnOp::Deref => identity_of(defs, inner),
            UnOp::Neg => match &inner.kind {
                ExprKind::Lit(l) => {
                    let mut t = String::from_str("neg:");
                    t.append(l.text.as_str());
                    Some(Identity { root: None, text: t })
                },
                _ => None,
            },
            UnOp::Not => None,
        },
        _ => None,
    }
}

/// The receiver is a map of the standard library.
pub open spec fn on_map(defs: Definitions, recv: Expr) -> bool {
    adjusted_adt(recv) matches Some(d) && (defs.known(d) == Known::HashMapType || defs.known(d)
        == Known::BTreeMapType)
}

fn is_map(defs: &Definitions, recv: &Expr) -> (r: bool)
    ensures
        r == on_map(*defs, *recv),
{
    match adt_behind(recv) {
        Some(d) => match defs.known_as(d) {
            Known::HashMapType | Known::BTreeMapType => true,
            _ => false,
        },
        None => false,
    }
}

/// `map.insert(k, _)` as the map and the key.
pub open spec fn insertion(defs: Definitions, e: Expr) -> Option<(IdentityView, IdentityView)> {
    match e.kind {
        ExprKind::MethodCall(name, recv, args) => if args@.len() == 2 && defs.text(name)
            == "insert"@ && on_map(defs, *recv) {
            match (identity(defs, *recv), identity(defs, args@[0])) {
                (Some(m), Some(k)) => Some((m, k)),
                _ => None,
            }
        } else {
            None
        },
        _ => None,
    }
}

fn insert_of(defs: &Definitions, e: &Expr) -> (r: Option<(Identity, Identity)>)
    ensures
        match r {
            Some(p) => insertion(*defs, *e) == Some((p.0@, p.1@)),
            None => insertion(*defs, *e) is None,
        },
{
    match &e.kind {
        ExprKind::MethodCall(name, recv, args) => {
            if args.len() != 2 || !defs.reads(*name, "insert") || !is_map(defs, recv) {
                return None;
            }
            match (identity_of(defs, recv), identity_of(defs, &args[0])) {
                (Some(m), Some(k)) => Some((m, k)),
                _ => None,
            }
        },
        _ => None,
    }
}

/// How a key reads in the message.
pub open spec fn key_shown(k: Expr) -> Seq<char> {
    trimmed_start(
        match k.snippet {
            Some(t) => t@,
            None => ".."@,
        },
        '&',
    )
}

/// `map.get(&k).unwrap()` or `.expect(..)` as the map, the key, and how the
/// key reads.
pub open spec fn lookup(defs: Definitions, e: Expr) -> Option<(IdentityView, IdentityView, Seq<char>)> {
    match e.kind {
        ExprKind::MethodCall(outer, inner, _) => match inner.kind {
            ExprKind::MethodCall(name, recv, args) => if (defs.text(outer) == "unwrap"@
                || defs.text(outer) == "expect"@) && args@.len() == 1 && (defs.text(name) == "get"@
                || defs.text(name) == "get_mut"@) && on_map(defs, *recv) {
                match (identity(defs, *recv), identity(defs, args@[0])) {
                    (Some(m), Some(k)) => Some((m, k, key_shown(args@[0]))),
                    _ => None,
                }
            } else {
                None
            },
            _ => None,
        },
        _ => None,
    }
}

fn get_unwrap_of(defs: &Definitions, e: &Expr) -> (r: Option<(Identity, Identity, String)>)
    ensures
        match r {
            Some(p) => lookup(*defs, *e) == Some((p.0@, p.1@, p.2@)),
            None => lookup(*defs, *e) is None,
        },
{
    match &e.kind {
        ExprKind::MethodCall(outer, inner, _) => match &inner.kind {
            ExprKind::MethodCall(name, recv, args) => {
                let panics = defs.reads(*outer, "unwrap") || defs.reads(*outer, "expect");
                let gets = defs.reads(*name, "get") || defs.reads(*name, "get_mut");
                if !panics || args.len() != 1 || !gets || !is_map(defs, recv) {
                    return None;
                }
                match (identity_of(defs, recv), identity_of(defs, &args[0])) {
                    (Some(m), Some(k)) => {
                        let text = match &args[0].snippet {
                            Some(t) => t.as_str(),
                            None => "..",
                        };
                        let shown = string_of(&trim_start_char(&chars_of(text), '&'));
                        Some((m, k, shown))
                    },
                    _ => None,
                }
            },
            _ => None,
        },
        _ => None,
    }
}

/// A call or an assignment: anything callable is taken to be able to touch
/// the map.
pub open spec fn touches(e: Expr) -> bool {
    e.kind is MethodCall || e.kind is Call || e.kind is Assign || e.kind is AssignOp
}

/// The expression holds one.
pub open spec fn disturbs(e: Expr) -> bool {
    exists|i: int| 0 <= i < walk(e, true).len() && touches(#[trigger] walk(e, true)[i])
}

fn may_disturb(e: &Expr) -> (r: bool)
    ensures
        r == disturbs(*e),
{
    let es = walked(e, true);
    let ghost all = walk(*e, true);
    let mut i: usize = 0;
    while i < es.len()
        invariant
            i <= es@.len(),
            all == walk(*e, true),
            targets(es@) == all,
            forall|j: int| 0 <= j < i ==> !touches(#[trigger] all[j]),
        decreases es.len() - i,
    {
        assert(all[i as int] == *es@[i as int]);
        assert(all.len() == es@.len());
        let here = match &es[i].kind {
            ExprKind::MethodCall(_, _, _) => true,
            ExprKind::Call(_, _) => true,
            ExprKind::Assign(_, _) => true,
            ExprKind::AssignOp(_, _) => true,
            _ => false,
        };
        if here {
            assert(touches(walk(*e, true)[i as int]));
            return true;
        }
        i = i + 1;
    }
    assert(all.len() == es@.len());
    false
}

/// What a statement evaluates.
pub open spec fn evaluated(s: Stmt) -> Option<Expr> {
    match s.kind {
        StmtKind::Expr(e) => Some(e),
        StmtKind::Semi(e) => Some(e),
        StmtKind::Let(l) => match l.init {
            Some(x) => Some(*x),
            None => None,
        },
        StmtKind::Item => None,
    }
}

fn evaluates<'a>(s: &'a Stmt) -> (r: Option<&'a Expr>)
    ensures
        match r {
            Some(e) => evaluated(*s) == Some(*e),
            None => evaluated(*s) is None,
        },
{
    match &s.kind {
        StmtKind::Expr(e) => Some(e),
        StmtKind::Semi(e) => Some(e),
        StmtKind::Let(l) => match &l.init {
            Some(x) => Some(&**x),
            None => None,
        },
        StmtKind::Item => None,
    }
}

/// The map's name without a leading `self.`.
pub open spec fn map_shown(map: Seq<char>) -> Seq<char> {
    match without_prefix(map, "self."@) {
        Some(rest) => rest,
        None => map,
    }
}

pub open spec fn refetch_finding(e: Expr, map: IdentityView, shown: Seq<char>) -> FindingView {
    finding(
        Lint::InsertThenUnwrap,
        e.span,
        "this unwrap re-fetches `"@ + map_shown(map.text) + "["@ + shown
            + "]`, which the insert above just proved present"@,
        "keep the inserted value, or use the entry API; the panic path and the second lookup both vanish"@,
    )
}

/// The lookup an insert proves, among the statements from `j` on.
pub open spec fn refetch(
    defs: Definitions,
    stmts: Seq<Stmt>,
    map: IdentityView,
    key: IdentityView,
    j: int,
) -> Option<FindingView>
    decreases stmts.len() - j,
{
    if j >= stmts.len() {
        None
    } else {
        match evaluated(stmts[j]) {
            None => refetch(defs, stmts, map, key, j + 1),
            Some(e) => if lookup(defs, e) matches Some(p) && p.0 == map && p.1 == key {
                Some(refetch_finding(e, map, lookup(defs, e)->Some_0.2))
            } else if disturbs(e) {
                None
            } else {
                refetch(defs, stmts, map, key, j + 1)
            },
        }
    }
}

/// What a statement inserts.
pub open spec fn stmt_insert(defs: Definitions, s: Stmt) -> Option<(IdentityView, IdentityView)> {
    match s.kind {
        StmtKind::Expr(e) => insertion(defs, e),
        StmtKind::Semi(e) => insertion(defs, e),
        _ => None,
    }
}

/// The first lookup of the block that an insert from statement `i` on proves.
pub open spec fn first_refetch(defs: Definitions, stmts: Seq<Stmt>, i: int) -> Option<FindingView>
    decreases stmts.len() - i,
{
    if i >= stmts.len() {
        None
    } else {
        match stmt_insert(defs, stmts[i]) {
            Some((map, key)) => match refetch(defs, stmts, map, key, i + 1) {
                Some(f) => Some(f),
                None => first_refetch(defs, stmts, i + 1),
            },
            None => first_refetch(defs, stmts, i + 1),
        }
    }
}

/// What the lint says of a block.
pub open spec fn refetches(defs: Definitions, b: Block) -> Seq<FindingView> {
    match first_refetch(defs, b.stmts@, 0) {
        Some(f) => seq![f],
        None => Seq::empty(),
    }
}

fn add_refetch(
    defs: &Definitions,
    stmts: &Vec<Stmt>,
    map: &Identity,
    key: &Identity,
    from: usize,
    out: &mut Vec<Finding>,
) -> (r: bool)
    requires
        from <= stmts@.len(),
    ensures
        match refetch(*defs, stmts@, map@, key@, from as int) {
            Some(f) => r && views(final(out)@) == views(old(out)@).push(f),
            None => !r && views(final(out)@) == views(old(out)@),
        },
{
    let mut j: usize = from;
    while j < stmts.len()
        invariant
            from <= j <= stmts@.len(),
            out@ == old(out)@,
            refetch(*defs, stmts@, map@, key@, from as int) == refetch(
                *defs,
                stmts@,
                map@,
                key@,
                j as int,
            ),
        decreases stmts.len() - j,
    {
        match evaluates(&stmts[j]) {
            Some(e) => {
                match get_unwrap_of(defs, e) {
                    Some((gmap, gkey, shown)) => {
                        if gmap.same(map) && gkey.same(key) {
                            let name = match strip_prefix(&chars_of(map.text.as_str()), "self.") {
                                Some(rest) => string_of(&rest),
                                None => String::from_str(map.text.as_str()),
                            };
                            let mut msg = String::from_str("this unwrap re-fetches `");
                            msg.append(name.as_str());
                            msg.append("[");
                            msg.append(shown.as_str());
                            msg.append("]`, which the insert above just proved present");
                            emit(
                                out,
                                Lint::InsertThenUnwrap,
                                e.span,
                                msg,
                                "keep the inserted value, or use the entry API; the panic path and the second lookup both vanish",
                            );
                            return true;
                        }
                    },
                    None => {},
                }
                if may_disturb(e) {
                    return false;
                }
            },
            None => {},
        }
        j = j + 1;
    }
    false
}

/// What the lint says of a block.
pub fn check_block(defs: &Definitions, b: &Block) -> (r: Vec<Finding>)
    ensures
        views(r@) == refetches(*defs, *b),
{
    let mut out: Vec<Finding> = Vec::new();
    assert(views(out@) =~= Seq::<FindingView>::empty());
    let stmts = &b.stmts;
    let mut i: usize = 0;
    while i < stmts.len()
        invariant
            i <= stmts@.len(),
            stmts@ == b.stmts@,
            views(out@) == Seq::<FindingView>::empty(),
            first_refetch(*defs, stmts@, 0) == first_refetch(*defs, stmts@, i as int),
        decreases stmts.len() - i,
    {
        let inserted = match &stmts[i].kind {
            StmtKind::Expr(e) => insert_of(defs, e),
            StmtKind::Semi(e) => insert_of(defs, e),
            _ => None,
        };
        match inserted {
            Some((map, key)) => {
                assert(i < stmts.len());
                if add_refetch(defs, stmts, &map, &key, i + 1, &mut out) {
                    assert(views(out@) =~= refetches(*defs, *b));
                    return out;
                }
            },
            None => {},
        }
        i = i + 1;
    }
    out
}

/// The statement looks the key up in the map and unwraps.
pub open spec fn refetches_at(
    defs: Definitions,
    s: Stmt,
    map: IdentityView,
    key: IdentityView,
) -> bool {
    evaluated(s) matches Some(e) && (lookup(defs, e) matches Some(p) && p.0 == map && p.1 == key)
}

/// The statement evaluates nothing that could touch the map or the key.
pub open spec fn leaves_alone(s: Stmt) -> bool {
    evaluated(s) matches Some(e) ==> !disturbs(e)
}

/// A lookup of the same map and key, the same locals and not only ones of the
/// same name, is reported exactly when nothing that could touch either stands
/// between it and the insert.
pub proof fn lemma_reported_iff_undisturbed(
    defs: Definitions,
    stmts: Seq<Stmt>,
    map: IdentityView,
    key: IdentityView,
    j: int,
)
    requires
        0 <= j,
    ensures
        refetch(defs, stmts, map, key, j) is Some <==> exists|m: int|
            j <= m < stmts.len() && refetches_at(defs, #[trigger] stmts[m], map, key) && forall|
                i: int,
            |
                j <= i < m ==> leaves_alone(#[trigger] stmts[i]),
    decreases stmts.len() - j,
{
    if j < stmts.len() {
        lemma_reported_iff_undisturbed(defs, stmts, map, key, j + 1);
        if refetches_at(defs, stmts[j], map, key) {
            assert(forall|i: int| j <= i < j ==> leaves_alone(#[trigger] stmts[i]));
        } else if refetch(defs, stmts, map, key, j) is Some {
            assert(leaves_alone(stmts[j]));
            let m = choose|m: int|
                j + 1 <= m < stmts.len() && refetches_at(defs, #[trigger] stmts[m], map, key)
                    && forall|i: int| j + 1 <= i < m ==> leaves_alone(#[trigger] stmts[i]);
            assert(forall|i: int| j <= i < m ==> leaves_alone(#[trigger] stmts[i]));
        } else if exists|m: int|
            j <= m < stmts.len() && refetches_at(defs, #[trigger] stmts[m], map, key) && forall|
                i: int,
            |
                j <= i < m ==> leaves_alone(#[trigger] stmts[i]) {
            let m = choose|m: int|
                j <= m < stmts.len() && refetches_at(defs, #[trigger] stmts[m], map, key) && forall|
                    i: int,
                |
                    j <= i < m ==> leaves_alone(#[trigger] stmts[i]);
            assert(m > j);
            assert(leaves_alone(stmts[j]));
            assert(forall|i: int| j + 1 <= i < m ==> leaves_alone(#[trigger] stmts[i]));
        }
    }
}

/// A local is itself and nothing else, a field is of whatever it is read off,
/// a borrow is what it borrows, and a literal and its negation differ; what is
/// computed has no identity.
pub proof fn lemma_identity_is_the_binding(
    defs: Definitions,
    e: Expr,
    inner: Expr,
    id: HirId,
    name: crate::ids::Symbol,
)
    ensures
        (e.kind matches ExprKind::Path(p) && p.res == Res::Local(id) && !p.type_relative
            && !p.has_self && p.segments@.len() == 1) ==> (identity(defs, e) matches Some(x)
            && x.root == Some(id)),
        (e.kind matches ExprKind::Path(p) && !(p.res is Local)) ==> identity(defs, e) is None,
        (e.kind matches ExprKind::AddrOf(_, _, x) && *x == inner) || e.kind == ExprKind::Unary(
            UnOp::Deref,
            Box::new(inner),
        ) ==> identity(defs, e) == identity(defs, inner),
        e.kind == ExprKind::Field(Box::new(inner), name) ==> (identity(
            defs,
            inner,
        ) matches Some(b) ==> (identity(defs, e) matches Some(x) && x.root == b.root && x.text
            == b.text + "."@ + defs.text(name))),
        e.kind == ExprKind::Field(Box::new(inner), name) && identity(defs, inner) is None
            ==> identity(defs, e) is None,
        e.kind is Call || e.kind is MethodCall || e.kind is Binary || e.kind is Index ==> identity(
            defs,
            e,
        ) is None,
        (e.kind matches ExprKind::Lit(_) && inner.kind is Unary) ==> (inner.kind->Unary_0
            == UnOp::Neg && *inner.kind->Unary_1 == e ==> identity(defs, e) is Some && identity(
            defs,
            inner,
        ) is Some && identity(defs, inner) != identity(defs, e)),
{
    reveal_strlit("lit:");
    reveal_strlit("neg:");
    match e.kind {
        ExprKind::Lit(l) => {
            assert(("lit:"@ + l.text@)[0] == 'l');
            assert(("neg:"@ + l.text@)[0] == 'n');
        },
        _ => {},
    }
}

/// `map.insert(key, value)` on a `HashMap` or a `BTreeMap` is an insertion;
/// other methods and other receivers are not.
pub proof fn lemma_insert_on_a_map(
    defs: Definitions,
    e: Expr,
    name: crate::ids::Symbol,
    recv: Expr,
    args: Vec<Expr>,
    map: IdentityView,
    key: IdentityView,
)
    requires
        e.kind == ExprKind::MethodCall(name, Box::new(recv), args),
    ensures
        defs.text(name) == "insert"@ && args@.len() == 2 && (adjusted_adt(recv) matches Some(d) && (
        defs.known(d) == Known::HashMapType || defs.known(d) == Known::BTreeMapType)) && identity(
            defs,
            recv,
        ) == Some(map) && identity(defs, args@[0]) == Some(key) ==> insertion(defs, e) == Some(
            (map, key),
        ),
        defs.text(name) != "insert"@ || args@.len() != 2 || !(adjusted_adt(recv) matches Some(d)
            && (defs.known(d) == Known::HashMapType || defs.known(d) == Known::BTreeMapType))
            ==> insertion(defs, e) is None,
{
}

/// `map.get(key)` or `map.get_mut(key)`, unwrapped or expected, is a lookup
/// that insists on the key.
pub proof fn lemma_unwrapped_get_is_a_lookup(
    defs: Definitions,
    e: Expr,
    outer: crate::ids::Symbol,
    inner: Expr,
    rest: Vec<Expr>,
    name: crate::ids::Symbol,
    recv: Expr,
    args: Vec<Expr>,
    map: IdentityView,
    key: IdentityView,
)
    requires
        e.kind == ExprKind::MethodCall(outer, Box::new(inner), rest),
        inner.kind == ExprKind::MethodCall(name, Box::new(recv), args),
    ensures
        (defs.text(outer) == "unwrap"@ || defs.text(outer) == "expect"@) && (defs.text(name)
            == "get"@ || defs.text(name) == "get_mut"@) && args@.len() == 1 && (adjusted_adt(
            recv,
        ) matches Some(d) && (defs.known(d) == Known::HashMapType || defs.known(d)
            == Known::BTreeMapType)) && identity(defs, recv) == Some(map) && identity(
            defs,
            args@[0],
        ) == Some(key) ==> (lookup(defs, e) matches Some(p) && p.0 == map && p.1 == key),
        defs.text(outer) != "unwrap"@ && defs.text(outer) != "expect"@ ==> lookup(defs, e) is None,
        defs.text(name) != "get"@ && defs.text(name) != "get_mut"@ ==> lookup(defs, e) is None,
{
}

/// A call or an assignment anywhere in an expression, closures too, may touch
/// the map; an expression with neither does not.
pub proof fn lemma_calls_and_writes_disturb(path: Seq<Expr>)
    requires
        crate::hir::nested(path),
        crate::hir::enters(path, true),
    ensures
        path.last().kind is MethodCall || path.last().kind is Call || path.last().kind is Assign
            || path.last().kind is AssignOp ==> disturbs(path[0]),
{
    crate::hir::lemma_walk_misses_nothing(path, true);
    let all = walk(path[0], true);
    if touches(path.last()) {
        assert(all.contains(path.last()));
        let i = choose|i: int| 0 <= i < all.len() && all[i] == path.last();
        assert(touches(all[i]));
    }
}

/// The statement inserts the key into the map.
pub open spec fn inserts_at(
    defs: Definitions,
    s: Stmt,
    map: IdentityView,
    key: IdentityView,
) -> bool {
    (s.kind matches StmtKind::Expr(e) && insertion(defs, e) == Some((map, key))) || (
    s.kind matches StmtKind::Semi(e) && insertion(defs, e) == Some((map, key)))
}

/// Between the two statements nothing could touch the map or the key.
pub open spec fn undisturbed(stmts: Seq<Stmt>, i: int, j: int) -> bool {
    forall|m: int| i < m < j ==> leaves_alone(#[trigger] stmts[m])
}

proof fn lemma_first_refetch(
    defs: Definitions,
    stmts: Seq<Stmt>,
    from: int,
    i: int,
    j: int,
    map: IdentityView,
    key: IdentityView,
)
    requires
        0 <= from <= i < j < stmts.len(),
        inserts_at(defs, stmts[i], map, key),
        refetches_at(defs, stmts[j], map, key),
        undisturbed(stmts, i, j),
    ensures
        first_refetch(defs, stmts, from) is Some,
    decreases i - from,
{
    if from == i {
        assert(forall|m: int| i + 1 <= m < j ==> leaves_alone(#[trigger] stmts[m]));
        lemma_reported_iff_undisturbed(defs, stmts, map, key, i + 1);
    } else {
        lemma_first_refetch(defs, stmts, from + 1, i, j, map, key);
    }
}

/// An insert, and later in the block an unwrapped lookup of the same key in
/// the same map with nothing between that could touch either, is reported.
pub proof fn lemma_needless_lookup_is_reported(
    defs: Definitions,
    b: Block,
    i: int,
    j: int,
    map: IdentityView,
    key: IdentityView,
)
    requires
        0 <= i < j < b.stmts@.len(),
        inserts_at(defs, b.stmts@[i], map, key),
        refetches_at(defs, b.stmts@[j], map, key),
        undisturbed(b.stmts@, i, j),
    ensures
        refetches(defs, b).len() == 1,
        refetches(defs, b)[0].lint == Lint::InsertThenUnwrap,
{
    lemma_first_refetch(defs, b.stmts@, 0, i, j, map, key);
    lemma_refetch_lint(defs, b.stmts@, 0);
}

proof fn lemma_refetch_is(
    defs: Definitions,
    stmts: Seq<Stmt>,
    map: IdentityView,
    key: IdentityView,
    j: int,
)
    requires
        0 <= j,
    ensures
        refetch(defs, stmts, map, key, j) matches Some(f) ==> f.lint == Lint::InsertThenUnwrap
            && exists|m: int|
            j <= m < stmts.len() && refetches_at(defs, #[trigger] stmts[m], map, key) && f.at
                == evaluated(stmts[m])->Some_0.span && undisturbed(stmts, j - 1, m),
    decreases stmts.len() - j,
{
    if j < stmts.len() && refetch(defs, stmts, map, key, j) is Some {
        if refetches_at(defs, stmts[j], map, key) {
            assert(undisturbed(stmts, j - 1, j));
        } else {
            lemma_refetch_is(defs, stmts, map, key, j + 1);
            let f = refetch(defs, stmts, map, key, j)->Some_0;
            let m = choose|m: int|
                j + 1 <= m < stmts.len() && refetches_at(defs, #[trigger] stmts[m], map, key)
                    && f.at == evaluated(stmts[m])->Some_0.span && undisturbed(stmts, j, m);
            assert(leaves_alone(stmts[j]));
            assert(undisturbed(stmts, j - 1, m));
        }
    }
}

/// Two statements of a block are an insert and a needless lookup, which the
/// finding is at.
pub open spec fn needless_lookup(
    defs: Definitions,
    stmts: Seq<Stmt>,
    i: int,
    j: int,
    map: IdentityView,
    key: IdentityView,
    f: FindingView,
) -> bool {
    0 <= i < j < stmts.len() && inserts_at(defs, stmts[i], map, key) && refetches_at(
        defs,
        stmts[j],
        map,
        key,
    ) && undisturbed(stmts, i, j) && f.at == evaluated(stmts[j])->Some_0.span
}

proof fn lemma_refetch_lint(defs: Definitions, stmts: Seq<Stmt>, from: int)
    requires
        0 <= from,
    ensures
        first_refetch(defs, stmts, from) matches Some(f) ==> f.lint == Lint::InsertThenUnwrap
            && exists|i: int, j: int, map: IdentityView, key: IdentityView|
            from <= i && #[trigger] needless_lookup(defs, stmts, i, j, map, key, f),
    decreases stmts.len() - from,
{
    if from < stmts.len() {
        lemma_refetch_lint(defs, stmts, from + 1);
        match stmt_insert(defs, stmts[from]) {
            Some((map, key)) => {
                lemma_refetch_is(defs, stmts, map, key, from + 1);
                if refetch(defs, stmts, map, key, from + 1) is Some {
                    let f = refetch(defs, stmts, map, key, from + 1)->Some_0;
                    let m = choose|m: int|
                        from + 1 <= m < stmts.len() && refetches_at(
                            defs,
                            #[trigger] stmts[m],
                            map,
                            key,
                        ) && f.at == evaluated(stmts[m])->Some_0.span && undisturbed(
                            stmts,
                            from,
                            m,
                        );
                    assert(needless_lookup(defs, stmts, from, m, map, key, f));
                }
            },
            None => {},
        }
    }
}

/// Nothing else is: what is reported is such a lookup, at its place.
pub proof fn lemma_reported_lookup_is_needless(defs: Definitions, b: Block)
    requires
        refetches(defs, b).len() > 0,
    ensures
        exists|i: int, j: int, map: IdentityView, key: IdentityView| #[trigger]
            needless_lookup(defs, b.stmts@, i, j, map, key, refetches(defs, b)[0]),
{
    lemma_refetch_lint(defs, b.stmts@, 0);
    let f = first_refetch(defs, b.stmts@, 0)->Some_0;
    assert(refetches(defs, b)[0] == f);
    let (i, j, map, key) = choose|i: int, j: int, map: IdentityView, key: IdentityView|
        0 <= i && #[trigger] needless_lookup(defs, b.stmts@, i, j, map, key, f);
    assert(needless_lookup(defs, b.stmts@, i, j, map, key, refetches(defs, b)[0]));
}

} // verus!
