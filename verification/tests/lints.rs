use std::cell::{Cell, RefCell};

use mordant::asymmetric_guard::AsymmetricGuard;
use mordant::bool_beside_option::BoolBesideOption;
use mordant::config::{MordantConfig, ReachRule};
use mordant::defs::{
    AdtDef, AdtKind, CtorShape, DefKind, Definition, Definitions, FieldDef, FnSig, Input, Known,
    Repr, TraitImpl, VariantDef,
};
use mordant::dependent_field::DependentField;
use mordant::discarded_error;
use mordant::forbidden_reach::{matches_pattern, ForbiddenReach};
use mordant::guard_flag::GuardFlag;
use mordant::hir::{
    Arm, BinOp, Block, Expr, ExprKind, FieldInit, FieldPat, LetStmt, Lit, LitKind, MatchSource,
    Origin, Parent, Pat, PatKind, QPath, Res, Stmt, StmtKind, StructTail, UnOp,
};
use mordant::hir_clone::{body_pairing, expr_pairing, fn_sigs_equal, free_locals};
use mordant::ids::{DefId, HirId, Span, Symbol};
use mordant::insert_then_unwrap;
use mordant::misbound_arg;
use mordant::narrowed_return::NarrowedReturn;
use mordant::nonidentity_key::NonidentityKey;
use mordant::overwide_parameter::OverwideParameter;
use mordant::parallel_bools::ParallelBools;
use mordant::parallel_vecs::ParallelVecs;
use mordant::report::{Finding, Lint};
use mordant::sentinel_int::SentinelInt;
use mordant::stored_projection::StoredProjection;
use mordant::stringified_error;
use mordant::stringly_error::{Declared, StringlyError};
use mordant::ty::Ty;
use mordant::unit_mismatch;
use mordant::unread_error_variant::UnreadErrorVariant;
use mordant::unread_none::UnreadNone;
use mordant::wildcard_local_enum::WildcardLocalEnum;
use mordant::{bypassed_conversion, crossed_index};

// ---------------------------------------------------------------- a small crate to lint

struct World {
    defs: Vec<Definition>,
    names: RefCell<Vec<String>>,
    next: Cell<u64>,
}

fn usize_ty() -> Ty {
    Ty::Int { bits: 64, signed: false, pointer_sized: true }
}

fn u32_ty() -> Ty {
    Ty::Int { bits: 32, signed: false, pointer_sized: false }
}

fn adt(d: DefId) -> Ty {
    Ty::Adt(d, vec![])
}

fn unit() -> Ty {
    Ty::Tuple(vec![])
}

fn origin() -> Origin {
    Origin {
        from_expansion: false,
        in_derive: false,
        in_external_macro: false,
        for_loop: false,
        macros: vec![],
        from_format: false,
    }
}

fn input(ty: Ty, text: &str) -> Input {
    Input { ty, text: text.to_string() }
}

fn sig(inputs: Vec<Input>, output: Ty) -> FnSig {
    let idents = inputs.iter().map(|_| None).collect();
    FnSig { idents, inputs, output, is_unsafe: false, is_method: false }
}

impl World {
    fn new() -> World {
        World { defs: vec![], names: RefCell::new(vec![String::new()]), next: Cell::new(1) }
    }

    fn s(&self, text: &str) -> Symbol {
        let mut names = self.names.borrow_mut();
        match names.iter().position(|n| n == text) {
            Some(i) => Symbol(i as u32),
            None => {
                names.push(text.to_string());
                Symbol(names.len() as u32 - 1)
            }
        }
    }

    fn id(&self) -> HirId {
        self.next.set(self.next.get() + 1);
        HirId(self.next.get())
    }

    fn span(&self) -> Span {
        let n = self.id().0 as u32;
        Span { lo: n, hi: n + 1 }
    }

    fn done(self) -> Definitions {
        Definitions { defs: self.defs, names: self.names.into_inner() }
    }

    // definitions

    fn def(&mut self, name: &str, kind: DefKind) -> DefId {
        let d = Definition {
            name: self.s(name),
            path: name.to_string(),
            krate: self.s("mine"),
            is_local: true,
            is_exported: false,
            known: Known::Unlisted,
            kind,
            parent: None,
            span: self.span(),
            adt: None,
            sig: None,
            self_ty: None,
        };
        self.defs.push(d);
        DefId(self.defs.len() as u32 - 1)
    }

    fn at(&mut self, d: DefId) -> &mut Definition {
        &mut self.defs[d.0 as usize]
    }

    fn child(&mut self, parent: DefId, name: &str, kind: DefKind) -> DefId {
        let d = self.def(name, kind);
        self.at(d).parent = Some(parent);
        d
    }

    fn known(&mut self, name: &str, known: Known) -> DefId {
        let d = self.def(name, DefKind::Struct);
        self.at(d).known = known;
        self.at(d).is_local = false;
        d
    }

    fn adt_def(&self, kind: AdtKind, variants: Vec<VariantDef>) -> AdtDef {
        AdtDef {
            kind,
            variants,
            non_exhaustive: false,
            repr: Repr { c: false, packed: false, transparent: false, simd: false, int: false },
            conversions: vec![],
            indexes: false,
            inherent: vec![],
        }
    }

    fn strukt(&mut self, name: &str, fields: Vec<(&str, Ty)>) -> DefId {
        let d = self.def(name, DefKind::Struct);
        let mut list = vec![];
        for (n, ty) in fields {
            let did = self.child(d, n, DefKind::Field);
            list.push(FieldDef {
                did,
                name: self.s(n),
                ty,
                span: self.span(),
                visible_in: None,
            });
        }
        let v = VariantDef { did: d, name: self.s(name), shape: CtorShape::Braces, fields: list };
        let a = self.adt_def(AdtKind::Struct, vec![v]);
        self.at(d).adt = Some(a);
        d
    }

    fn enm(&mut self, name: &str, variants: Vec<(&str, CtorShape)>) -> (DefId, Vec<DefId>) {
        let d = self.def(name, DefKind::Enum);
        let mut ids = vec![];
        let mut list = vec![];
        for (n, shape) in variants {
            let did = self.child(d, n, DefKind::Variant);
            self.at(did).path = format!("{name}::{n}");
            ids.push(did);
            list.push(VariantDef { did, name: self.s(n), shape, fields: vec![] });
        }
        let a = self.adt_def(AdtKind::Enum, list);
        self.at(d).adt = Some(a);
        (d, ids)
    }

    fn option(&mut self) -> (DefId, DefId, DefId) {
        let o = self.known("Option", Known::OptionType);
        let some = self.child(o, "Some", DefKind::Variant);
        self.at(some).known = Known::SomeVariant;
        self.at(some).is_local = false;
        let none = self.child(o, "None", DefKind::Variant);
        self.at(none).known = Known::NoneVariant;
        self.at(none).is_local = false;
        (o, some, none)
    }

    fn imp(&mut self, ty: DefId, of_trait: bool) -> DefId {
        let d = self.def("", DefKind::Impl(of_trait));
        self.at(d).self_ty = Some(adt(ty));
        d
    }

    fn method(&mut self, imp: DefId, name: &str, s: FnSig) -> DefId {
        let d = self.child(imp, name, DefKind::AssocFn);
        self.at(d).sig = Some(s);
        d
    }

    fn function(&mut self, name: &str, s: FnSig) -> DefId {
        let d = self.def(name, DefKind::Function);
        self.at(d).sig = Some(s);
        d
    }

    // expressions

    fn e(&self, kind: ExprKind, ty: Ty, adjusted: Ty) -> Expr {
        Expr {
            id: self.id(),
            span: self.span(),
            ty,
            adjusted,
            arg_texts: vec![],
            ty_text: String::new(),
            pointee_texts: vec![],
            pointee_frozen: true,
            kind,
            origin: origin(),
            method: None,
            value_class: None,
            structure: self.id().0 as u32,
            shape: 0,
            default_equivalent: false,
            auto_mut_borrow: false,
            snippet: None,
        }
    }

    fn unit(&self, kind: ExprKind) -> Expr {
        self.e(kind, unit(), unit())
    }

    fn qpath(&self, names: &[&str], res: Res) -> QPath {
        QPath {
            type_relative: false,
            has_self: false,
            segments: names.iter().map(|n| self.s(n)).collect(),
            res,
            span: self.span(),
            text: Some(names.join("::")),
        }
    }

    fn local(&self, name: &str, id: u64, ty: Ty, adjusted: Ty) -> Expr {
        let p = self.qpath(&[name], Res::Local(HirId(id)));
        self.e(ExprKind::Path(p), ty, adjusted)
    }

    fn num(&self, n: u128) -> Expr {
        let l = Lit { kind: LitKind::Int(n), text: format!("Int({n})") };
        let mut e = self.e(ExprKind::Lit(l), usize_ty(), usize_ty());
        e.snippet = Some(format!("{n}"));
        e.default_equivalent = n == 0;
        e
    }

    fn boolean(&self, b: bool) -> Expr {
        let l = Lit { kind: LitKind::Bool(b), text: format!("Bool({b})") };
        self.e(ExprKind::Lit(l), Ty::Bool, Ty::Bool)
    }

    fn this(&self, d: DefId) -> Expr {
        self.local("self", 1, Ty::Ref(Box::new(adt(d)), true), adt(d))
    }

    fn field(&self, base: Expr, name: &str, ty: Ty, adjusted: Ty) -> Expr {
        let name = self.s(name);
        self.e(ExprKind::Field(Box::new(base), name), ty, adjusted)
    }

    fn mcall(&self, name: &str, recv: Expr, args: Vec<Expr>, method: Option<DefId>) -> Expr {
        let name = self.s(name);
        let mut e = self.unit(ExprKind::MethodCall(name, Box::new(recv), args));
        e.method = method;
        e
    }

    fn path_to(&self, name: &str, kind: DefKind, d: DefId) -> Expr {
        let p = self.qpath(&[name], Res::Def(kind, d));
        self.unit(ExprKind::Path(p))
    }

    fn call(&self, name: &str, f: DefId, args: Vec<Expr>) -> Expr {
        let callee = self.path_to(name, DefKind::Function, f);
        self.unit(ExprKind::Call(Box::new(callee), args))
    }

    fn some(&self, d: DefId, inner: Expr) -> Expr {
        let callee = self.path_to("Some", DefKind::Variant, d);
        self.unit(ExprKind::Call(Box::new(callee), vec![inner]))
    }

    fn none(&self, d: DefId) -> Expr {
        self.path_to("None", DefKind::Variant, d)
    }

    fn assign(&self, place: Expr, value: Expr) -> Expr {
        self.unit(ExprKind::Assign(Box::new(place), Box::new(value)))
    }

    fn not(&self, e: Expr) -> Expr {
        self.e(ExprKind::Unary(UnOp::Not, Box::new(e)), Ty::Bool, Ty::Bool)
    }

    fn borrow(&self, e: Expr) -> Expr {
        self.unit(ExprKind::AddrOf(false, false, Box::new(e)))
    }

    fn block(&self, stmts: Vec<Stmt>, tail: Option<Expr>) -> Block {
        Block {
            id: self.id(),
            span: self.span(),
            stmts,
            expr: tail.map(Box::new),
            user_unsafe: false,
            from_expansion: false,
            labelled: false,
        }
    }

    fn block_expr(&self, stmts: Vec<Stmt>, tail: Option<Expr>) -> Expr {
        let b = self.block(stmts, tail);
        self.unit(ExprKind::Block(b))
    }

    fn semi(&self, e: Expr) -> Stmt {
        Stmt { id: self.id(), kind: StmtKind::Semi(e) }
    }

    fn stmt(&self, e: Expr) -> Stmt {
        Stmt { id: self.id(), kind: StmtKind::Expr(e) }
    }

    fn let_(&self, name: &str, init: Expr) -> Stmt {
        let l = LetStmt {
            id: self.id(),
            pat: self.bind(name, self.id().0, usize_ty()),
            init: Some(Box::new(init)),
            els: None,
        };
        Stmt { id: self.id(), kind: StmtKind::Let(l) }
    }

    fn ret(&self) -> Expr {
        self.e(ExprKind::Ret(None), Ty::Never, Ty::Never)
    }

    fn if_(&self, cond: Expr, yes: Expr) -> Expr {
        self.unit(ExprKind::If(Box::new(cond), Box::new(yes), None))
    }

    fn bail_if(&self, cond: Expr) -> Stmt {
        let body = self.block_expr(vec![self.semi(self.ret())], None);
        self.stmt(self.if_(cond, body))
    }

    fn literal(&self, d: DefId, name: &str, fields: Vec<(&str, Expr)>) -> Expr {
        let list = fields
            .into_iter()
            .map(|(n, value)| FieldInit { name: self.s(n), value })
            .collect();
        let p = self.qpath(&[name], Res::Def(DefKind::Struct, d));
        self.e(ExprKind::Struct(p, list, StructTail::Nothing), adt(d), adt(d))
    }

    fn binary(&self, op: BinOp, l: Expr, r: Expr) -> Expr {
        self.unit(ExprKind::Binary(op, Box::new(l), Box::new(r)))
    }

    fn index(&self, base: Expr, i: Expr) -> Expr {
        self.unit(ExprKind::Index(Box::new(base), Box::new(i)))
    }

    fn panic(&self) -> Expr {
        let mut e = self.e(ExprKind::Other(vec![]), Ty::Never, Ty::Never);
        e.origin.macros = vec![self.s("panic")];
        e
    }

    // patterns

    fn pat(&self, kind: PatKind, ty: Ty) -> Pat {
        Pat { id: self.id(), span: self.span(), ty, kind, in_derive: false }
    }

    fn bind(&self, name: &str, id: u64, ty: Ty) -> Pat {
        let name = self.s(name);
        self.pat(PatKind::Binding(HirId(id), name, None), ty)
    }

    fn variant_pat(&self, names: &[&str], v: DefId, ty: Ty) -> Pat {
        let p = self.qpath(names, Res::Def(DefKind::Variant, v));
        self.pat(PatKind::Path(p), ty)
    }

    fn arm(&self, pat: Pat, body: Expr) -> Arm {
        Arm { id: self.id(), span: self.span(), pat, guard: None, body }
    }

    fn match_(&self, scrutinee: Expr, arms: Vec<Arm>) -> Expr {
        self.unit(ExprKind::Match(Box::new(scrutinee), arms, MatchSource::Normal))
    }
}

fn one(found: Vec<Finding>) -> Finding {
    assert_eq!(found.len(), 1, "{found:?}");
    found.into_iter().next().unwrap()
}

// ---------------------------------------------------------------- guard_blind_to_action

#[test]
fn a_guard_blind_to_part_of_its_action_is_reported() {
    let mut w = World::new();
    let sched = w.strukt("Sched", vec![("queue", u32_ty()), ("conns", u32_ty())]);
    let imp = w.imp(sched, false);
    let by_ref = |m: bool| sig(vec![input(Ty::Ref(Box::new(adt(sched)), m), "&Sched")], unit());
    let can_donate = w.method(imp, "can_donate", by_ref(false));
    let can_flush = w.method(imp, "can_flush", by_ref(false));
    let detach = w.method(imp, "detach", by_ref(true));
    let count = w.method(imp, "count", by_ref(false));
    let read = |w: &World, f: &str| w.field(w.this(sched), f, u32_ty(), u32_ty());
    let donates = read(&w, "queue");
    let flushes = w.binary(BinOp::And, read(&w, "queue"), read(&w, "conns"));
    let detaches = w.block_expr(
        vec![
            w.semi(w.mcall("clear", read(&w, "queue"), vec![], None)),
            w.semi(w.assign(read(&w, "conns"), w.num(0))),
        ],
        None,
    );
    let counts = w.binary(BinOp::Plus, read(&w, "queue"), read(&w, "conns"));
    let ask = |w: &World, name: &str, m: DefId| w.mcall(name, w.this(sched), vec![], Some(m));
    let blind = w.block(
        vec![
            w.bail_if(w.not(ask(&w, "can_donate", can_donate))),
            w.semi(ask(&w, "detach", detach)),
            w.semi(ask(&w, "count", count)),
        ],
        None,
    );
    let sighted = w.block(
        vec![w.stmt(w.if_(
            ask(&w, "can_flush", can_flush),
            w.block_expr(vec![w.semi(ask(&w, "detach", detach))], None),
        ))],
        None,
    );
    let d = w.done();
    let mut lint = AsymmetricGuard::new();
    lint.check_fn(&d, can_donate, false, &donates);
    lint.check_fn(&d, can_flush, false, &flushes);
    lint.check_fn(&d, detach, false, &detaches);
    lint.check_fn(&d, count, false, &counts);
    lint.check_block(&d, &blind);
    lint.check_block(&d, &sighted);
    let f = one(lint.check_crate_post(&d));
    assert_eq!(f.lint, Lint::AsymmetricGuard);
    assert_eq!(
        f.message,
        "`detach` is gated by `can_donate`, but touches `conns` which the guard never reads"
    );
}

// ---------------------------------------------------------------- bool_beside_option

fn flag_world(unpaired: bool) -> (Definitions, Vec<Finding>) {
    let mut w = World::new();
    let (o, some, none) = w.option();
    let conn = w.strukt(
        "Conn",
        vec![("peer", Ty::Adt(o, vec![u32_ty()])), ("up", Ty::Bool)],
    );
    let fresh = w.literal(
        conn,
        "Conn",
        vec![("peer", w.none(none)), ("up", w.boolean(false))],
    );
    let peer = |w: &World| w.field(w.this(conn), "peer", adt(o), adt(o));
    let up = |w: &World| w.field(w.this(conn), "up", Ty::Bool, Ty::Bool);
    let open = w.block(vec![], None);
    let set_peer = w.assign(peer(&w), w.some(some, w.num(1)));
    let set_up = w.assign(up(&w), w.boolean(true));
    let elsewhere = w.block(vec![], None);
    let lone = w.assign(up(&w), w.boolean(false));
    let d = w.done();
    let mut lint = BoolBesideOption::new();
    lint.check_expr(&d, &fresh, &vec![]);
    lint.check_expr(&d, &set_peer, &vec![Parent::Block(&open)]);
    lint.check_expr(&d, &set_up, &vec![Parent::Block(&open)]);
    if unpaired {
        lint.check_expr(&d, &lone, &vec![Parent::Block(&elsewhere)]);
    }
    let found = lint.check_crate_post(&d);
    (d, found)
}

#[test]
fn a_flag_that_repeats_is_some_is_reported() {
    let (_, found) = flag_world(false);
    assert_eq!(
        one(found).message,
        "`up` is only ever written beside `peer` of `Conn`, `true` with `Some(..)` and `false` with `None` (2 sites): it stores `peer.is_some()` a second time"
    );
}

#[test]
fn one_lone_write_keeps_the_flag_its_own() {
    let (_, found) = flag_world(true);
    assert!(found.is_empty());
}

// ---------------------------------------------------------------- cast_bypasses_from

fn transmute_world(own: bool) -> Vec<Finding> {
    let mut w = World::new();
    let target = w.strukt("Port", vec![("n", u32_ty())]);
    let from = w.imp(target, true);
    let convert = w.method(from, "from", sig(vec![input(u32_ty(), "u32")], adt(target)));
    w.at(target).adt.as_mut().unwrap().conversions.push(TraitImpl {
        did: from,
        of: Known::FromTrait,
        target: adt(target),
        arg: input(u32_ty(), "u32"),
        items: vec![convert],
    });
    let transmute = w.known("transmute", Known::Transmute);
    let outside = w.function("outside", sig(vec![], unit()));
    let inherent = w.imp(target, false);
    let inside = w.method(inherent, "inside", sig(vec![], unit()));
    let mut arg = w.local("raw", 7, u32_ty(), u32_ty());
    arg.ty_text = "u32".to_string();
    let mut e = w.call("transmute", transmute, vec![arg]);
    e.ty = adt(target);
    e.ty_text = "Port".to_string();
    let d = w.done();
    bypassed_conversion::check_expr(&d, if own { inside } else { outside }, &e)
}

#[test]
fn a_transmute_around_a_conversion_is_reported() {
    let f = one(transmute_world(false));
    assert_eq!(f.lint, Lint::BypassedConversion);
    assert!(f.message.contains("is reinterpreted as `Port` by `mem::transmute` here"), "{f:?}");
}

#[test]
fn a_types_own_code_may_transmute() {
    assert!(transmute_world(true).is_empty());
}

// ---------------------------------------------------------------- index_of_other_kind

fn index_world(swapped: bool) -> Vec<Finding> {
    let w = World::new();
    let at = |w: &World, table: &str, t: u64, i: &str, k: u64| {
        let base = w.local(table, t, Ty::Other(0, vec![]), Ty::Other(0, vec![]));
        w.index(base, w.local(i, k, usize_ty(), usize_ty()))
    };
    let last = if swapped {
        at(&w, "parts", 10, "source_index", 21)
    } else {
        at(&w, "parts", 10, "part_index", 20)
    };
    let body = w.block_expr(
        vec![
            w.semi(at(&w, "parts", 10, "part_index", 20)),
            w.semi(at(&w, "parts", 10, "part_index", 20)),
            w.semi(at(&w, "sources", 11, "source_index", 21)),
            w.semi(at(&w, "sources", 11, "source_index", 21)),
            w.semi(last),
        ],
        None,
    );
    let d = w.done();
    crossed_index::check_body(&d, &body)
}

#[test]
fn an_index_of_the_other_table_is_reported() {
    let f = one(index_world(true));
    assert_eq!(f.lint, Lint::CrossedIndex);
    assert!(
        f.message.starts_with(
            "`parts` is indexed by `source_index` here but by `part_index` elsewhere in this function (2 sites), while `source_index` is what indexes `sources`"
        ),
        "{f:?}"
    );
}

#[test]
fn indexes_that_keep_to_their_table_are_fine() {
    assert!(index_world(false).is_empty());
}

#[test]
fn index_names_claim_kinds() {
    assert_eq!(crossed_index::claimed_kind("source_index").as_deref(), Some("source"));
    assert_eq!(crossed_index::claimed_kind("part_id").as_deref(), Some("part"));
    assert!(crossed_index::claimed_kind("index").is_none());
    assert!(crossed_index::same_kind("parts", "part"));
    assert!(!crossed_index::same_kind("part", "source"));
}

#[test]
fn plurals_are_of_the_kind_of_their_singulars() {
    let pairs = [
        ("spies", "spy"),
        ("flies", "fly"),
        ("ties", "tie"),
        ("movies", "movie"),
        ("dependencies", "unresolved_dep"),
    ];
    for (many, single) in pairs {
        assert!(crossed_index::same_kind(many, single), "{many} {single}");
        assert!(crossed_index::same_kind(single, many), "{single} {many}");
    }
    assert!(!crossed_index::same_kind("flies", "tie"));
    let entries: Vec<char> = "entries".chars().collect();
    let entry: Vec<char> = "entry".chars().collect();
    assert_eq!(crossed_index::singular(entries), entry);
}

// ---------------------------------------------------------------- field_valid_only_when

fn dependent_world(bare_read: bool) -> Vec<Finding> {
    let mut w = World::new();
    let cmd = w.strukt("Cmd", vec![("on", Ty::Bool), ("data", u32_ty())]);
    let off = w.literal(cmd, "Cmd", vec![("on", w.boolean(false)), ("data", w.num(0))]);
    let on = w.literal(
        cmd,
        "Cmd",
        vec![("on", w.boolean(true)), ("data", w.local("d", 5, usize_ty(), usize_ty()))],
    );
    let c = |w: &World| {
        let mut e = w.local("c", 6, adt(cmd), adt(cmd));
        e.value_class = Some(3);
        e
    };
    let cond = w.field(c(&w), "on", Ty::Bool, Ty::Bool);
    let read = w.field(c(&w), "data", usize_ty(), usize_ty());
    let guarded = w.if_(cond, read);
    let bare = w.field(c(&w), "data", usize_ty(), usize_ty());
    let d = w.done();
    let mut lint = DependentField::new();
    lint.check_expr(&d, &off, &vec![]);
    lint.check_expr(&d, &on, &vec![]);
    if let ExprKind::If(cond, then, _) = &guarded.kind {
        lint.check_expr(&d, cond, &vec![Parent::Expr(&guarded)]);
        lint.check_expr(&d, then, &vec![Parent::Expr(&guarded)]);
    }
    if bare_read {
        lint.check_expr(&d, &bare, &vec![]);
    }
    lint.check_crate_post(&d)
}

#[test]
fn a_field_read_only_under_its_flag_is_reported() {
    let f = one(dependent_world(false));
    assert_eq!(
        f.message,
        "`data` is only read where `on` has been tested (1 read), and every `Cmd` made with another `on` fills it with a placeholder (1 site)"
    );
}

#[test]
fn one_bare_read_silences_the_field() {
    assert!(dependent_world(true).is_empty());
}

// ---------------------------------------------------------------- discarded_error

#[test]
fn ok_in_statement_position_is_reported() {
    let mut w = World::new();
    let result = w.known("Result", Known::ResultType);
    let other = w.strukt("Lock", vec![]);
    let dropped = w.semi(w.mcall("ok", w.local("r", 4, adt(result), adt(result)), vec![], None));
    let foreign = w.semi(w.mcall("ok", w.local("r", 4, adt(other), adt(other)), vec![], None));
    let bound = w.let_("_", w.mcall("ok", w.local("r", 4, adt(result), adt(result)), vec![], None));
    let d = w.done();
    let f = one(discarded_error::check_stmt(&d, &dropped));
    assert_eq!(f.message, "`.ok()` in statement position discards the error unobserved");
    assert!(discarded_error::check_stmt(&d, &foreign).is_empty());
    assert!(discarded_error::check_stmt(&d, &bound).is_empty());
}

// ---------------------------------------------------------------- forbidden_reach

#[test]
fn a_banned_definition_is_reached_through_calls() {
    let mut w = World::new();
    let hot = w.function("hot_path", sig(vec![], unit()));
    let helper = w.function("helper", sig(vec![], unit()));
    let push = w.known("push", Known::Unlisted);
    w.at(push).path = "std::vec::Vec::<T, A>::push".to_string();
    w.at(push).kind = DefKind::AssocFn;
    let hot_body = w.block_expr(vec![w.semi(w.call("helper", helper, vec![]))], None);
    let helper_body = w.block_expr(
        vec![
            w.semi(w.mcall("push", w.num(0), vec![], Some(push))),
            w.semi(w.mcall("push", w.num(1), vec![], Some(push))),
        ],
        None,
    );
    let (hot_span, helper_span) = (w.span(), w.span());
    let d = w.done();
    let mut config = MordantConfig::default();
    config.forbidden_reach = vec![ReachRule {
        from: "hot_path".to_string(),
        never: vec!["std::vec::Vec::push".to_string()],
    }];
    let mut lint = ForbiddenReach::new(&config);
    lint.check_fn(&d, hot, false, &hot_body, hot_span);
    lint.check_fn(&d, helper, false, &helper_body, helper_span);
    let f = one(lint.check_crate_post(&d));
    assert_eq!(f.at, hot_span);
    assert!(
        f.message.contains("Path: hot_path -> helper -> std::vec::Vec::<T, A>::push"),
        "{f:?}"
    );
    let mut other = MordantConfig::default();
    other.forbidden_reach =
        vec![ReachRule { from: "helper".to_string(), never: vec!["pop".to_string()] }];
    let mut quiet = ForbiddenReach::new(&other);
    quiet.check_fn(&d, helper, false, &helper_body, helper_span);
    assert!(quiet.check_crate_post(&d).is_empty());
}

#[test]
fn patterns_match_whole_segments() {
    assert!(matches_pattern("a::b::c", "b::c"));
    assert!(matches_pattern("a::b::c", "a::b::c"));
    assert!(!matches_pattern("a::xb::c", "b::c"));
}

// ---------------------------------------------------------------- runtime_typestate

fn typestate_world(guards: usize, written: bool) -> Vec<Finding> {
    let mut w = World::new();
    let conn = w.strukt("Conn", vec![("ready", Ty::Bool), ("sent", u32_ty())]);
    let mut bodies = vec![];
    for _ in 0..guards {
        let ready = w.field(w.this(conn), "ready", Ty::Bool, Ty::Bool);
        bodies.push(w.block_expr(vec![w.bail_if(w.not(ready))], None));
    }
    let open = w.assign(w.field(w.this(conn), "ready", Ty::Bool, Ty::Bool), w.boolean(true));
    let d = w.done();
    let mut lint = GuardFlag::new();
    for b in &bodies {
        lint.check_fn(&d, false, b);
    }
    if written {
        lint.check_expr(&d, &open);
    }
    lint.check_crate_post(&d)
}

#[test]
fn a_flag_two_methods_bail_on_is_reported() {
    let f = one(typestate_world(2, true));
    assert_eq!(f.message, "`ready` is tested and bailed on at the start of 2 methods of `Conn`");
}

#[test]
fn one_guard_or_a_setting_is_no_typestate() {
    assert!(typestate_world(1, true).is_empty());
    assert!(typestate_world(2, false).is_empty());
}

// ---------------------------------------------------------------- insert_then_unwrap

fn insert_world(between: Option<bool>, key: u128) -> Vec<Finding> {
    let mut w = World::new();
    let map = w.known("HashMap", Known::HashMapType);
    let helper = w.function("helper", sig(vec![], unit()));
    let m = |w: &World| w.field(w.this(map), "m", adt(map), adt(map));
    let mut stmts = vec![w.semi(w.mcall("insert", m(&w), vec![w.num(1), w.num(2)], None))];
    match between {
        Some(true) => stmts.push(w.semi(w.call("helper", helper, vec![]))),
        Some(false) => {
            stmts.push(w.let_("o", w.binary(BinOp::Plus, w.num(1), w.num(2))));
        }
        None => {}
    }
    let mut k = w.borrow(w.num(key));
    k.snippet = Some(format!("&{key}"));
    let got = w.mcall("get", m(&w), vec![k], None);
    stmts.push(w.let_("v", w.mcall("unwrap", got, vec![], None)));
    let b = w.block(stmts, None);
    let d = w.done();
    insert_then_unwrap::check_block(&d, &b)
}

#[test]
fn a_lookup_an_insert_proves_is_reported() {
    let f = one(insert_world(None, 1));
    assert_eq!(
        f.message,
        "this unwrap re-fetches `m[1]`, which the insert above just proved present"
    );
    assert_eq!(insert_world(Some(false), 1).len(), 1);
}

#[test]
fn a_call_between_or_another_key_proves_nothing() {
    assert!(insert_world(Some(true), 1).is_empty());
    assert!(insert_world(None, 3).is_empty());
}

fn keyed_insert_world(inserted: u64, fetched: u64, negated: bool) -> Vec<Finding> {
    let mut w = World::new();
    let map = w.known("HashMap", Known::HashMapType);
    let m = |w: &World| w.field(w.this(map), "m", adt(map), adt(map));
    let key = |w: &World, id: u64| {
        let mut k = w.local("k", id, usize_ty(), usize_ty());
        k.snippet = Some("k".to_string());
        k
    };
    let put = w.mcall("insert", m(&w), vec![key(&w, inserted), w.num(2)], None);
    let mut k = key(&w, fetched);
    if negated {
        k = w.e(ExprKind::Unary(UnOp::Neg, Box::new(k)), usize_ty(), usize_ty());
    }
    let got = w.mcall("get", m(&w), vec![w.borrow(k)], None);
    let b = w.block(
        vec![w.semi(put), w.let_("v", w.mcall("unwrap", got, vec![], None))],
        None,
    );
    let d = w.done();
    insert_then_unwrap::check_block(&d, &b)
}

#[test]
fn a_key_is_the_same_only_as_the_same_local() {
    assert_eq!(keyed_insert_world(70, 70, false).len(), 1);
    assert!(keyed_insert_world(70, 71, false).is_empty());
    assert!(keyed_insert_world(70, 70, true).is_empty());
}

#[test]
fn a_literal_key_keeps_its_sign() {
    let world = |inserted: bool, fetched: bool| {
        let mut w = World::new();
        let map = w.known("HashMap", Known::HashMapType);
        let m = |w: &World| w.field(w.this(map), "m", adt(map), adt(map));
        let key = |w: &World, negative: bool| {
            if negative {
                w.e(ExprKind::Unary(UnOp::Neg, Box::new(w.num(1))), usize_ty(), usize_ty())
            } else {
                w.num(1)
            }
        };
        let put = w.mcall("insert", m(&w), vec![key(&w, inserted), w.num(2)], None);
        let got = w.mcall("get", m(&w), vec![w.borrow(key(&w, fetched))], None);
        let b = w.block(
            vec![w.semi(put), w.let_("v", w.mcall("unwrap", got, vec![], None))],
            None,
        );
        let d = w.done();
        insert_then_unwrap::check_block(&d, &b).len()
    };
    assert_eq!(world(true, true), 1);
    assert_eq!(world(false, false), 1);
    assert_eq!(world(true, false), 0);
    assert_eq!(world(false, true), 0);
}

// ---------------------------------------------------------------- arg_named_like_other_param

fn swap_world(first: &str, second: &str) -> Vec<Finding> {
    let mut w = World::new();
    let mut s = sig(vec![input(u32_ty(), "u32"), input(u32_ty(), "u32")], unit());
    s.idents = vec![Some(w.s("width")), Some(w.s("height"))];
    let resize = w.function("resize", s);
    let a = w.local(first, 4, u32_ty(), u32_ty());
    let b = w.local(second, 5, u32_ty(), u32_ty());
    let e = w.call("resize", resize, vec![a, b]);
    let d = w.done();
    misbound_arg::check_expr(&d, &e)
}

#[test]
fn transposed_arguments_are_reported() {
    let f = one(swap_world("height", "width"));
    assert_eq!(
        f.message,
        "arguments `height` and `width` are bound to `resize`'s parameters `width` and `height`; all are `u32`, so the transposition type-checks"
    );
    let g = one(swap_world("height", "other"));
    assert_eq!(
        g.message,
        "argument `height` is bound to `resize`'s parameter `width`, but `resize` also takes a parameter `height` of the same type `u32`"
    );
}

#[test]
fn arguments_in_their_places_are_fine() {
    assert!(swap_world("width", "height").is_empty());
    assert!(swap_world("a", "b").is_empty());
}

fn typed_swap_world(first: Ty, second: Ty) -> usize {
    let mut w = World::new();
    let mut s = sig(vec![input(first, "A"), input(second, "B")], unit());
    s.idents = vec![Some(w.s("width")), Some(w.s("height"))];
    let resize = w.function("resize", s);
    let a = w.local("height", 4, u32_ty(), u32_ty());
    let b = w.local("width", 5, u32_ty(), u32_ty());
    let e = w.call("resize", resize, vec![a, b]);
    let d = w.done();
    misbound_arg::check_expr(&d, &e).len()
}

#[test]
fn a_swap_between_types_is_the_compilers_to_find() {
    let u64_ty = || Ty::Int { bits: 64, signed: false, pointer_sized: false };
    assert_eq!(typed_swap_world(u64_ty(), u64_ty()), 1);
    assert_eq!(typed_swap_world(usize_ty(), u64_ty()), 0);
    assert_eq!(typed_swap_world(Ty::Float { bits: 32 }, Ty::Float { bits: 64 }), 0);
    let buf = |n: u32| Ty::Adt(DefId(0), vec![Ty::Const { number: n, generic: false }]);
    assert_eq!(typed_swap_world(buf(1), buf(1)), 1);
    assert_eq!(typed_swap_world(buf(1), buf(2)), 0);
    let object = |t: Ty| Ty::Dyn(Some(DefId(0)), 0, vec![t]);
    assert_eq!(typed_swap_world(object(u32_ty()), object(u32_ty())), 1);
    assert_eq!(typed_swap_world(object(u32_ty()), object(Ty::Bool)), 0);
}

#[test]
fn a_parameter_qualifies_a_name_by_whole_words() {
    let chars = |s: &str| -> Vec<char> { s.chars().collect() };
    let qualifies = |p: &str, a: &str| misbound_arg::qualifies(&chars(p), &chars(a));
    assert!(qualifies("from_index", "index"));
    assert!(qualifies("index_hint", "index"));
    assert!(qualifies("from_index_hint", "index"));
    assert!(!qualifies("reindex", "index"));
    assert!(!qualifies("index", "index"));
}

// ---------------------------------------------------------------- return_wider_than_body

fn narrowed_world(third: bool) -> Vec<Finding> {
    labelled_world(third, false, None)
}

/// The body's block may be labelled, and may hold a `break` with the third
/// variant, to that block or elsewhere.
fn labelled_world(third: bool, labelled: bool, broken: Option<bool>) -> Vec<Finding> {
    let mut w = World::new();
    let (en, vs) = w.enm(
        "Mode",
        vec![("Read", CtorShape::Unit), ("Write", CtorShape::Unit), ("Seek", CtorShape::Unit)],
    );
    let pick = w.function("pick", sig(vec![], adt(en)));
    let give = |w: &World, k: usize| {
        let mut e = w.path_to("V", DefKind::Variant, vs[k]);
        e.ty = adt(en);
        e
    };
    let tail = if third { give(&w, 2) } else { give(&w, 1) };
    let mut early = w.e(ExprKind::Ret(Some(Box::new(give(&w, 0)))), Ty::Never, Ty::Never);
    early.ty = Ty::Never;
    let mut block = w.block(vec![w.semi(early)], Some(tail));
    block.labelled = labelled;
    if let Some(here) = broken {
        let to = if here { block.id } else { w.id() };
        let out = ExprKind::Break(Some(to), Some(Box::new(give(&w, 2))));
        let out = w.e(out, Ty::Never, Ty::Never);
        block.stmts.push(w.semi(out));
    }
    let mut body = w.unit(ExprKind::Block(block));
    body.ty = adt(en);
    let mut called = w.call("pick", pick, vec![]);
    called.ty = adt(en);
    called.adjusted = adt(en);
    let arms = vec![
        w.arm(w.variant_pat(&["Mode", "Read"], vs[0], adt(en)), w.num(0)),
        w.arm(w.variant_pat(&["Mode", "Write"], vs[1], adt(en)), w.num(1)),
        w.arm(w.variant_pat(&["Mode", "Seek"], vs[2], adt(en)), w.panic()),
    ];
    let m = w.match_(called, arms);
    let d = w.done();
    let mut lint = NarrowedReturn::new();
    lint.check_fn(&d, pick, false, &body);
    lint.check_expr(&d, &m);
    lint.check_crate_post(&d)
}

#[test]
fn an_arm_for_a_variant_never_returned_is_reported() {
    let f = one(narrowed_world(false));
    assert!(f.message.starts_with("`pick` only ever returns "), "{f:?}");
    assert!(f.message.ends_with("this arm panics on `Seek`, which it never constructs"), "{f:?}");
}

#[test]
fn a_variant_that_is_returned_may_panic() {
    assert!(narrowed_world(true).is_empty());
}

#[test]
fn what_a_break_gives_the_body_is_returned() {
    assert_eq!(labelled_world(false, true, None).len(), 1);
    assert!(labelled_world(false, true, Some(true)).is_empty());
    assert_eq!(labelled_world(false, true, Some(false)).len(), 1);
    assert!(labelled_world(true, true, None).is_empty());
}

// ---------------------------------------------------------------- key_not_identity

#[test]
fn keys_a_project_bans_are_reported() {
    let mut w = World::new();
    let map = w.known("HashMap", Known::HashMapType);
    let span = w.strukt("Span", vec![]);
    let keyed = || Ty::Adt(map, vec![adt(span), u32_ty()]);
    let mut recv = w.local("m", 4, keyed(), keyed());
    recv.arg_texts = vec!["Span".to_string(), "u32".to_string()];
    let key = w.local("s", 5, adt(span), adt(span));
    let e = w.mcall("insert", recv, vec![key, w.num(1)], None);
    let d = w.done();
    let mut config = MordantConfig::default();
    assert!(NonidentityKey::new(&config).check_expr(&d, &e).is_empty());
    config.nonidentity_key_types = vec!["Span".to_string()];
    let f = one(NonidentityKey::new(&config).check_expr(&d, &e));
    assert_eq!(
        f.message,
        "map keyed on `Span`, which this project declares is not an identity"
    );
}

#[test]
fn composite_keys_need_a_fixing_type() {
    let mut w = World::new();
    let map = w.known("HashMap", Known::HashMapType);
    let span = w.strukt("Span", vec![]);
    let file = w.strukt("FileId", vec![]);
    let loose = || Ty::Tuple(vec![adt(span), u32_ty()]);
    let fixed = || Ty::Tuple(vec![adt(file), adt(span)]);
    let insert = |w: &World, key: &dyn Fn() -> Ty, text: &str| {
        let keyed = || Ty::Adt(map, vec![key(), u32_ty()]);
        let mut recv = w.local("m", 4, keyed(), keyed());
        recv.arg_texts = vec![text.to_string(), "u32".to_string()];
        let k = w.local("k", 5, key(), key());
        w.mcall("insert", recv, vec![k, w.num(1)], None)
    };
    let flagged = insert(&w, &loose, "(Span, u32)");
    let accepted = insert(&w, &fixed, "(FileId, Span)");
    let d = w.done();
    let mut config = MordantConfig::default();
    config.nonidentity_key_types = vec!["Span".to_string()];
    assert!(NonidentityKey::new(&config).check_expr(&d, &flagged).is_empty());
    config.nonidentity_key_composite = true;
    let f = one(NonidentityKey::new(&config).check_expr(&d, &flagged));
    assert_eq!(
        f.message,
        "map keyed on `(Span, u32)` carrying `Span`, which this project declares is not an identity"
    );
    assert_eq!(NonidentityKey::new(&config).check_expr(&d, &accepted).len(), 1);
    config.nonidentity_key_fixes = vec!["FileId".to_string()];
    assert!(NonidentityKey::new(&config).check_expr(&d, &accepted).is_empty());
}

// ---------------------------------------------------------------- param_wider_than_callers

fn overwide_world(third_caller: bool) -> Vec<Finding> {
    let mut w = World::new();
    let (en, vs) = w.enm(
        "Op",
        vec![("Add", CtorShape::Unit), ("Sub", CtorShape::Unit), ("Neg", CtorShape::Unit)],
    );
    let run = w.function("run", sig(vec![input(adt(en), "Op")], unit()));
    let params = vec![w.bind("op", 9, adt(en))];
    let arms = vec![
        w.arm(w.variant_pat(&["Op", "Add"], vs[0], adt(en)), w.num(0)),
        w.arm(w.variant_pat(&["Op", "Sub"], vs[1], adt(en)), w.num(1)),
        w.arm(w.variant_pat(&["Op", "Neg"], vs[2], adt(en)), w.panic()),
    ];
    let body = w.match_(w.local("op", 9, adt(en), adt(en)), arms);
    let pass = |w: &World, k: usize| {
        let v = w.path_to("V", DefKind::Variant, vs[k]);
        w.call("run", run, vec![v])
    };
    let mut calls = vec![pass(&w, 0), pass(&w, 1)];
    if third_caller {
        calls.push(pass(&w, 2));
    }
    let d = w.done();
    let mut lint = OverwideParameter::new();
    lint.check_fn(&d, run, false, &params, &body);
    for c in &calls {
        lint.check_expr(&d, c, &vec![]);
    }
    lint.check_crate_post(&d)
}

#[test]
fn an_arm_no_caller_reaches_is_reported() {
    let f = one(overwide_world(false));
    assert!(f.message.starts_with("all 2 call sites of `run` pass "), "{f:?}");
    assert!(
        f.message.ends_with("this arm panics on `Neg`, which no existing caller sends"),
        "{f:?}"
    );
}

#[test]
fn an_arm_some_caller_reaches_is_fine() {
    assert!(overwide_world(true).is_empty());
}

// ---------------------------------------------------------------- parallel_bools

fn bools_world(split: bool) -> Vec<Finding> {
    let mut w = World::new();
    let st = w.strukt("State", vec![("open", Ty::Bool), ("dirty", Ty::Bool)]);
    let (f1, f2) =
        (w.function("a", sig(vec![], unit())), w.function("b", sig(vec![], unit())));
    let set = |w: &World, f: &str, b: bool| {
        w.assign(w.field(w.this(st), f, Ty::Bool, Ty::Bool), w.boolean(b))
    };
    let (one, two, three) = (w.block(vec![], None), w.block(vec![], None), w.block(vec![], None));
    let writes = vec![
        (f1, &one, set(&w, "open", true)),
        (f1, &one, set(&w, "dirty", false)),
        (f2, &two, set(&w, "open", false)),
        (f2, if split { &three } else { &two }, set(&w, "dirty", true)),
    ];
    let d = w.done();
    let mut lint = ParallelBools::new();
    for (owner, b, e) in &writes {
        lint.check_expr(&d, *owner, e, &vec![Parent::Block(b)]);
    }
    lint.check_crate_post(&d)
}

#[test]
fn bools_assigned_in_pairs_are_reported() {
    let f = one(bools_world(false));
    assert_eq!(
        f.message,
        "the bool fields `dirty`, `open` of `State` are only ever assigned together (2 sites in 2 functions)"
    );
}

#[test]
fn bools_assigned_apart_are_fine() {
    assert!(bools_world(true).is_empty());
}

// ---------------------------------------------------------------- parallel_vecs

fn vecs_world(lone_push: bool) -> Vec<Finding> {
    let mut w = World::new();
    let vec = w.known("Vec", Known::VecType);
    let tab = w.strukt(
        "Table",
        vec![("keys", Ty::Adt(vec, vec![u32_ty()])), ("vals", Ty::Adt(vec, vec![u32_ty()]))],
    );
    let (add, get) =
        (w.function("add", sig(vec![], unit())), w.function("get", sig(vec![], unit())));
    let f = |w: &World, n: &str| w.field(w.this(tab), n, adt(vec), adt(vec));
    let push = |w: &World, n: &str| {
        let mut recv = f(w, n);
        recv.auto_mut_borrow = true;
        w.mcall("push", recv, vec![w.num(1)], None)
    };
    let (body, other) = (w.block(vec![], None), w.block(vec![], None));
    let at = |w: &World, n: &str| {
        let mut i = w.local("i", 5, usize_ty(), usize_ty());
        i.structure = 900;
        i.value_class = Some(900);
        w.index(f(w, n), i)
    };
    let grows = vec![push(&w, "keys"), push(&w, "vals")];
    let reads = vec![at(&w, "keys"), at(&w, "vals")];
    let lone = push(&w, "keys");
    let d = w.done();
    let mut lint = ParallelVecs::new();
    let visit = |lint: &mut ParallelVecs, owner: DefId, e: &Expr, b: &Block| {
        lint.check_expr(&d, owner, e, &vec![Parent::Block(b)]);
        let inner = match &e.kind {
            ExprKind::MethodCall(_, r, _) => r,
            ExprKind::Index(r, _) => r,
            _ => return,
        };
        lint.check_expr(&d, owner, inner, &vec![Parent::Expr(e), Parent::Block(b)]);
    };
    for e in &grows {
        visit(&mut lint, add, e, &body);
    }
    lint.check_body_post(add);
    for e in &reads {
        visit(&mut lint, get, e, &other);
    }
    lint.check_body_post(get);
    if lone_push {
        visit(&mut lint, get, &lone, &other);
    }
    lint.check_crate_post(&d)
}

#[test]
fn vectors_that_grow_and_are_read_side_by_side_are_reported() {
    let f = one(vecs_world(false));
    assert_eq!(
        f.message,
        "parallel vecs: the fields `keys`, `vals` of `Table` only change length together (1 block) and are read at one index, so element `i` of each is one record kept in 2 places"
    );
}

#[test]
fn a_vector_that_grows_alone_is_no_column() {
    assert!(vecs_world(true).is_empty());
}

// ---------------------------------------------------------------- sentinel_integer

fn sentinel_world(checked_there: bool) -> Vec<Finding> {
    let mut w = World::new();
    let slot = w.strukt("Slot", vec![("next", u32_ty())]);
    let max = w.known("MAX", Known::Unlisted);
    w.at(max).kind = DefKind::AssocConst;
    let core = w.s("core");
    w.at(max).krate = core;
    let (tests, uses) =
        (w.function("tests", sig(vec![], unit())), w.function("uses", sig(vec![], unit())));
    let next = |w: &World| w.field(w.this(slot), "next", u32_ty(), u32_ty());
    let maximum = |w: &World| {
        let mut e = w.path_to("MAX", DefKind::AssocConst, max);
        e.ty = u32_ty();
        e.ty_text = "u32".to_string();
        e
    };
    let compare = w.binary(BinOp::EqualTo, next(&w), maximum(&w));
    let again = w.binary(BinOp::NotEqual, next(&w), maximum(&w));
    let cast = w.e(ExprKind::Cast(Box::new(next(&w))), usize_ty(), usize_ty());
    let table = w.local("t", 8, Ty::Other(0, vec![]), Ty::Other(0, vec![]));
    let read = w.index(table, cast);
    let d = w.done();
    let mut lint = SentinelInt::new();
    lint.check_expr(&d, tests, &compare, &vec![]);
    if checked_there {
        lint.check_expr(&d, uses, &again, &vec![]);
    }
    lint.check_expr(&d, uses, &read, &vec![]);
    lint.check_crate_post(&d)
}

#[test]
fn a_sentinel_that_reaches_an_index_is_reported() {
    let f = one(sentinel_world(false));
    assert_eq!(
        f.message,
        "sentinel `u32::MAX` can reach this use: `uses` indexes with `Slot.next` and nothing in it tests the field, which the crate compares against that sentinel at 1 other site"
    );
}

#[test]
fn a_reader_that_tests_the_field_is_fine() {
    assert!(sentinel_world(true).is_empty());
}

// ---------------------------------------------------------------- derived_field

fn projection_world(crossed: bool) -> Vec<Finding> {
    let mut w = World::new();
    let (en, vs) = w.enm("Kind", vec![("A", CtorShape::Unit), ("B", CtorShape::Unit)]);
    let st = w.strukt("Row", vec![("kind", adt(en)), ("width", u32_ty())]);
    let ctors = [w.child(vs[0], "", DefKind::Ctor(true)), w.child(vs[1], "", DefKind::Ctor(true))];
    let row = |w: &World, v: usize, n: u128| {
        let mut k = w.path_to("V", DefKind::Ctor(true), ctors[v]);
        k.ty = adt(en);
        w.literal(st, "Row", vec![("kind", k), ("width", w.num(n))])
    };
    let mut rows = vec![row(&w, 0, 8), row(&w, 1, 16)];
    if crossed {
        rows.push(row(&w, 0, 16));
    }
    let d = w.done();
    let mut lint = StoredProjection::new(&MordantConfig::default());
    for r in &rows {
        lint.check_expr(&d, r);
    }
    lint.check_crate_post(&d)
}

#[test]
fn a_field_that_follows_another_is_reported() {
    let f = one(projection_world(false));
    assert_eq!(
        f.message,
        "`kind` and `width` of `Row` agree one-for-one across all 2 places it is constructed, so one is a stored projection of the other"
    );
}

#[test]
fn a_crossed_pairing_is_no_projection() {
    assert!(projection_world(true).is_empty());
}

// ---------------------------------------------------------------- stringified_error

#[test]
fn a_typed_error_made_a_string_is_reported() {
    let mut w = World::new();
    let result = w.known("Result", Known::ResultType);
    let string = w.known("String", Known::StringType);
    let error = w.strukt("IoError", vec![]);
    let typed = || Ty::Adt(result, vec![u32_ty(), adt(error)]);
    let stringy = || Ty::Adt(result, vec![u32_ty(), adt(string)]);
    let build = |w: &World, method: &str, bound: u64, format: bool| {
        let mut recv = w.local("r", 4, typed(), typed());
        recv.arg_texts = vec!["u32".to_string(), "IoError".to_string()];
        let mut body = w.mcall(method, w.local("e", 5, adt(error), adt(error)), vec![], None);
        body.origin.from_format = format;
        let param = w.bind("e", bound, adt(error));
        let closure = w.unit(ExprKind::Closure(vec![param], Box::new(body)));
        let mut e = w.mcall("map_err", recv, vec![closure], None);
        e.ty = stringy();
        e
    };
    let collapsed = build(&w, "to_string", 5, false);
    let wrapped = build(&w, "describe", 5, false);
    let another = build(&w, "to_string", 6, false);
    let formatted = build(&w, "fmt", 5, true);
    let unrelated = build(&w, "fmt", 6, true);
    let d = w.done();
    let f = one(stringified_error::check_expr(&d, &collapsed));
    assert_eq!(f.message, "typed error `IoError` collapsed into a string");
    assert!(stringified_error::check_expr(&d, &wrapped).is_empty());
    assert!(stringified_error::check_expr(&d, &another).is_empty());
    assert_eq!(stringified_error::check_expr(&d, &formatted).len(), 1);
    assert!(stringified_error::check_expr(&d, &unrelated).is_empty());
}

// ---------------------------------------------------------------- stringly_error

#[test]
fn string_errors_in_public_signatures_are_reported() {
    let mut w = World::new();
    let result = w.known("Result", Known::ResultType);
    let string = w.known("String", Known::StringType);
    let cow = w.known("Cow", Known::CowType);
    let boxed = w.known("Box", Known::BoxType);
    let error = w.known("Error", Known::ErrorTrait);
    let public = w.function("load", sig(vec![], unit()));
    w.at(public).is_exported = true;
    let private = w.function("inner", sig(vec![], unit()));
    let holder = w.strukt("Holder", vec![]);
    let imp = w.imp(holder, true);
    let dictated = w.method(imp, "dictated", sig(vec![], unit()));
    w.at(dictated).is_exported = true;
    let at = w.span();
    let returns = |e: Ty| Some(Declared { ty: Ty::Adt(result, vec![u32_ty(), e]), span: at });
    let d = w.done();
    let mut config = MordantConfig::default();
    let plain = StringlyError::new(&config);
    let text = returns(adt(string));
    let f = one(plain.check_fn(&d, public, false, None, &text));
    assert_eq!(f.message, "public signature returns `Result<_, String>`");
    assert_eq!(f.at, at);
    assert!(plain.check_fn(&d, private, false, None, &text).is_empty());
    assert!(plain.check_fn(&d, public, true, None, &text).is_empty());
    assert!(plain.check_fn(&d, public, false, Some(public), &text).is_empty());
    assert!(plain.check_fn(&d, dictated, false, None, &text).is_empty());
    assert!(plain.check_fn(&d, public, false, None, &None).is_empty());
    let slice = returns(Ty::Ref(Box::new(Ty::Str), false));
    let g = one(plain.check_trait_item(&d, public, true, &slice));
    assert_eq!(g.message, "public signature returns `Result<_, &str>`");
    assert!(plain.check_trait_item(&d, public, false, &slice).is_empty());
    let cows = returns(Ty::Adt(cow, vec![Ty::Region, Ty::Str]));
    let h = one(plain.check_fn(&d, public, false, None, &cows));
    assert_eq!(h.message, "public signature returns `Result<_, Cow<str>>`");
    let dynamic = returns(Ty::Adt(boxed, vec![Ty::Dyn(Some(error), 0, vec![])]));
    assert!(plain.check_fn(&d, public, false, None, &dynamic).is_empty());
    config.stringly_error_include_box_dyn = true;
    let strict = StringlyError::new(&config);
    let k = one(strict.check_fn(&d, public, false, None, &dynamic));
    assert_eq!(k.message, "public signature returns `Result<_, Box<dyn Error>>`");
}

// ---------------------------------------------------------------- unit_mismatch

#[test]
fn units_that_differ_are_reported() {
    let w = World::new();
    let v = |w: &World, n: &str| w.local(n, 4, usize_ty(), usize_ty());
    let mixed = w.binary(BinOp::Plus, v(&w, "timeout_ms"), w.borrow(v(&w, "deadline_nanos")));
    let compared = w.binary(BinOp::Less, v(&w, "size_kb"), v(&w, "size_mib"));
    let scaled = w.binary(BinOp::Times, v(&w, "timeout_ms"), v(&w, "deadline_ns"));
    let alike = w.binary(BinOp::Minus, v(&w, "a_millis"), v(&w, "b_ms"));
    let plain = w.binary(BinOp::Plus, v(&w, "timeout_ms"), v(&w, "n"));
    let mut expanded = w.binary(BinOp::Plus, v(&w, "a_ms"), v(&w, "b_ns"));
    expanded.origin.from_expansion = true;
    let d = w.done();
    let f = one(unit_mismatch::check_expr(&d, &mixed));
    assert_eq!(
        f.message,
        "`timeout_ms` claims ms and `deadline_nanos` claims ns; arithmetic between them mixes units"
    );
    let g = one(unit_mismatch::check_expr(&d, &compared));
    assert_eq!(
        g.message,
        "`size_kb` claims kb and `size_mib` claims mb; comparison between them mixes units"
    );
    for quiet in [&scaled, &alike, &plain, &expanded] {
        assert!(unit_mismatch::check_expr(&d, quiet).is_empty());
    }
    assert_eq!(unit_mismatch::unit_class("seconds"), Some("s"));
    assert_eq!(unit_mismatch::unit_class("min"), None);
}

// ---------------------------------------------------------------- unread_error_variant

fn unread_world(by_trait_impl: bool, other_named: bool) -> Vec<Finding> {
    let mut w = World::new();
    let (en, vs) =
        w.enm("LoadError", vec![("NotFound", CtorShape::Unit), ("Corrupt", CtorShape::Unit)]);
    let display = w.imp(en, true);
    let fmt = w.method(display, "fmt", sig(vec![], unit()));
    let handle = w.function("handle", sig(vec![], unit()));
    let made = vec![
        w.path_to("NotFound", DefKind::Variant, vs[0]),
        w.path_to("Corrupt", DefKind::Variant, vs[1]),
    ];
    let named = w.variant_pat(&["LoadError", "NotFound"], vs[0], adt(en));
    let read = w.variant_pat(&["LoadError", "Corrupt"], vs[1], adt(en));
    let d = w.done();
    let mut lint = UnreadErrorVariant::new();
    for e in &made {
        lint.check_expr(&d, e);
    }
    if other_named {
        lint.check_pat(&d, handle, &named);
    }
    lint.check_pat(&d, if by_trait_impl { fmt } else { handle }, &read);
    lint.check_crate_post(&d)
}

#[test]
fn a_variant_no_pattern_reads_is_reported() {
    let f = one(unread_world(true, true));
    assert_eq!(
        f.message,
        "`LoadError::Corrupt` is constructed here, but no pattern outside `LoadError`'s trait impls ever names it"
    );
}

#[test]
fn a_variant_some_pattern_reads_is_fine() {
    assert!(unread_world(false, true).is_empty());
    assert!(unread_world(true, false).is_empty());
}

// ---------------------------------------------------------------- always_unwrapped_option

fn unwrap_world(how: &str, times: usize) -> Vec<Finding> {
    let mut w = World::new();
    let (o, _, _) = w.option();
    let st = w.strukt("Phase", vec![("conn", Ty::Adt(o, vec![u32_ty()]))]);
    let mut reads = vec![];
    for k in 0..times {
        let read = w.field(w.this(st), "conn", adt(o), adt(o));
        let via = if k == 0 { w.mcall("as_ref", read, vec![], None) } else { read };
        reads.push(w.mcall(if k == 0 { "unwrap" } else { how }, via, vec![], None));
    }
    let d = w.done();
    let mut lint = UnreadNone::new();
    for r in &reads {
        let mut parents = vec![];
        let mut at = r;
        loop {
            if let ExprKind::MethodCall(_, recv, _) = &at.kind {
                parents.insert(0, Parent::Expr(at));
                at = recv;
            } else {
                break;
            }
        }
        lint.check_expr(&d, at, &parents);
    }
    lint.check_crate_post(&d)
}

#[test]
fn an_option_every_reader_unwraps_is_reported() {
    let f = one(unwrap_world("expect", 2));
    assert_eq!(
        f.message,
        "every read of `Phase.conn` assumes `Some` (2 unwraps, 0 sites handle `None`)"
    );
}

#[test]
fn one_reader_that_handles_none_is_enough() {
    assert!(unwrap_world("is_some", 3).is_empty());
    assert!(unwrap_world("unwrap", 1).is_empty());
}

fn unpacked_world(bound: bool) -> Vec<Finding> {
    let mut w = World::new();
    let (o, _, _) = w.option();
    let st = w.strukt("Phase", vec![("conn", Ty::Adt(o, vec![u32_ty()]))]);
    let read = |w: &World| {
        let read = w.field(w.this(st), "conn", adt(o), adt(o));
        w.mcall("unwrap", read, vec![], None)
    };
    let reads = vec![read(&w), read(&w)];
    let inner = if bound { w.bind("c", 40, adt(o)) } else { w.pat(PatKind::Wild, adt(o)) };
    let fields = vec![FieldPat { name: w.s("conn"), pat: inner }];
    let head = w.qpath(&["Phase"], Res::Def(DefKind::Struct, st));
    let p = w.pat(PatKind::Struct(head, fields), adt(st));
    let d = w.done();
    let mut lint = UnreadNone::new();
    for r in &reads {
        if let ExprKind::MethodCall(_, recv, _) = &r.kind {
            lint.check_expr(&d, recv, &vec![Parent::Expr(r)]);
        }
    }
    lint.check_pat(&d, &p);
    lint.check_crate_post(&d)
}

#[test]
fn a_pattern_that_takes_the_field_out_is_a_read() {
    assert!(unpacked_world(true).is_empty());
    assert_eq!(unpacked_world(false).len(), 1);
}

// ---------------------------------------------------------------- wildcard_over_own_enum

fn wildcard_world(bound: bool) -> Vec<Finding> {
    let mut w = World::new();
    let (en, vs) = w.enm(
        "Op",
        vec![
            ("Add", CtorShape::Unit),
            ("Call", CtorShape::Call),
            ("Load", CtorShape::Braces),
            ("Neg", CtorShape::Unit),
        ],
    );
    let catch = if bound { w.bind("rest", 30, adt(en)) } else { w.pat(PatKind::Wild, adt(en)) };
    let arms = vec![
        w.arm(w.variant_pat(&["Op", "Add"], vs[0], adt(en)), w.num(1)),
        w.arm(catch, w.num(2)),
    ];
    let e = w.match_(w.local("op", 9, adt(en), adt(en)), arms);
    let d = w.done();
    WildcardLocalEnum::new(&MordantConfig::default()).check_expr(&d, &e)
}

#[test]
fn a_wildcard_over_an_own_enum_is_reported_with_its_fix() {
    let f = one(wildcard_world(false));
    assert_eq!(
        f.message,
        "this arm absorbs every future variant of `Op` (4 variants today)"
    );
    assert_eq!(f.fix.as_deref(), Some("Op::Call(..) | Op::Load { .. } | Op::Neg"));
    let g = one(wildcard_world(true));
    assert_eq!(g.fix.as_deref(), Some("rest @ (Op::Call(..) | Op::Load { .. } | Op::Neg)"));
}

#[test]
fn a_threshold_of_zero_turns_the_wildcard_lint_off() {
    let mut w = World::new();
    let (en, vs) = w.enm("Op", vec![("Add", CtorShape::Unit), ("Neg", CtorShape::Unit)]);
    let arms = vec![
        w.arm(w.variant_pat(&["Op", "Add"], vs[0], adt(en)), w.num(1)),
        w.arm(w.pat(PatKind::Wild, adt(en)), w.num(2)),
    ];
    let e = w.match_(w.local("op", 9, adt(en), adt(en)), arms);
    let d = w.done();
    let mut config = MordantConfig::default();
    config.wildcard_local_enum_max_variants = 0;
    assert!(WildcardLocalEnum::new(&config).check_expr(&d, &e).is_empty());
}

#[test]
fn a_guarded_arm_covers_nothing() {
    let mut w = World::new();
    let (en, vs) = w.enm(
        "Op",
        vec![("Add", CtorShape::Unit), ("Mul", CtorShape::Unit), ("Neg", CtorShape::Unit)],
    );
    let mut guarded = w.arm(w.variant_pat(&["Op", "Mul"], vs[1], adt(en)), w.num(1));
    guarded.guard = Some(Box::new(w.boolean(true)));
    let arms = vec![
        w.arm(w.variant_pat(&["Op", "Add"], vs[0], adt(en)), w.num(1)),
        guarded,
        w.arm(w.pat(PatKind::Wild, adt(en)), w.num(2)),
    ];
    let e = w.match_(w.local("op", 9, adt(en), adt(en)), arms);
    let d = w.done();
    let f = one(WildcardLocalEnum::new(&MordantConfig::default()).check_expr(&d, &e));
    assert_eq!(f.fix.as_deref(), Some("Op::Mul | Op::Neg"));
}

#[test]
fn beside_a_fancy_sibling_there_is_no_fix() {
    let mut w = World::new();
    let (en, vs) = w.enm("Op", vec![("Add", CtorShape::Unit), ("Neg", CtorShape::Unit)]);
    let inner = w.variant_pat(&["Op", "Add"], vs[0], adt(en));
    let arms = vec![
        w.arm(w.pat(PatKind::Ref(Box::new(inner)), adt(en)), w.num(1)),
        w.arm(w.pat(PatKind::Wild, adt(en)), w.num(2)),
    ];
    let e = w.match_(w.local("op", 9, adt(en), adt(en)), arms);
    let d = w.done();
    let f = one(WildcardLocalEnum::new(&MordantConfig::default()).check_expr(&d, &e));
    assert_eq!(f.fix, None);
}

/// The fix beside an arm `Op::Add(part)`.
fn part_world(part: &dyn Fn(&mut World) -> Pat) -> Option<String> {
    let mut w = World::new();
    let (en, vs) = w.enm("Op", vec![("Add", CtorShape::Call), ("Neg", CtorShape::Unit)]);
    let part = part(&mut w);
    let head = w.qpath(&["Op", "Add"], Res::Def(DefKind::Variant, vs[0]));
    let arms = vec![
        w.arm(w.pat(PatKind::TupleStruct(head, vec![part]), adt(en)), w.num(1)),
        w.arm(w.pat(PatKind::Wild, adt(en)), w.num(2)),
    ];
    let e = w.match_(w.local("op", 9, adt(en), adt(en)), arms);
    let d = w.done();
    one(WildcardLocalEnum::new(&MordantConfig::default()).check_expr(&d, &e)).fix
}

fn x(w: &World) -> Pat {
    w.bind("x", 30, usize_ty())
}

fn lit_pat(w: &World, kind: LitKind) -> Pat {
    w.pat(PatKind::Lit(Lit { kind, text: String::new() }, false), usize_ty())
}

#[test]
fn only_an_arm_that_takes_all_of_a_variant_covers_it() {
    let neg = Some("Op::Neg".to_string());
    assert_eq!(part_world(&|w| lit_pat(w, LitKind::Int(1))), None);
    assert_eq!(part_world(&|w| w.pat(PatKind::Wild, usize_ty())), neg);
    assert_eq!(part_world(&|w| x(w)), neg);
    assert_eq!(part_world(&|w| w.pat(PatKind::Other(vec![]), usize_ty())), None);
}

#[test]
fn a_part_that_cannot_fail_may_look_deeper() {
    let neg = Some("Op::Neg".to_string());
    let one = |w: &World| lit_pat(w, LitKind::Int(1));
    let under: [fn(Box<Pat>) -> PatKind; 3] = [PatKind::Ref, PatKind::Deref, PatKind::BoxOf];
    for f in under {
        assert_eq!(part_world(&|w| w.pat(f(Box::new(x(w))), usize_ty())), neg);
        assert_eq!(part_world(&|w| w.pat(f(Box::new(one(w))), usize_ty())), None);
    }
    let pair = |w: &World, p: Pat, fits: bool| {
        w.pat(PatKind::Sequence(vec![x(w), p], fits), Ty::Tuple(vec![usize_ty(), usize_ty()]))
    };
    assert_eq!(part_world(&|w| pair(w, x(w), true)), neg);
    assert_eq!(part_world(&|w| pair(w, one(w), true)), None);
    assert_eq!(part_world(&|w| pair(w, x(w), false)), None);
    let point = |w: &mut World, p: &dyn Fn(&World) -> Pat| {
        let st = w.strukt("Point", vec![("x", usize_ty())]);
        let head = w.qpath(&["Point"], Res::Def(DefKind::Struct, st));
        let fields = vec![FieldPat { name: w.s("x"), pat: p(w) }];
        w.pat(PatKind::Struct(head, fields), adt(st))
    };
    assert_eq!(part_world(&|w| point(w, &x)), neg);
    assert_eq!(part_world(&|w| point(w, &one)), None);
}

#[test]
fn a_part_of_an_enum_must_name_every_variant() {
    let neg = Some("Op::Neg".to_string());
    let kinds = |w: &mut World, all: &[&'static str], named: &[usize], local: bool| {
        let (k, vs) = w.enm("Kind", all.iter().map(|n| (*n, CtorShape::Unit)).collect());
        w.at(k).is_local = local;
        w.at(k).adt.as_mut().unwrap().non_exhaustive = true;
        let mut heads: Vec<Pat> =
            named.iter().map(|i| w.variant_pat(&["Kind", "V"], vs[*i], adt(k))).collect();
        if heads.len() == 1 { heads.remove(0) } else { w.pat(PatKind::Or(heads), adt(k)) }
    };
    assert_eq!(part_world(&|w| kinds(w, &["A"], &[0], true)), neg);
    assert_eq!(part_world(&|w| kinds(w, &["A"], &[0], false)), None);
    assert_eq!(part_world(&|w| kinds(w, &["A", "B"], &[0], true)), None);
    assert_eq!(part_world(&|w| kinds(w, &["A", "B"], &[1, 0], true)), neg);
    assert_eq!(part_world(&|w| kinds(w, &["A", "B"], &[1, 0], false)), None);
    assert_eq!(part_world(&|w| kinds(w, &["A", "B", "C"], &[1, 0], true)), None);
    let flags = |w: &World, b: bool| {
        let both = vec![lit_pat(w, LitKind::Bool(true)), lit_pat(w, LitKind::Bool(b))];
        w.pat(PatKind::Or(both), Ty::Bool)
    };
    assert_eq!(part_world(&|w| flags(w, false)), neg);
    assert_eq!(part_world(&|w| flags(w, true)), None);
    let either = |w: &World| {
        w.pat(PatKind::Or(vec![lit_pat(w, LitKind::Int(1)), x(w)]), usize_ty())
    };
    assert_eq!(part_world(&|w| either(w)), neg);
}

// ---------------------------------------------------------------- pairing locals

#[test]
fn free_locals_come_in_order_of_first_use() {
    let w = World::new();
    let v = |w: &World, n: &str, id: u64| w.local(n, id, usize_ty(), usize_ty());
    let body = w.block_expr(
        vec![Stmt {
            id: w.id(),
            kind: StmtKind::Let(LetStmt {
                id: w.id(),
                pat: w.bind("t", 50, usize_ty()),
                init: Some(Box::new(v(&w, "b", 41))),
                els: None,
            }),
        }],
        Some(w.binary(BinOp::Plus, v(&w, "t", 50), w.binary(BinOp::Plus, v(&w, "a", 40), v(&w, "b", 41)))),
    );
    assert_eq!(free_locals(&body), vec![HirId(41), HirId(40)]);
}

#[test]
fn locals_pair_up_only_with_their_types() {
    let w = World::new();
    let l = w.binary(
        BinOp::Plus,
        w.local("a", 40, usize_ty(), usize_ty()),
        w.local("b", 41, usize_ty(), usize_ty()),
    );
    let r = w.binary(
        BinOp::Plus,
        w.local("x", 60, usize_ty(), usize_ty()),
        w.local("y", 61, usize_ty(), usize_ty()),
    );
    let lone = w.local("x", 60, usize_ty(), usize_ty());
    let lt = vec![(HirId(40), usize_ty()), (HirId(41), u32_ty())];
    let rt = vec![(HirId(60), usize_ty()), (HirId(61), u32_ty())];
    let bad = vec![(HirId(60), usize_ty()), (HirId(61), Ty::Bool)];
    assert_eq!(
        expr_pairing(&l, &lt, &r, &rt),
        Some(vec![(HirId(40), HirId(60)), (HirId(41), HirId(61))])
    );
    assert!(expr_pairing(&l, &lt, &r, &bad).is_none());
    assert!(expr_pairing(&l, &lt, &lone, &rt).is_none());
    assert!(expr_pairing(&l, &lt, &r, &vec![]).is_none());
}

#[test]
fn parameters_pair_up_by_position() {
    let w = World::new();
    let l = vec![w.bind("a", 1, usize_ty()), w.bind("b", 2, usize_ty())];
    let or = w.pat(
        PatKind::Or(vec![w.bind("x", 3, usize_ty()), w.bind("x", 4, usize_ty())]),
        usize_ty(),
    );
    let r = vec![or, w.bind("y", 5, usize_ty())];
    assert_eq!(
        body_pairing(&l, &r),
        Some(vec![(HirId(1), HirId(3)), (HirId(2), HirId(5))])
    );
    assert!(body_pairing(&l, &vec![]).is_none());
}

#[test]
fn signatures_are_equal_type_by_type() {
    let a = sig(vec![input(u32_ty(), "u32")], Ty::Bool);
    let b = sig(vec![input(u32_ty(), "other text")], Ty::Bool);
    let c = sig(vec![input(usize_ty(), "usize")], Ty::Bool);
    let d = sig(vec![input(u32_ty(), "u32")], unit());
    assert!(fn_sigs_equal(&a, &b));
    assert!(!fn_sigs_equal(&a, &c));
    assert!(!fn_sigs_equal(&a, &d));
    assert!(!fn_sigs_equal(&a, &sig(vec![], Ty::Bool)));
}
