use mordant::bits::Bits;
use mordant::bypassed_validator::BypassedValidator;
use mordant::cfg::{
    build_cfg, control_deps, direct_control_deps, dominates, post_dominators, raw_successors,
    switch_operand_atoms, Cfg,
};
use mordant::config::MordantConfig;
use mordant::ctor_verdict::{checked_fields, Program};
use mordant::defs::{
    AdtDef, AdtKind, CtorShape, DefKind, Definition, Definitions, FieldDef, FnSig, Input, Known,
    Repr, VariantDef,
};
use mordant::hir::{Expr, ExprKind, FieldInit, Lit, LitKind, Origin, QPath, Res, StructTail};
use mordant::ids::{DefId, HirId, Span, Symbol};
use mordant::mir::{
    AggregateKind, BasicBlock, Body, Callee, Operand, Place, Rvalue, Statement, Terminator,
    TerminatorKind, TryFn, Wrapper,
};
use mordant::reach::reached_from;
use mordant::ty::Ty;

fn span(n: u32) -> Span {
    Span { lo: n, hi: n + 1 }
}

fn block(statements: Vec<Statement>, kind: TerminatorKind, at: u32) -> BasicBlock {
    BasicBlock {
        statements,
        terminator: Some(Terminator { kind, span: span(at), other_targets: vec![] }),
        is_cleanup: false,
    }
}

fn local(n: usize) -> Place {
    Place { local: n, projection: vec![] }
}

fn copy(n: usize) -> Operand {
    Operand::Copy(local(n))
}

fn switch(n: usize, targets: Vec<usize>) -> TerminatorKind {
    TerminatorKind::SwitchInt { discr: copy(n), targets }
}

/// A diamond: 0 branches to 1 and 2, both go on to 3, which returns.
fn diamond() -> Body {
    Body {
        blocks: vec![
            block(vec![], switch(1, vec![1, 2]), 1),
            block(vec![], TerminatorKind::Goto { target: 3 }, 2),
            block(vec![], TerminatorKind::Goto { target: 3 }, 3),
            block(vec![], TerminatorKind::Return, 4),
        ],
        local_tys: vec![Ty::Bool, Ty::Bool],
        arg_count: 1,
        tainted_by_errors: false,
    }
}

#[test]
fn bits_hold_what_is_set() {
    let mut b = Bits::empty(130);
    assert!(!b.has(0) && !b.has(129));
    b.set(0);
    b.set(64);
    b.set(129);
    assert!(b.has(0) && b.has(64) && b.has(129) && !b.has(65));
    let mut all = Bits::full(130);
    assert!(all.has(129) && !all.same(&b));
    all.and_assign(&b);
    assert!(all.same(&b));
}

#[test]
fn branches_decide_their_arms_and_nothing_behind_the_join() {
    let body = diamond();
    assert_eq!(raw_successors(&body, 0), vec![1, 2]);
    let cfg = build_cfg(&body);
    let pdom = post_dominators(&cfg);
    assert!(pdom[0].has(3) && !pdom[0].has(1));
    assert_eq!(direct_control_deps(&cfg, &pdom, 1), vec![0]);
    assert_eq!(control_deps(&cfg, &pdom, 2), vec![0]);
    assert!(control_deps(&cfg, &pdom, 3).is_empty());
    let atoms = switch_operand_atoms(&body, 0);
    assert_eq!(atoms.len(), 1);
    assert_eq!(atoms[0].local, 1);
}

#[test]
fn a_graph_may_list_its_edges_in_any_order() {
    let cfg = Cfg { succs: vec![vec![2, 1, 2], vec![3], vec![4, 3], vec![4]], exit: 4 };
    let pdom = post_dominators(&cfg);
    assert!(pdom[1].has(3) && !pdom[2].has(3) && !pdom[0].has(3) && pdom[0].has(4));
    assert_eq!(direct_control_deps(&cfg, &pdom, 3), vec![0, 2]);
    let stuck = Cfg { succs: vec![vec![2, 1], vec![]], exit: 2 };
    let pdom = post_dominators(&stuck);
    assert!(pdom[1].has(0) && pdom[1].has(2));
    assert!(pdom[0].has(0) && pdom[0].has(2) && !pdom[0].has(1));
}

#[test]
fn dominance_needs_every_way_in() {
    let body = diamond();
    assert!(dominates(&body, 0, 3));
    assert!(dominates(&body, 3, 3));
    assert!(!dominates(&body, 1, 3));
}

#[test]
fn what_is_reached_goes_through_edges() {
    let edges: Vec<(u64, u64)> = vec![(1, 2), (2, 3), (4, 5)];
    let mut seen = reached_from(&edges, 1u64);
    seen.sort();
    assert_eq!(seen, vec![1, 2, 3]);
}

// ---------------------------------------------------------------- constructors

const RESULT: DefId = DefId(0);
const LEVEL: DefId = DefId(1);
const NEW: DefId = DefId(4);
const HELPER: DefId = DefId(5);
const FROM_RESIDUAL: DefId = DefId(6);
const IO_ERROR: DefId = DefId(7);
const OUTSIDE: DefId = DefId(8);

fn definition(name: u32, kind: DefKind) -> Definition {
    Definition {
        name: Symbol(name),
        path: String::new(),
        krate: Symbol(0),
        is_local: true,
        is_exported: false,
        known: Known::Unlisted,
        kind,
        parent: None,
        span: span(500 + name),
        adt: None,
        sig: None,
        self_ty: None,
    }
}

fn level_ty() -> Ty {
    Ty::Adt(LEVEL, vec![])
}

fn byte() -> Ty {
    Ty::Int { bits: 8, signed: false, pointer_sized: false }
}

fn unit() -> Ty {
    Ty::Tuple(vec![])
}

/// `struct Level { value: u8 }` with `fn new(v: u8) -> Result<Level, E>`.
fn defs(error: Ty) -> Definitions {
    let mut result = definition(1, DefKind::Enum);
    result.known = Known::ResultType;
    result.is_local = false;
    let mut level = definition(2, DefKind::Struct);
    level.path = "inner::Level".to_string();
    level.adt = Some(AdtDef {
        kind: AdtKind::Struct,
        variants: vec![VariantDef {
            did: LEVEL,
            name: Symbol(2),
            shape: CtorShape::Braces,
            fields: vec![FieldDef {
                did: DefId(2),
                name: Symbol(3),
                ty: byte(),
                span: span(700),
                visible_in: Some(DefId(9)),
            }],
        }],
        non_exhaustive: false,
        repr: Repr { c: false, packed: false, transparent: false, simd: false, int: false },
        conversions: vec![],
        indexes: false,
        inherent: vec![],
    });
    level.parent = Some(DefId(9));
    let field = definition(3, DefKind::Field);
    let mut imp = definition(0, DefKind::Impl(false));
    imp.self_ty = Some(level_ty());
    imp.parent = Some(DefId(9));
    let mut new = definition(4, DefKind::AssocFn);
    new.parent = Some(DefId(3));
    new.sig = Some(FnSig {
        idents: vec![Some(Symbol(5))],
        inputs: vec![Input { ty: byte(), text: "u8".to_string() }],
        output: Ty::Adt(RESULT, vec![level_ty(), error]),
        is_unsafe: false,
        is_method: false,
    });
    let helper = definition(6, DefKind::Function);
    let mut residual = definition(7, DefKind::AssocFn);
    residual.is_local = false;
    let mut io = definition(8, DefKind::Struct);
    io.is_local = false;
    io.path = "std::io::Error".to_string();
    let mut outside = definition(9, DefKind::Function);
    outside.parent = Some(DefId(10));
    let module = definition(10, DefKind::Module);
    let root = definition(11, DefKind::Module);
    Definitions {
        defs: vec![result, level, field, imp, new, helper, residual, io, outside, module, root],
        names: [
            "", "Result", "Level", "value", "new", "v", "is_low", "from_residual", "Error",
            "outside", "inner", "root",
        ]
        .iter()
        .map(|s| s.to_string())
        .collect(),
    }
}

fn ok() -> Statement {
    Statement::Assign(
        local(0),
        Rvalue::Aggregate(
            AggregateKind::Wrapper(Wrapper::ResultOk, Some(level_ty())),
            vec![Operand::Move(local(3))],
        ),
    )
}

fn fail(error: Ty) -> Statement {
    Statement::Assign(
        local(0),
        Rvalue::Aggregate(
            AggregateKind::Wrapper(Wrapper::ResultErr, Some(error)),
            vec![Operand::Constant],
        ),
    )
}

fn make() -> Statement {
    Statement::Assign(local(3), Rvalue::Aggregate(AggregateKind::Other, vec![copy(1)]))
}

fn tys(error: Ty) -> Vec<Ty> {
    vec![Ty::Adt(RESULT, vec![level_ty(), error]), byte(), Ty::Bool, level_ty()]
}

/// `if v <= 10 { Ok(Level { value: v }) } else { Err(..) }`, or the same with
/// the condition read off something that is not stored.
fn compares(stored: bool, error: fn() -> Ty) -> Body {
    let tested = if stored { copy(1) } else { Operand::Constant };
    Body {
        blocks: vec![
            block(
                vec![Statement::Assign(local(2), Rvalue::BinaryOp(tested, Operand::Constant))],
                switch(2, vec![2, 1]),
                10,
            ),
            block(vec![make(), ok()], TerminatorKind::Goto { target: 3 }, 11),
            block(vec![fail(error())], TerminatorKind::Goto { target: 3 }, 12),
            block(vec![], TerminatorKind::Return, 13),
        ],
        local_tys: tys(error()),
        arg_count: 1,
        tainted_by_errors: false,
    }
}

fn program(error: fn() -> Ty, body: Body) -> Program {
    let mut bodies: Vec<Option<Body>> = (0..11).map(|_| None).collect();
    bodies[NEW.0 as usize] = Some(body);
    Program { defs: defs(error()), bodies }
}

fn io_error() -> Ty {
    Ty::Adt(IO_ERROR, vec![])
}

#[test]
fn a_check_on_the_stored_value_counts() {
    let prog = program(unit, compares(true, unit));
    let checks = checked_fields(&prog, NEW, LEVEL, &vec![]);
    assert_eq!(checks.len(), 1);
    assert_eq!((checks[0].field, checks[0].check), (0, span(10)));
}

#[test]
fn a_check_on_something_else_does_not() {
    let prog = program(unit, compares(false, unit));
    assert!(checked_fields(&prog, NEW, LEVEL, &vec![]).is_empty());
}

#[test]
fn a_refusal_of_the_environment_checks_nothing() {
    let prog = program(io_error, compares(true, io_error));
    assert!(checked_fields(&prog, NEW, LEVEL, &vec![]).is_empty());
}

#[test]
fn a_body_that_never_fails_checks_nothing() {
    let body = Body {
        blocks: vec![block(vec![make(), ok()], TerminatorKind::Return, 1)],
        local_tys: tys(unit()),
        arg_count: 1,
        tainted_by_errors: false,
    };
    let prog = program(unit, body);
    assert!(checked_fields(&prog, NEW, LEVEL, &vec![]).is_empty());
}

/// `if !is_low(v) { return Err(()) }` with the test in a function of its own.
#[test]
fn a_check_in_a_helper_counts() {
    let callee = Callee {
        def: HELPER,
        is_local: true,
        of_trait: None,
        try_fn: None,
        residual: None,
    };
    let body = Body {
        blocks: vec![
            block(
                vec![],
                TerminatorKind::Call {
                    func: Some(callee),
                    args: vec![copy(1)],
                    destination: local(2),
                    target: Some(1),
                },
                20,
            ),
            block(vec![], switch(2, vec![3, 2]), 21),
            block(vec![make(), ok()], TerminatorKind::Goto { target: 4 }, 22),
            block(vec![fail(unit())], TerminatorKind::Goto { target: 4 }, 23),
            block(vec![], TerminatorKind::Return, 24),
        ],
        local_tys: tys(unit()),
        arg_count: 1,
        tainted_by_errors: false,
    };
    let mut prog = program(unit, body);
    prog.bodies[HELPER.0 as usize] = Some(Body {
        blocks: vec![block(
            vec![Statement::Assign(
                local(0),
                Rvalue::BinaryOp(copy(1), Operand::Constant),
            )],
            TerminatorKind::Return,
            30,
        )],
        local_tys: vec![Ty::Bool, byte()],
        arg_count: 1,
        tainted_by_errors: false,
    });
    let checks = checked_fields(&prog, NEW, LEVEL, &vec![]);
    assert_eq!(checks.len(), 1);
    assert_eq!((checks[0].field, checks[0].check), (0, span(21)));
}

fn expr(kind: ExprKind, ty: Ty) -> Expr {
    Expr {
        id: HirId(1),
        span: span(900),
        ty,
        adjusted: unit(),
        arg_texts: vec![],
        ty_text: String::new(),
        pointee_texts: vec![],
        pointee_frozen: true,
        kind,
        origin: Origin {
            from_expansion: false,
            in_derive: false,
            in_external_macro: false,
            for_loop: false,
            macros: vec![],
            from_format: false,
        },
        method: None,
        value_class: None,
        structure: 0,
        shape: 0,
        default_equivalent: false,
        auto_mut_borrow: false,
        snippet: None,
    }
}

fn level_literal() -> Expr {
    let path = QPath {
        type_relative: false,
        has_self: false,
        segments: vec![Symbol(2)],
        res: Res::Def(DefKind::Struct, LEVEL),
        span: span(900),
        text: None,
    };
    let value = expr(ExprKind::Lit(Lit { kind: LitKind::Int(3), text: "3".to_string() }), byte());
    expr(
        ExprKind::Struct(
            path,
            vec![FieldInit { name: Symbol(3), value }],
            StructTail::Nothing,
        ),
        level_ty(),
    )
}

#[test]
fn a_literal_around_a_validator_is_reported() {
    let prog = program(unit, compares(true, unit));
    let mut lint = BypassedValidator::new(&MordantConfig::default());
    lint.check_impl_item(&prog, NEW);
    lint.check_expr(&prog.defs, OUTSIDE, &level_literal());
    let found = lint.check_crate_post(&prog.defs);
    assert_eq!(found.len(), 1, "{found:?}");
    assert_eq!(
        found[0].message,
        "`inner::Level` is constructed by literal here, but `Level::new` checks `value` before constructing one"
    );
    assert_eq!(found[0].at, span(900));
}

#[test]
fn a_types_own_code_may_use_its_literal() {
    let prog = program(unit, compares(true, unit));
    let mut lint = BypassedValidator::new(&MordantConfig::default());
    lint.check_impl_item(&prog, NEW);
    lint.check_expr(&prog.defs, NEW, &level_literal());
    assert!(lint.check_crate_post(&prog.defs).is_empty());
}

#[test]
fn a_checked_field_open_to_others_is_reported() {
    let mut prog = program(unit, compares(true, unit));
    if let Some(a) = &mut prog.defs.defs[1].adt {
        a.variants[0].fields[0].visible_in = None;
    }
    let mut lint = BypassedValidator::new(&MordantConfig::default());
    lint.check_impl_item(&prog, NEW);
    let found = lint.check_crate_post(&prog.defs);
    assert_eq!(found.len(), 1, "{found:?}");
    assert_eq!(
        found[0].message,
        "`Level::new` rejects some values of `value` before storing it, but the field is assignable outside its module"
    );
    assert_eq!(found[0].at, span(700));
}

/// `?` on a conversion fails, and `FromResidual` passes the failure on.
#[test]
fn a_failure_passed_on_checks_what_was_converted() {
    let callee = Callee {
        def: FROM_RESIDUAL,
        is_local: false,
        of_trait: None,
        try_fn: Some(TryFn::FromResidual),
        residual: Some(Ty::Adt(RESULT, vec![Ty::Never, unit()])),
    };
    let body = Body {
        blocks: vec![
            block(
                vec![Statement::Assign(
                    local(2),
                    Rvalue::BinaryOp(copy(1), Operand::Constant),
                )],
                switch(2, vec![2, 1]),
                40,
            ),
            block(vec![make(), ok()], TerminatorKind::Goto { target: 3 }, 41),
            block(
                vec![],
                TerminatorKind::Call {
                    func: Some(callee),
                    args: vec![Operand::Constant],
                    destination: local(0),
                    target: Some(3),
                },
                42,
            ),
            block(vec![], TerminatorKind::Return, 43),
        ],
        local_tys: tys(unit()),
        arg_count: 1,
        tainted_by_errors: false,
    };
    let prog = program(unit, body);
    let checks = checked_fields(&prog, NEW, LEVEL, &vec![]);
    assert_eq!(checks.len(), 1);
    assert_eq!((checks[0].field, checks[0].check), (0, span(40)));
}
