//! A function body as the control-flow graph the compiler lowers it to,
//! holding what the flow analyses read.

use crate::ids::{DefId, Span};
use crate::ty::Ty;
use vstd::prelude::*;

verus! {

/// One step from a place into a part of it.
#[derive(Clone, Copy, Debug)]
pub enum ProjElem {
    Field(u32),
    Deref,
    Downcast,
    Index(usize),
    ConstantIndex,
    Subslice,
    /// Any projection the analyses do not model.
    Opaque,
}

/// A local and the projections applied to it.
#[derive(Debug)]
pub struct Place {
    pub local: usize,
    pub projection: Vec<ProjElem>,
}

#[derive(Debug)]
pub enum Operand {
    Copy(Place),
    Move(Place),
    Constant,
    RuntimeChecks,
}

/// The four variants of `Result` and `Option`.
#[derive(Clone, Copy, Debug, PartialEq, Eq, Structural)]
pub enum Wrapper {
    ResultOk,
    ResultErr,
    OptionSome,
    OptionNone,
}

#[derive(Debug)]
pub enum AggregateKind {
    /// A whole `Result` or `Option` value, with the type of its first operand.
    Wrapper(Wrapper, Option<Ty>),
    /// A closure, with the type its body yields; `None` for the definition
    /// when the closure is not of this crate.
    Closure(Option<DefId>, Ty),
    Other,
}

#[derive(Debug)]
pub enum Rvalue {
    Use(Operand),
    Repeat(Operand),
    Cast(Operand),
    UnaryOp(Operand),
    WrapUnsafeBinder(Operand),
    Ref(bool, Place),
    RawPtr(bool, Place),
    Reborrow(bool, Place),
    CopyForDeref(Place),
    BinaryOp(Operand, Operand),
    Discriminant(Place),
    Aggregate(AggregateKind, Vec<Operand>),
    ThreadLocalRef,
}

#[derive(Debug)]
pub enum Statement {
    Assign(Place, Rvalue),
    Other,
}

/// The trait a called method belongs to, as far as the analyses tell traits
/// apart.
#[derive(Clone, Copy, Debug, PartialEq, Eq, Structural)]
pub enum TraitKind {
    Deref,
    DerefMut,
    Index,
    IndexMut,
    Clone,
    Borrow,
    BorrowMut,
    AsRef,
    AsMut,
    ToOwned,
    Other,
}

/// The two operators `?` lowers to.
#[derive(Clone, Copy, Debug, PartialEq, Eq, Structural)]
pub enum TryFn {
    Branch,
    FromResidual,
}

/// A statically known callee.
#[derive(Debug)]
pub struct Callee {
    pub def: DefId,
    pub is_local: bool,
    pub of_trait: Option<TraitKind>,
    pub try_fn: Option<TryFn>,
    /// For `FromResidual`: the type of the residual.
    pub residual: Option<Ty>,
}

#[derive(Debug)]
pub enum TerminatorKind {
    Goto { target: usize },
    SwitchInt { discr: Operand, targets: Vec<usize> },
    Drop { target: usize },
    Assert { target: usize },
    Call { func: Option<Callee>, args: Vec<Operand>, destination: Place, target: Option<usize> },
    Yield { resume: usize },
    FalseEdge { real_target: usize },
    FalseUnwind { real_target: usize },
    InlineAsm { targets: Vec<usize> },
    Return,
    Unreachable,
    UnwindResume,
    UnwindTerminate,
    CoroutineDrop,
    TailCall,
}

#[derive(Debug)]
pub struct Terminator {
    pub kind: TerminatorKind,
    pub span: Span,
    /// Where control goes besides the normal edges: unwinding, dropping a
    /// suspended coroutine, edges only the borrow checker sees.
    pub other_targets: Vec<usize>,
}

#[derive(Debug)]
pub struct BasicBlock {
    pub statements: Vec<Statement>,
    pub terminator: Option<Terminator>,
    pub is_cleanup: bool,
}

/// A body: its blocks (the first is the entry), the type of each local (the
/// first is the return place, the next `arg_count` are the parameters).
#[derive(Debug)]
pub struct Body {
    pub blocks: Vec<BasicBlock>,
    pub local_tys: Vec<Ty>,
    pub arg_count: usize,
    pub tainted_by_errors: bool,
}

/// The local a function returns through.
pub const RETURN_PLACE: usize = 0;

/// Every block a terminator can pass control to is a block of a body with
/// `n` blocks.
pub open spec fn targets_within(kind: TerminatorKind, n: nat) -> bool {
    match kind {
        TerminatorKind::Goto { target }
        | TerminatorKind::Drop { target }
        | TerminatorKind::Assert { target } => target < n,
        TerminatorKind::SwitchInt { discr, targets } => forall|i: int|
            0 <= i < targets@.len() ==> #[trigger] targets@[i] < n,
        TerminatorKind::InlineAsm { targets } => forall|i: int|
            0 <= i < targets@.len() ==> #[trigger] targets@[i] < n,
        TerminatorKind::Call { func, args, destination, target } => target matches Some(t) ==> t
            < n,
        TerminatorKind::Yield { resume } => resume < n,
        TerminatorKind::FalseEdge { real_target }
        | TerminatorKind::FalseUnwind { real_target } => real_target < n,
        _ => true,
    }
}

/// Control never leaves the body: every successor of a block is a block.
pub open spec fn closed_cfg(body: Body) -> bool {
    forall|b: int|
        0 <= b < body.blocks@.len() ==> ((#[trigger] body.blocks@[b]).terminator matches Some(t)
            ==> targets_within(t.kind, body.blocks@.len()) && forall|i: int|
            0 <= i < t.other_targets@.len() ==> #[trigger] t.other_targets@[i]
                < body.blocks@.len())
}

} // verus!
