//! The control-flow graph of a body, post-dominance and control dependence.

use crate::bits::{lemma_proper_subset_total, total, words_for, Bits};
use crate::mir::{closed_cfg, targets_within, Body, TerminatorKind};
use crate::mir_flow::{
    atom_of, index_locals_of, operand_place, place_info, place_of_operand, Atom, AtomView,
};
use crate::reach::{
    is_walk, lemma_closed_holds_reachable, lemma_root_reachable, lemma_step_reachable, reachable,
};
use vstd::prelude::*;

verus! {

// ---------------------------------------------------------------- edges

/// `b` is a normal (non-unwinding) target of a terminator.
pub open spec fn is_target(kind: TerminatorKind, b: usize) -> bool {
    match kind {
        TerminatorKind::Goto { target }
        | TerminatorKind::Drop { target }
        | TerminatorKind::Assert { target } => target == b,
        TerminatorKind::SwitchInt { discr, targets } => targets@.contains(b),
        TerminatorKind::InlineAsm { targets } => targets@.contains(b),
        TerminatorKind::Call { func, args, destination, target } => target == Some(b),
        TerminatorKind::Yield { resume } => resume == b,
        TerminatorKind::FalseEdge { real_target }
        | TerminatorKind::FalseUnwind { real_target } => real_target == b,
        _ => false,
    }
}

/// Block `a` ends by passing control to block `b`, and `b` is no cleanup
/// block.
pub open spec fn leads_to(body: Body, a: usize, b: usize) -> bool {
    &&& a < body.blocks@.len()
    &&& b < body.blocks@.len()
    &&& body.blocks@[a as int].terminator matches Some(t) && is_target(t.kind, b)
    &&& !body.blocks@[b as int].is_cleanup
}

/// A normal edge: neither end is a cleanup block.
pub open spec fn edge(body: Body, a: usize, b: usize) -> bool {
    leads_to(body, a, b) && !body.blocks@[a as int].is_cleanup
}

/// Block `b` leaves the function normally.
pub open spec fn leaves(body: Body, b: usize) -> bool {
    &&& b < body.blocks@.len()
    &&& body.blocks@[b as int].terminator matches Some(t) && (t.kind is Return || t.kind
        is TailCall)
}

/// Some walk along normal edges leads from `b` to a block that returns.
pub open spec fn can_return(body: Body, b: usize) -> bool {
    reachable(back_edges(body), returning(body), b)
}

/// The normal edges, turned round.
pub open spec fn back_edges(body: Body) -> spec_fn(usize, usize) -> bool {
    |x: usize, y: usize| edge(body, y, x)
}

/// The blocks that return.
pub open spec fn returning(body: Body) -> Set<usize> {
    Set::new(|b: usize| leaves(body, b))
}

/// Ascending, with nothing twice.
pub open spec fn ascending(s: Seq<usize>) -> bool {
    forall|i: int, j: int| 0 <= i < j < s.len() ==> s[i] < s[j]
}

/// The body's graph over normal (non-unwind) edges, with every block that
/// cannot reach a `return` pruned: a panic, abort or `unreachable!()` is
/// "does not happen" here, otherwise everything after `assert!(x)` would be
/// control-dependent on `x`.
#[derive(Debug)]
pub struct Cfg {
    pub succs: Vec<Vec<usize>>,
    /// Index of the virtual exit node.
    pub exit: usize,
}

impl Cfg {
    /// `s` is a successor of `b`.
    pub open spec fn steps(self, b: usize, s: usize) -> bool {
        b < self.exit && self.succs@[b as int]@.contains(s)
    }

    /// Every block has a list of successors, each a block or the exit.
    pub open spec fn bounded(self) -> bool {
        &&& self.exit < usize::MAX
        &&& self.exit <= self.succs@.len()
        &&& forall|b: int, i: int|
            0 <= b < self.exit && 0 <= i < self.succs@[b]@.len() ==> #[trigger] self.succs@[b]@[i]
                <= self.exit
    }

    /// Every block has successors, in ascending order, each a block or the
    /// exit.
    pub open spec fn valid(self) -> bool {
        &&& self.bounded()
        &&& self.succs@.len() == self.exit
        &&& forall|b: int|
            0 <= b < self.exit ==> {
                &&& (#[trigger] self.succs@[b])@.len() > 0
                &&& ascending(self.succs@[b]@)
            }
    }

    /// The graph of `body`: a block's successors are the blocks it leads to
    /// from which the function can return, or the exit where there is none.
    pub open spec fn graph_of(self, body: Body) -> bool {
        &&& self.exit == body.blocks@.len()
        &&& forall|b: usize, s: usize|
            b < self.exit ==> (#[trigger] self.steps(b, s) <==> if s < self.exit {
                edge(body, b, s) && can_return(body, s)
            } else {
                s == self.exit && forall|t: usize|
                    edge(body, b, t) ==> !#[trigger] can_return(body, t)
            })
    }
}

/// Inserts `x` into an ascending vector, unless it is there.
pub fn insert_ascending(v: &mut Vec<usize>, x: usize)
    requires
        ascending(old(v)@),
    ensures
        ascending(final(v)@),
        forall|y: usize| #[trigger] final(v)@.contains(y) <==> old(v)@.contains(y) || y == x,
{
    let ghost before = v@;
    let mut i: usize = 0;
    while i < v.len() && v[i] < x
        invariant
            i <= v@.len(),
            v@ == before,
            ascending(before),
            forall|j: int| 0 <= j < i ==> before[j] < x,
        decreases v.len() - i,
    {
        i = i + 1;
    }
    if i < v.len() && v[i] == x {
        assert(before.contains(x));
        return ;
    }
    v.insert(i, x);
    proof {
        let after = v@;
        assert(after == before.insert(i as int, x));
        assert forall|y: usize| #[trigger] after.contains(y) <==> before.contains(y) || y == x by {
            if before.contains(y) {
                let k = choose|k: int| 0 <= k < before.len() && before[k] == y;
                if k < i {
                    assert(after[k] == y);
                } else {
                    assert(after[k + 1] == y);
                }
            }
            assert(after[i as int] == x);
            if after.contains(y) && y != x {
                let k = choose|k: int| 0 <= k < after.len() && after[k] == y;
                if k < i {
                    assert(before[k] == y);
                } else {
                    assert(before[k - 1] == y);
                }
            }
        }
    }
}

/// The blocks that block `bb` leads to, ascending.
pub fn raw_successors(body: &Body, bb: usize) -> (r: Vec<usize>)
    requires
        closed_cfg(*body),
        bb < body.blocks@.len(),
    ensures
        ascending(r@),
        forall|b: usize| #[trigger] r@.contains(b) <==> leads_to(*body, bb, b),
{
    let mut v: Vec<usize> = Vec::new();
    match &body.blocks[bb].terminator {
        None => {},
        Some(term) => {
            match &term.kind {
                TerminatorKind::Goto { target }
                | TerminatorKind::Drop { target }
                | TerminatorKind::Assert { target } => {
                    if !body.blocks[*target].is_cleanup {
                        insert_ascending(&mut v, *target);
                    }
                },
                TerminatorKind::SwitchInt { discr, targets } => {
                    v = normal_ones(body, targets);
                },
                TerminatorKind::InlineAsm { targets } => {
                    v = normal_ones(body, targets);
                },
                TerminatorKind::Call { func, args, destination, target } => {
                    match target {
                        Some(t) => {
                            if !body.blocks[*t].is_cleanup {
                                insert_ascending(&mut v, *t);
                            }
                        },
                        None => {},
                    }
                },
                TerminatorKind::Yield { resume } => {
                    if !body.blocks[*resume].is_cleanup {
                        insert_ascending(&mut v, *resume);
                    }
                },
                TerminatorKind::FalseEdge { real_target }
                | TerminatorKind::FalseUnwind { real_target } => {
                    if !body.blocks[*real_target].is_cleanup {
                        insert_ascending(&mut v, *real_target);
                    }
                },
                TerminatorKind::Return
                | TerminatorKind::Unreachable
                | TerminatorKind::UnwindResume
                | TerminatorKind::UnwindTerminate
                | TerminatorKind::CoroutineDrop
                | TerminatorKind::TailCall => {},
            }
        },
    }
    v
}

/// The targets that are no cleanup blocks, ascending.
fn normal_ones(body: &Body, targets: &Vec<usize>) -> (r: Vec<usize>)
    requires
        forall|i: int| 0 <= i < targets@.len() ==> #[trigger] targets@[i] < body.blocks@.len(),
    ensures
        ascending(r@),
        forall|b: usize| #[trigger]
            r@.contains(b) <==> targets@.contains(b) && !body.blocks@[b as int].is_cleanup,
{
    let mut v: Vec<usize> = Vec::new();
    let mut i: usize = 0;
    while i < targets.len()
        invariant
            i <= targets@.len(),
            forall|k: int| 0 <= k < targets@.len() ==> #[trigger] targets@[k] < body.blocks@.len(),
            ascending(v@),
            forall|b: usize| #[trigger]
                v@.contains(b) <==> targets@.take(i as int).contains(b)
                    && !body.blocks@[b as int].is_cleanup,
        decreases targets.len() - i,
    {
        let t: usize = targets[i];
        if !body.blocks[t].is_cleanup {
            insert_ascending(&mut v, t);
        }
        proof {
            let shorter = targets@.take(i as int);
            let longer = targets@.take(i + 1);
            assert(longer == shorter.push(t));
            assert forall|b: usize| longer.contains(b) <==> shorter.contains(b) || b == t by {
                assert(longer[i as int] == t);
                if shorter.contains(b) {
                    let k = choose|k: int| 0 <= k < shorter.len() && shorter[k] == b;
                    assert(longer[k] == b);
                }
            }
        }
        i = i + 1;
    }
    assert(targets@.take(targets@.len() as int) == targets@);
    v
}

fn block_returns(body: &Body, b: usize) -> (r: bool)
    requires
        b < body.blocks@.len(),
    ensures
        r == leaves(*body, b),
{
    match &body.blocks[b].terminator {
        Some(t) => match &t.kind {
            TerminatorKind::Return | TerminatorKind::TailCall => true,
            _ => false,
        },
        None => false,
    }
}

/// How many entries are false.
pub open spec fn unset(flags: Seq<bool>) -> nat
    decreases flags.len(),
{
    if flags.len() == 0 {
        0
    } else {
        unset(flags.drop_last()) + if flags.last() {
            0nat
        } else {
            1nat
        }
    }
}

/// Setting an entry leaves one fewer false.
pub proof fn lemma_set_one(flags: Seq<bool>, i: int)
    requires
        0 <= i < flags.len(),
        !flags[i],
    ensures
        unset(flags.update(i, true)) + 1 == unset(flags),
    decreases flags.len(),
{
    let after = flags.update(i, true);
    if i == flags.len() - 1 {
        assert(after.drop_last() == flags.drop_last());
    } else {
        lemma_set_one(flags.drop_last(), i);
        assert(after.drop_last() == flags.drop_last().update(i, true));
        assert(after.last() == flags.last());
    }
}

/// Which blocks the function can return from.
fn returnable(body: &Body, raw: &Vec<Vec<usize>>) -> (r: Vec<bool>)
    requires
        raw@.len() == body.blocks@.len(),
        forall|b: usize, s: usize|
            b < raw@.len() ==> (#[trigger] raw@[b as int]@.contains(s) <==> edge(*body, b, s)),
    ensures
        r@.len() == body.blocks@.len(),
        forall|b: usize| b < r@.len() ==> #[trigger] r@[b as int] == can_return(*body, b),
{
    let n: usize = raw.len();
    let mut flags: Vec<bool> = Vec::new();
    let mut b: usize = 0;
    while b < n
        invariant
            b <= n == body.blocks@.len(),
            flags@.len() == b,
            forall|i: usize| i < b ==> #[trigger] flags@[i as int] == leaves(*body, i),
        decreases n - b,
    {
        flags.push(block_returns(body, b));
        b = b + 1;
    }
    proof {
        assert forall|i: usize| i < n && #[trigger] flags@[i as int] implies can_return(
            *body,
            i,
        ) by {
            lemma_root_reachable(back_edges(*body), returning(*body), i);
        }
    }
    let mut changed = true;
    while changed
        invariant
            n == body.blocks@.len() == raw@.len() == flags@.len(),
            forall|b: usize, s: usize|
                b < raw@.len() ==> (#[trigger] raw@[b as int]@.contains(s) <==> edge(*body, b, s)),
            forall|i: usize| i < n && leaves(*body, i) ==> #[trigger] flags@[i as int],
            forall|i: usize| i < n && #[trigger] flags@[i as int] ==> can_return(*body, i),
            !changed ==> forall|x: usize, s: usize|
                x < n && #[trigger] edge(*body, x, s) && flags@[s as int] ==> flags@[x as int],
        decreases unset(flags@), (if changed { 1nat } else { 0nat }),
    {
        changed = false;
        let ghost at_start = flags@;
        b = 0;
        while b < n
            invariant
                b <= n,
                n == body.blocks@.len() == raw@.len() == flags@.len(),
                forall|b: usize, s: usize|
                    b < raw@.len() ==> (#[trigger] raw@[b as int]@.contains(s) <==> edge(
                        *body,
                        b,
                        s,
                    )),
                forall|i: usize| i < n && leaves(*body, i) ==> #[trigger] flags@[i as int],
                forall|i: usize| i < n && #[trigger] flags@[i as int] ==> can_return(*body, i),
                !changed ==> flags@ == at_start,
                changed ==> unset(flags@) < unset(at_start),
                !changed ==> forall|x: usize, s: usize|
                    x < b && #[trigger] edge(*body, x, s) && flags@[s as int] ==> flags@[x as int],
            decreases n - b,
        {
            if !flags[b] {
                let mut any = false;
                let mut j: usize = 0;
                while j < raw[b].len()
                    invariant
                        b < n == raw@.len() == flags@.len() == body.blocks@.len(),
                        j <= raw@[b as int]@.len(),
                        forall|s: usize| #[trigger]
                            raw@[b as int]@.contains(s) <==> edge(*body, b, s),
                        any <==> exists|k: int|
                            0 <= k < j && flags@[#[trigger] raw@[b as int]@[k] as int],
                    decreases raw@[b as int]@.len() - j,
                {
                    assert(raw@[b as int]@.contains(raw@[b as int]@[j as int]));
                    any = any || flags[raw[b][j]];
                    j = j + 1;
                }
                if any {
                    proof {
                        let k = choose|k: int|
                            0 <= k < j && flags@[#[trigger] raw@[b as int]@[k] as int];
                        let s = raw@[b as int]@[k];
                        assert(raw@[b as int]@.contains(s));
                        lemma_step_reachable(back_edges(*body), returning(*body), s, b);
                        lemma_set_one(flags@, b as int);
                    }
                    flags.set(b, true);
                    changed = true;
                } else {
                    proof {
                        assert forall|s: usize| #[trigger] edge(*body, b, s) implies !flags@[s as int] by {
                            assert(raw@[b as int]@.contains(s));
                            let k = choose|k: int|
                                0 <= k < raw@[b as int]@.len() && raw@[b as int]@[k] == s;
                            assert(raw@[b as int]@[k] == s);
                        }
                    }
                }
            }
            b = b + 1;
        }
    }
    proof {
        assert forall|i: usize| i < n implies #[trigger] flags@[i as int] == can_return(
            *body,
            i,
        ) by {
            if can_return(*body, i) {
                let closed = Set::new(|x: usize| x < n && flags@[x as int]);
                lemma_closed_holds_reachable(back_edges(*body), returning(*body), closed, i);
            }
        }
    }
    flags
}

/// The graph of a body.
pub fn build_cfg(body: &Body) -> (r: Cfg)
    requires
        closed_cfg(*body),
        body.blocks@.len() < usize::MAX,
    ensures
        r.valid(),
        r.graph_of(*body),
{
    let n: usize = body.blocks.len();
    let mut raw: Vec<Vec<usize>> = Vec::new();
    let mut b: usize = 0;
    while b < n
        invariant
            b <= n == body.blocks@.len(),
            closed_cfg(*body),
            raw@.len() == b,
            forall|x: usize| x < b ==> ascending(#[trigger] raw@[x as int]@),
            forall|x: usize, s: usize|
                x < b ==> (#[trigger] raw@[x as int]@.contains(s) <==> edge(*body, x, s)),
        decreases n - b,
    {
        if body.blocks[b].is_cleanup {
            raw.push(Vec::new());
        } else {
            raw.push(raw_successors(body, b));
        }
        b = b + 1;
    }
    let flags = returnable(body, &raw);
    let mut succs: Vec<Vec<usize>> = Vec::new();
    b = 0;
    while b < n
        invariant
            b <= n == body.blocks@.len() == raw@.len() == flags@.len() < usize::MAX,
            forall|x: usize| x < n ==> ascending(#[trigger] raw@[x as int]@),
            forall|x: usize, s: usize|
                x < n ==> (#[trigger] raw@[x as int]@.contains(s) <==> edge(*body, x, s)),
            forall|b: usize| b < n ==> #[trigger] flags@[b as int] == can_return(*body, b),
            succs@.len() == b,
            forall|x: int|
                0 <= x < b ==> {
                    &&& (#[trigger] succs@[x])@.len() > 0
                    &&& ascending(succs@[x]@)
                    &&& forall|i: int| 0 <= i < succs@[x]@.len() ==> #[trigger] succs@[x]@[i] <= n
                },
            forall|x: usize, s: usize|
                x < b ==> (#[trigger] succs@[x as int]@.contains(s) <==> if s < n {
                    edge(*body, x, s) && can_return(*body, s)
                } else {
                    s == n && forall|t: usize|
                        edge(*body, x, t) ==> !#[trigger] can_return(*body, t)
                }),
        decreases n - b,
    {
        let live = live_ones(&raw[b], &flags, Ghost(*body), b);
        let ghost before = succs@;
        if live.len() == 0 {
            let only: Vec<usize> = vec![n];
            proof {
                assert(only@ == seq![n]);
                assert forall|s: usize| only@.contains(s) <==> s == n by {
                    assert(only@[0] == n);
                }
                assert forall|t: usize| edge(*body, b, t) implies !#[trigger] can_return(
                    *body,
                    t,
                ) by {
                    assert(!live@.contains(t));
                }
            }
            succs.push(only);
        } else {
            proof {
                let t = live@[0];
                assert(live@.contains(t));
                assert(edge(*body, b, t) && can_return(*body, t));
                assert forall|i: int| 0 <= i < live@.len() implies #[trigger] live@[i] <= n by {
                    assert(live@.contains(live@[i]));
                }
                assert forall|s: usize| s >= n implies !live@.contains(s) by {}
            }
            succs.push(live);
        }
        b = b + 1;
    }
    let r = Cfg { succs, exit: n };
    proof {
        assert forall|b: usize, s: usize| b < r.exit implies (#[trigger] r.steps(b, s) <==> if s
            < r.exit {
            edge(*body, b, s) && can_return(*body, s)
        } else {
            s == r.exit && forall|t: usize| edge(*body, b, t) ==> !#[trigger] can_return(*body, t)
        }) by {
            assert(r.steps(b, s) == r.succs@[b as int]@.contains(s));
        }
    }
    r
}

/// Of a block's raw successors, those the function can return from.
fn live_ones(raw: &Vec<usize>, flags: &Vec<bool>, Ghost(body): Ghost<Body>, b: usize) -> (r: Vec<
    usize,
>)
    requires
        flags@.len() == body.blocks@.len(),
        ascending(raw@),
        forall|s: usize| #[trigger] raw@.contains(s) <==> edge(body, b, s),
        forall|s: usize| s < flags@.len() ==> #[trigger] flags@[s as int] == can_return(body, s),
    ensures
        ascending(r@),
        forall|s: usize| #[trigger]
            r@.contains(s) <==> edge(body, b, s) && can_return(body, s),
{
    let mut live: Vec<usize> = Vec::new();
    let mut i: usize = 0;
    while i < raw.len()
        invariant
            i <= raw@.len(),
            flags@.len() == body.blocks@.len(),
            ascending(raw@),
            forall|s: usize| #[trigger] raw@.contains(s) <==> edge(body, b, s),
            forall|s: usize|
                s < flags@.len() ==> #[trigger] flags@[s as int] == can_return(body, s),
            ascending(live@),
            forall|k: int|
                0 <= k < live@.len() ==> raw@.take(i as int).contains(#[trigger] live@[k])
                    && can_return(body, live@[k]),
            forall|k: int|
                0 <= k < i && can_return(body, #[trigger] raw@[k]) ==> live@.contains(raw@[k]),
        decreases raw.len() - i,
    {
        let t: usize = raw[i];
        assert(raw@.contains(t));
        let ghost before = live@;
        let ghost seen = raw@.take(i as int);
        let ghost seen_next = raw@.take(i + 1);
        proof {
            assert forall|x: usize| seen.contains(x) implies seen_next.contains(x) && x < t by {
                let k = choose|k: int| 0 <= k < seen.len() && seen[k] == x;
                assert(raw@[k] == x && seen_next[k] == x);
            }
            assert(seen_next[i as int] == t);
        }
        if flags[t] {
            live.push(t);
            proof {
                assert(live@[before.len() as int] == t);
                assert forall|x: usize| before.contains(x) implies live@.contains(x) by {
                    let k = choose|k: int| 0 <= k < before.len() && before[k] == x;
                    assert(live@[k] == x);
                }
            }
        }
        i = i + 1;
    }
    proof {
        assert(raw@.take(raw@.len() as int) == raw@);
        assert forall|s: usize| #[trigger] live@.contains(s) <==> edge(body, b, s) && can_return(
            body,
            s,
        ) by {
            if edge(body, b, s) && can_return(body, s) {
                assert(raw@.contains(s));
                let k = choose|k: int| 0 <= k < raw@.len() && raw@[k] == s;
                assert(live@.contains(raw@[k]));
            }
        }
    }
    live
}

// ---------------------------------------------------------------- post-dominance

/// `path` walks the graph from `b` to the exit.
pub open spec fn exit_walk(cfg: Cfg, b: usize, path: Seq<usize>) -> bool {
    &&& path.len() > 0
    &&& path[0] == b
    &&& path.last() == cfg.exit
    &&& forall|i: int| #![trigger path[i]] 0 <= i < path.len() - 1 ==> cfg.steps(path[i], path[i + 1])
}

/// Every walk from `b` to the exit passes through `x`.
pub open spec fn post_dominates(cfg: Cfg, x: usize, b: usize) -> bool {
    forall|path: Seq<usize>| #[trigger] exit_walk(cfg, b, path) ==> path.contains(x)
}

/// `pdom` holds the post-dominators of every block and of the exit.
pub open spec fn post_dominator_sets(cfg: Cfg, pdom: Seq<Bits>) -> bool {
    &&& pdom.len() == cfg.exit + 1
    &&& forall|b: usize|
        b <= cfg.exit ==> {
            &&& (#[trigger] pdom[b as int]).sized((cfg.exit + 1) as nat)
            &&& forall|x: usize|
                x <= cfg.exit ==> (#[trigger] pdom[b as int].contains(x as int) <==> post_dominates(
                    cfg,
                    x,
                    b,
                ))
        }
}

/// `x` is in the set that the successors of `b` give it.
spec fn given(cfg: Cfg, pdom: Seq<Bits>, b: usize, x: int) -> bool {
    x == b || (0 <= x <= cfg.exit && forall|s: usize|
        #[trigger] cfg.steps(b, s) ==> pdom[s as int].contains(x))
}

spec fn set_total(pdom: Seq<Bits>) -> nat
    decreases pdom.len(),
{
    if pdom.len() == 0 {
        0
    } else {
        set_total(pdom.drop_last()) + total(pdom.last().words@)
    }
}

proof fn lemma_set_total_update(pdom: Seq<Bits>, i: int, b: Bits)
    requires
        0 <= i < pdom.len(),
        total(b.words@) < total(pdom[i].words@),
    ensures
        set_total(pdom.update(i, b)) < set_total(pdom),
    decreases pdom.len(),
{
    let after = pdom.update(i, b);
    if i == pdom.len() - 1 {
        assert(after.drop_last() == pdom.drop_last());
    } else {
        lemma_set_total_update(pdom.drop_last(), i, b);
        assert(after.drop_last() == pdom.drop_last().update(i, b));
        assert(after.last() == pdom.last());
    }
}

/// What every walk from `b` meets, every walk from its successors meets,
/// or it is `b`.
proof fn lemma_post_dominates_step(cfg: Cfg, x: usize, b: usize, s: usize)
    requires
        cfg.steps(b, s),
        post_dominates(cfg, x, b),
        x != b,
    ensures
        post_dominates(cfg, x, s),
{
    assert forall|path: Seq<usize>| #[trigger] exit_walk(cfg, s, path) implies path.contains(x) by {
        let longer = seq![b] + path;
        assert forall|i: int| #![trigger longer[i]] 0 <= i < longer.len() - 1 implies cfg.steps(
            longer[i],
            longer[i + 1],
        ) by {
            if i > 0 {
                assert(longer[i] == path[i - 1] && longer[i + 1] == path[i - 1 + 1]);
            } else {
                assert(longer[1] == path[0]);
            }
        }
        assert(longer.last() == path.last());
        assert(exit_walk(cfg, b, longer));
        let k = choose|k: int| 0 <= k < longer.len() && longer[k] == x;
        assert(path[k - 1] == x);
    }
}

/// Sets that each follow from their successors' sets hold only
/// post-dominators.
proof fn lemma_fixpoint_sound(cfg: Cfg, pdom: Seq<Bits>, b: usize, x: usize, path: Seq<usize>)
    requires
        pdom.len() == cfg.exit + 1,
        forall|c: usize, y: int|
            c < cfg.exit && #[trigger] pdom[c as int].contains(y) ==> given(cfg, pdom, c, y),
        forall|y: int| #[trigger] pdom[cfg.exit as int].contains(y) ==> y == cfg.exit,
        b <= cfg.exit,
        pdom[b as int].contains(x as int),
        exit_walk(cfg, b, path),
    ensures
        path.contains(x),
    decreases path.len(),
{
    assert(path[0] == b);
    if b == cfg.exit {
        assert(path[0] == x);
    } else if x != b {
        assert(path.len() > 1);
        let s = path[1];
        assert(cfg.steps(path[0], path[0int + 1]));
        let rest = path.drop_first();
        assert forall|i: int| #![trigger rest[i]] 0 <= i < rest.len() - 1 implies cfg.steps(
            rest[i],
            rest[i + 1],
        ) by {
            assert(rest[i] == path[i + 1] && rest[i + 1] == path[i + 1 + 1]);
        }
        assert(given(cfg, pdom, b, x as int));
        assert(pdom[s as int].contains(x as int));
        assert(s <= cfg.exit) by {
            if s != cfg.exit {
                assert(rest[0] == s && rest.len() > 1) by {
                    if rest.len() == 1 {
                        assert(rest[0] == path.last());
                    }
                }
                assert(cfg.steps(rest[0], rest[0int + 1]));
            }
        }
        assert(rest.last() == path.last());
        lemma_fixpoint_sound(cfg, pdom, s, x, rest);
        let k = choose|k: int| 0 <= k < rest.len() && rest[k] == x;
        assert(path[k + 1] == x);
    }
}

/// The intersection of the successors' sets, and the block itself.
fn meet_of_successors(cfg: &Cfg, pdom: &Vec<Bits>, b: usize) -> (r: Bits)
    requires
        cfg.bounded(),
        b < cfg.exit,
        pdom@.len() == cfg.exit + 1,
        forall|c: usize|
            c <= cfg.exit ==> (#[trigger] pdom@[c as int]).sized((cfg.exit + 1) as nat),
    ensures
        r.sized((cfg.exit + 1) as nat),
        forall|x: int| #[trigger] r.contains(x) <==> given(*cfg, pdom@, b, x),
{
    let n: usize = cfg.exit;
    let mut acc = Bits::full(n + 1);
    let ghost mine = cfg.succs@[b as int]@;
    let mut j: usize = 0;
    while j < cfg.succs[b].len()
        invariant
            n == cfg.exit,
            cfg.bounded(),
            b < cfg.exit,
            mine == cfg.succs@[b as int]@,
            j <= mine.len(),
            pdom@.len() == cfg.exit + 1,
            forall|c: usize|
                c <= cfg.exit ==> (#[trigger] pdom@[c as int]).sized((cfg.exit + 1) as nat),
            acc.sized((n + 1) as nat),
            forall|x: int| #[trigger]
                acc.contains(x) <==> 0 <= x <= n && forall|k: int|
                    0 <= k < j ==> pdom@[#[trigger] mine[k] as int].contains(x),
        decreases mine.len() - j,
    {
        let s: usize = cfg.succs[b][j];
        assert(mine[j as int] <= cfg.exit);
        assert(pdom@[s as int].sized((n + 1) as nat));
        acc.and_assign(&pdom[s]);
        j = j + 1;
    }
    let ghost met = acc;
    assert(b < 64 * words_for((n + 1) as nat));
    acc.set(b);
    proof {
        assert forall|x: int| #[trigger] acc.contains(x) <==> given(*cfg, pdom@, b, x) by {
            assert(acc.contains(x) == (met.contains(x) || x == b));
            if met.contains(x) {
                assert forall|s: usize| #[trigger] cfg.steps(b, s) implies pdom@[s as int].contains(
                    x,
                ) by {
                    let k = choose|k: int| 0 <= k < mine.len() && mine[k] == s;
                    assert(mine[k] == s);
                }
            }
            if given(*cfg, pdom@, b, x) && x != b {
                assert forall|k: int| 0 <= k < mine.len() implies pdom@[#[trigger] mine[k] as int].contains(
                    x,
                ) by {
                    assert(cfg.steps(b, mine[k]));
                }
            }
        }
    }
    acc
}

/// Post-dominator sets over blocks plus the virtual exit.
pub fn post_dominators(cfg: &Cfg) -> (r: Vec<Bits>)
    requires
        cfg.bounded(),
    ensures
        post_dominator_sets(*cfg, r@),
{
    let n: usize = cfg.exit;
    let mut pdom: Vec<Bits> = Vec::new();
    let mut i: usize = 0;
    while i < n
        invariant
            i <= n < usize::MAX,
            pdom@.len() == i,
            forall|c: usize|
                c < i ==> (#[trigger] pdom@[c as int]).sized((n + 1) as nat) && forall|x: int| #[trigger]
                    pdom@[c as int].contains(x) <==> 0 <= x <= n,
        decreases n - i,
    {
        pdom.push(Bits::full(n + 1));
        i = i + 1;
    }
    let mut last = Bits::empty(n + 1);
    assert(n < 64 * words_for((n + 1) as nat));
    last.set(n);
    pdom.push(last);
    proof {
        assert forall|b: usize, x: usize|
            b <= n && x <= n && post_dominates(*cfg, x, b) implies #[trigger] pdom@[b as int].contains(
            x as int,
        ) by {
            if b == n {
                let path = seq![n];
                assert(exit_walk(*cfg, n, path));
                let k = choose|k: int| 0 <= k < path.len() && path[k] == x;
                assert(path[k] == n);
            }
        }
    }
    let mut changed = true;
    while changed
        invariant
            n == cfg.exit,
            cfg.bounded(),
            pdom@.len() == n + 1,
            forall|c: usize| c <= n ==> (#[trigger] pdom@[c as int]).sized((n + 1) as nat),
            forall|y: int| #[trigger] pdom@[n as int].contains(y) <==> y == n,
            forall|b: usize, x: usize|
                b <= n && x <= n && post_dominates(*cfg, x, b)
                    ==> #[trigger] pdom@[b as int].contains(x as int),
            forall|b: usize, x: int|
                b < n && given(*cfg, pdom@, b, x) ==> #[trigger] pdom@[b as int].contains(x),
            !changed ==> forall|b: usize, x: int|
                b < n && #[trigger] pdom@[b as int].contains(x) ==> given(*cfg, pdom@, b, x),
        decreases set_total(pdom@), (if changed { 1nat } else { 0nat }),
    {
        changed = false;
        let ghost at_start = pdom@;
        let mut b: usize = 0;
        while b < n
            invariant
                b <= n,
                n == cfg.exit,
                cfg.bounded(),
                pdom@.len() == n + 1,
                forall|c: usize| c <= n ==> (#[trigger] pdom@[c as int]).sized((n + 1) as nat),
                forall|y: int| #[trigger] pdom@[n as int].contains(y) <==> y == n,
                forall|b: usize, x: usize|
                    b <= n && x <= n && post_dominates(*cfg, x, b)
                        ==> #[trigger] pdom@[b as int].contains(x as int),
                forall|b: usize, x: int|
                    b < n && given(*cfg, pdom@, b, x) ==> #[trigger] pdom@[b as int].contains(x),
                !changed ==> pdom@ == at_start,
                changed ==> set_total(pdom@) < set_total(at_start),
                !changed ==> forall|c: usize, x: int|
                    c < b && #[trigger] pdom@[c as int].contains(x) ==> given(*cfg, pdom@, c, x),
            decreases n - b,
        {
            let acc = meet_of_successors(cfg, &pdom, b);
            let ghost before = pdom@;
            if !acc.same(&pdom[b]) {
                proof {
                    assert forall|x: int| #[trigger] acc.contains(x) implies before[b as int].contains(
                        x,
                    ) by {}
                    lemma_proper_subset_total(acc, before[b as int]);
                    lemma_set_total_update(before, b as int, acc);
                    assert forall|x: usize| x <= n && post_dominates(*cfg, x, b) implies #[trigger] acc.contains(
                        x as int,
                    ) by {
                        if x != b {
                            assert forall|s: usize| #[trigger] cfg.steps(b, s) implies before[s as int].contains(
                                x as int,
                            ) by {
                                lemma_post_dominates_step(*cfg, x, b, s);
                                lemma_steps_within(*cfg, b, s);
                            }
                        }
                    }
                }
                pdom.set(b, acc);
                changed = true;
                proof {
                    let after = pdom@;
                    assert(after == before.update(b as int, acc));
                    assert forall|c: usize, x: int| #[trigger] after[c as int].contains(x) && c
                        <= n implies before[c as int].contains(x) by {}
                    assert forall|c: usize, x: int|
                        c < n && given(*cfg, after, c, x) implies #[trigger] after[c as int].contains(
                        x,
                    ) by {
                        assert(given(*cfg, before, c, x)) by {
                            if x != c {
                                assert forall|s: usize| #[trigger] cfg.steps(c, s) implies before[s as int].contains(
                                    x,
                                ) by {
                                    lemma_steps_within(*cfg, c, s);
                                    assert(after[s as int].contains(x));
                                }
                            }
                        }
                        assert(before[c as int].contains(x));
                    }
                }
            } else {
                assert forall|x: int| #[trigger] pdom@[b as int].contains(x) implies given(
                    *cfg,
                    pdom@,
                    b,
                    x,
                ) by {
                    assert(acc.contains(x));
                }
            }
            b = b + 1;
        }
    }
    proof {
        assert forall|b: usize| b <= n implies {
            &&& (#[trigger] pdom@[b as int]).sized((n + 1) as nat)
            &&& forall|x: usize|
                x <= n ==> (#[trigger] pdom@[b as int].contains(x as int) <==> post_dominates(
                    *cfg,
                    x,
                    b,
                ))
        } by {
            assert forall|x: usize| x <= n implies (#[trigger] pdom@[b as int].contains(x as int)
                <==> post_dominates(*cfg, x, b)) by {
                if pdom@[b as int].contains(x as int) {
                    assert forall|path: Seq<usize>| #[trigger] exit_walk(
                        *cfg,
                        b,
                        path,
                    ) implies path.contains(x) by {
                        lemma_fixpoint_sound(*cfg, pdom@, b, x, path);
                    }
                }
            }
        }
    }
    pdom
}

proof fn lemma_steps_within(cfg: Cfg, b: usize, s: usize)
    requires
        cfg.bounded(),
        cfg.steps(b, s),
    ensures
        s <= cfg.exit,
{
    let mine = cfg.succs@[b as int]@;
    let k = choose|k: int| 0 <= k < mine.len() && mine[k] == s;
    assert(cfg.succs@[b as int]@[k] <= cfg.exit);
}

/// Some walk leads from `b` to the exit.
pub open spec fn reaches_exit(cfg: Cfg, b: usize) -> bool {
    exists|path: Seq<usize>| #[trigger] exit_walk(cfg, b, path)
}

proof fn lemma_reaches_exit_step(cfg: Cfg, b: usize, s: usize)
    requires
        cfg.steps(b, s),
        reaches_exit(cfg, s),
    ensures
        reaches_exit(cfg, b),
{
    let path = choose|path: Seq<usize>| #[trigger] exit_walk(cfg, s, path);
    let longer = seq![b] + path;
    assert forall|i: int| #![trigger longer[i]] 0 <= i < longer.len() - 1 implies cfg.steps(
        longer[i],
        longer[i + 1],
    ) by {
        if i > 0 {
            assert(longer[i] == path[i - 1] && longer[i + 1] == path[i - 1 + 1]);
        } else {
            assert(longer[1] == path[0]);
        }
    }
    assert(longer.last() == path.last());
    assert(exit_walk(cfg, b, longer));
}

proof fn lemma_exit_reaches_itself(cfg: Cfg)
    ensures
        reaches_exit(cfg, cfg.exit),
{
    let path = seq![cfg.exit];
    assert(exit_walk(cfg, cfg.exit, path));
}

proof fn lemma_returnable_reaches_exit(body: Body, cfg: Cfg, path: Seq<usize>)
    requires
        cfg.valid(),
        cfg.graph_of(body),
        is_walk(back_edges(body), returning(body), path),
    ensures
        path.last() < cfg.exit,
        reaches_exit(cfg, path.last()),
    decreases path.len(),
{
    let b = path.last();
    if path.len() == 1 {
        assert(leaves(body, b));
        assert forall|t: usize| edge(body, b, t) implies !#[trigger] can_return(body, t) by {}
        assert(cfg.steps(b, cfg.exit));
        lemma_exit_reaches_itself(cfg);
        lemma_reaches_exit_step(cfg, b, cfg.exit);
    } else {
        let shorter = path.drop_last();
        let s = shorter.last();
        assert forall|i: int| #![trigger shorter[i]] 0 <= i < shorter.len() - 1 implies back_edges(
            body,
        )(shorter[i], shorter[i + 1]) by {
            assert(shorter[i] == path[i] && shorter[i + 1] == path[i + 1]);
        }
        assert(is_walk(back_edges(body), returning(body), shorter));
        lemma_returnable_reaches_exit(body, cfg, shorter);
        assert(back_edges(body)(path[path.len() - 2], path[path.len() - 2 + 1]));
        assert(can_return(body, s));
        assert(cfg.steps(b, s));
        lemma_reaches_exit_step(cfg, b, s);
    }
}

/// From every block of a body's graph some walk leads to the exit: pruning
/// leaves no block that cannot finish, so nothing post-dominates a block
/// vacuously.
pub proof fn lemma_every_block_reaches_exit(body: Body, cfg: Cfg, b: usize)
    requires
        cfg.valid(),
        cfg.graph_of(body),
        b <= cfg.exit,
    ensures
        reaches_exit(cfg, b),
{
    lemma_exit_reaches_itself(cfg);
    if b < cfg.exit {
        let s = cfg.succs@[b as int]@[0];
        assert(cfg.succs@[b as int]@.len() > 0);
        assert(cfg.steps(b, s));
        lemma_steps_within(cfg, b, s);
        if s < cfg.exit {
            assert(can_return(body, s));
            let path = choose|path: Seq<usize>| #[trigger]
                is_walk(back_edges(body), returning(body), path) && path.last() == s;
            lemma_returnable_reaches_exit(body, cfg, path);
        }
        lemma_reaches_exit_step(cfg, b, s);
    }
}

/// Every block post-dominates itself, and the exit post-dominates every
/// block.
pub proof fn lemma_post_dominance_ends(cfg: Cfg, b: usize)
    ensures
        post_dominates(cfg, b, b),
        post_dominates(cfg, cfg.exit, b),
{
    assert forall|path: Seq<usize>| #[trigger] exit_walk(cfg, b, path) implies path.contains(b)
        && path.contains(cfg.exit) by {
        assert(path[0] == b);
        assert(path[path.len() - 1] == cfg.exit);
    }
}

// ---------------------------------------------------------------- control dependence

/// Branch `a` decides whether `t` runs: one of its ways always comes to `t`,
/// and not all of them do.
pub open spec fn decides(cfg: Cfg, a: usize, t: usize) -> bool {
    &&& a < cfg.exit
    &&& cfg.succs@[a as int]@.len() >= 2
    &&& !(post_dominates(cfg, t, a) && a != t)
    &&& exists|s: usize| #[trigger] cfg.steps(a, s) && post_dominates(cfg, t, s)
}

/// The branches below `bound` that decide `t`, ascending.
pub open spec fn deciders(cfg: Cfg, t: usize, bound: nat) -> Seq<usize>
    decreases bound,
{
    if bound == 0 {
        Seq::empty()
    } else {
        let rest = deciders(cfg, t, (bound - 1) as nat);
        if decides(cfg, (bound - 1) as usize, t) {
            rest.push((bound - 1) as usize)
        } else {
            rest
        }
    }
}

/// `deciders` is ascending and holds exactly the deciding branches.
pub proof fn lemma_deciders(cfg: Cfg, t: usize, bound: nat)
    requires
        bound <= cfg.exit,
    ensures
        ascending(deciders(cfg, t, bound)),
        forall|a: usize| #[trigger]
            deciders(cfg, t, bound).contains(a) <==> a < bound && decides(cfg, a, t),
    decreases bound,
{
    if bound > 0 {
        let rest = deciders(cfg, t, (bound - 1) as nat);
        let whole = deciders(cfg, t, bound);
        let last = (bound - 1) as usize;
        lemma_deciders(cfg, t, (bound - 1) as nat);
        assert forall|i: int| 0 <= i < rest.len() implies #[trigger] rest[i] < last by {
            assert(rest.contains(rest[i]));
        }
        assert forall|a: usize| #[trigger] whole.contains(a) <==> a < bound && decides(
            cfg,
            a,
            t,
        ) by {
            if decides(cfg, last, t) {
                assert(whole[rest.len() as int] == last);
                if rest.contains(a) {
                    let k = choose|k: int| 0 <= k < rest.len() && rest[k] == a;
                    assert(whole[k] == a);
                }
                if whole.contains(a) && a != last {
                    let k = choose|k: int| 0 <= k < whole.len() && whole[k] == a;
                    assert(rest[k] == a);
                }
            }
            assert(rest.contains(a) <==> a < bound - 1 && decides(cfg, a, t));
        }
    }
}

/// Branches (`t` not post-dominating them, but post-dominating one of their
/// successors) whose outcome decides whether `t` runs, in block order.
pub fn direct_deps(cfg: &Cfg, pdom: &Vec<Bits>, t: usize) -> (r: Vec<usize>)
    requires
        cfg.bounded(),
        post_dominator_sets(*cfg, pdom@),
        t <= cfg.exit,
    ensures
        r@ == deciders(*cfg, t, cfg.exit as nat),
{
    let mut out: Vec<usize> = Vec::new();
    let mut a: usize = 0;
    assert(t < 64 * words_for((cfg.exit + 1) as nat));
    while a < cfg.exit
        invariant
            a <= cfg.exit,
            cfg.bounded(),
            post_dominator_sets(*cfg, pdom@),
            t <= cfg.exit,
            t < 64 * words_for((cfg.exit + 1) as nat),
            out@ == deciders(*cfg, t, a as nat),
        decreases cfg.exit - a,
    {
        assert(pdom@[a as int].sized((cfg.exit + 1) as nat));
        let always = pdom[a].has(t) && a != t;
        let ghost mine = cfg.succs@[a as int]@;
        let mut some = false;
        let mut j: usize = 0;
        while j < cfg.succs[a].len()
            invariant
                a < cfg.exit,
                cfg.bounded(),
                post_dominator_sets(*cfg, pdom@),
                t <= cfg.exit,
                t < 64 * words_for((cfg.exit + 1) as nat),
                mine == cfg.succs@[a as int]@,
                j <= mine.len(),
                some <==> exists|k: int|
                    0 <= k < j && post_dominates(*cfg, t, #[trigger] mine[k]),
            decreases mine.len() - j,
        {
            let s: usize = cfg.succs[a][j];
            assert(mine[j as int] <= cfg.exit);
            assert(pdom@[s as int].sized((cfg.exit + 1) as nat));
            some = some || pdom[s].has(t);
            j = j + 1;
        }
        proof {
            assert(some <==> exists|s: usize| #[trigger]
                cfg.steps(a, s) && post_dominates(*cfg, t, s)) by {
                if some {
                    let k = choose|k: int|
                        0 <= k < j && post_dominates(*cfg, t, #[trigger] mine[k]);
                    assert(cfg.steps(a, mine[k]));
                }
                if exists|s: usize| #[trigger] cfg.steps(a, s) && post_dominates(*cfg, t, s) {
                    let s = choose|s: usize| #[trigger]
                        cfg.steps(a, s) && post_dominates(*cfg, t, s);
                    let k = choose|k: int| 0 <= k < mine.len() && mine[k] == s;
                    assert(post_dominates(*cfg, t, mine[k]));
                }
            }
        }
        if cfg.succs[a].len() >= 2 && !always && some {
            out.push(a);
        }
        a = a + 1;
    }
    out
}

/// Branch blocks that `target` is directly control-dependent on: the ones
/// whose outcome sends control to `target` or away from it. A branch that
/// only decides whether one of those is reached (an early `return Ok` guard
/// in front of it) is not among them; `control_deps` has those too.
pub fn direct_control_deps(cfg: &Cfg, pdom: &Vec<Bits>, target: usize) -> (r: Vec<usize>)
    requires
        cfg.bounded(),
        post_dominator_sets(*cfg, pdom@),
        target <= cfg.exit,
    ensures
        ascending(r@),
        forall|a: usize| #[trigger] r@.contains(a) <==> decides(*cfg, a, target),
{
    proof {
        lemma_deciders(*cfg, target, cfg.exit as nat);
    }
    direct_deps(cfg, pdom, target)
}

/// `found`, and behind it those of `more` that are not in it yet.
pub open spec fn with_new(found: Seq<usize>, more: Seq<usize>) -> Seq<usize>
    decreases more.len(),
{
    if more.len() == 0 {
        found
    } else {
        let first = with_new(found, more.drop_last());
        if first.contains(more.last()) {
            first
        } else {
            first.push(more.last())
        }
    }
}

/// What `found` grows to when the deciders of its entries from `i` on are
/// added in turn; entry -1 is the target.
pub open spec fn grown(cfg: Cfg, target: usize, found: Seq<usize>, i: int) -> Seq<usize>
    decreases cfg.exit - i,
{
    if i >= found.len() || i >= cfg.exit {
        found
    } else {
        let t = if i < 0 {
            target
        } else {
            found[i]
        };
        grown(cfg, target, with_new(found, deciders(cfg, t, cfg.exit as nat)), i + 1)
    }
}

/// The branches that `target` is transitively control-dependent on, innermost
/// first: its own deciders, then the deciders of each branch found.
pub open spec fn all_deciders(cfg: Cfg, target: usize) -> Seq<usize> {
    grown(cfg, target, Seq::empty(), -1)
}

proof fn lemma_with_new(found: Seq<usize>, more: Seq<usize>)
    requires
        found.no_duplicates(),
    ensures
        with_new(found, more).no_duplicates(),
        forall|x: usize| #[trigger]
            with_new(found, more).contains(x) <==> found.contains(x) || more.contains(x),
        found.len() <= with_new(found, more).len(),
        forall|i: int| 0 <= i < found.len() ==> #[trigger] with_new(found, more)[i] == found[i],
    decreases more.len(),
{
    if more.len() > 0 {
        let first = with_new(found, more.drop_last());
        let all = with_new(found, more);
        lemma_with_new(found, more.drop_last());
        assert forall|x: usize| #[trigger] all.contains(x) <==> found.contains(x) || more.contains(
            x,
        ) by {
            lemma_push_contains(more.drop_last(), more.last(), x);
            assert(more.drop_last().push(more.last()) == more);
            if !first.contains(more.last()) {
                lemma_push_contains(first, more.last(), x);
            }
            assert(first.contains(x) <==> found.contains(x) || more.drop_last().contains(x));
        }
    }
}

/// What a sequence holds once something is pushed.
pub proof fn lemma_push_contains(s: Seq<usize>, a: usize, x: usize)
    ensures
        s.push(a).contains(x) <==> s.contains(x) || x == a,
{
    let t = s.push(a);
    assert(t[s.len() as int] == a);
    if s.contains(x) {
        let k = choose|k: int| 0 <= k < s.len() && s[k] == x;
        assert(t[k] == x);
    }
    if t.contains(x) && x != a {
        let k = choose|k: int| 0 <= k < t.len() && t[k] == x;
        assert(s[k] == x);
    }
}

/// Distinct numbers below `n` are at most `n` many.
pub proof fn lemma_distinct_bounded(s: Seq<usize>, n: nat)
    requires
        s.no_duplicates(),
        forall|i: int| 0 <= i < s.len() ==> #[trigger] s[i] < n,
    ensures
        s.len() <= n,
{
    s.unique_seq_to_set();
    let bound = vstd::set_lib::set_int_range(0, n as int);
    vstd::set_lib::lemma_int_range(0, n as int);
    let mapped = s.to_set().map(|x: usize| x as int);
    s.lemma_cardinality_of_set();
    vstd::set_lib::lemma_map_size(s.to_set(), mapped, |x: usize| x as int);
    assert(mapped.subset_of(bound)) by {
        assert forall|y: int| mapped.contains(y) implies bound.contains(y) by {
            let x = choose|x: usize| s.to_set().contains(x) && x as int == y;
            assert(s.contains(x));
            let k = choose|k: int| 0 <= k < s.len() && s[k] == x;
            assert(s[k] < n);
        }
    }
    vstd::set_lib::lemma_len_subset(mapped, bound);
}

/// Branch blocks that `target` is transitively control-dependent on,
/// innermost first.
pub fn control_deps(cfg: &Cfg, pdom: &Vec<Bits>, target: usize) -> (r: Vec<usize>)
    requires
        cfg.bounded(),
        post_dominator_sets(*cfg, pdom@),
        target <= cfg.exit,
    ensures
        r@ == all_deciders(*cfg, target),
        r@.no_duplicates(),
        forall|a: usize| #[trigger] r@.contains(a) ==> a < cfg.exit,
{
    let mut deps: Vec<usize> = Vec::new();
    let mut t: usize = target;
    // Entries of `deps` whose deciders were added, plus one for the target.
    let mut done: usize = 0;
    loop
        invariant
            cfg.bounded(),
            post_dominator_sets(*cfg, pdom@),
            target <= cfg.exit,
            deps@.no_duplicates(),
            forall|i: int| 0 <= i < deps@.len() ==> #[trigger] deps@[i] < cfg.exit,
            done <= deps@.len(),
            t == (if done == 0 { target } else { deps@[done - 1] }),
            t <= cfg.exit,
            all_deciders(*cfg, target) == grown(*cfg, target, deps@, done - 1),
        decreases cfg.exit - done,
    {
        let more = direct_deps(cfg, pdom, t);
        let ghost before = deps@;
        proof {
            lemma_distinct_bounded(before, cfg.exit as nat);
            lemma_deciders(*cfg, t, cfg.exit as nat);
        }
        let mut j: usize = 0;
        while j < more.len()
            invariant
                j <= more@.len(),
                before.no_duplicates(),
                deps@ == with_new(before, more@.take(j as int)),
            decreases more.len() - j,
        {
            proof {
                assert(more@.take(j + 1).drop_last() == more@.take(j as int));
            }
            if !contains(&deps, more[j]) {
                deps.push(more[j]);
            }
            j = j + 1;
        }
        proof {
            assert(more@.take(more@.len() as int) == more@);
            lemma_with_new(before, more@);
            assert forall|i: int| 0 <= i < deps@.len() implies #[trigger] deps@[i] < cfg.exit by {
                assert(with_new(before, more@).contains(deps@[i]));
                if before.contains(deps@[i]) {
                    let k = choose|k: int| 0 <= k < before.len() && before[k] == deps@[i];
                    assert(before[k] < cfg.exit);
                }
            }
            lemma_distinct_bounded(deps@, cfg.exit as nat);
            assert(all_deciders(*cfg, target) == grown(*cfg, target, deps@, done as int));
        }
        if done >= deps.len() {
            return deps;
        }
        t = deps[done];
        done = done + 1;
    }
}

/// Whether `v` holds `x`.
pub fn contains(v: &Vec<usize>, x: usize) -> (r: bool)
    ensures
        r == v@.contains(x),
{
    let mut i: usize = 0;
    while i < v.len()
        invariant
            i <= v@.len(),
            forall|k: int| 0 <= k < i ==> v@[k] != x,
        decreases v.len() - i,
    {
        if v[i] == x {
            assert(v@[i as int] == x);
            return true;
        }
        i = i + 1;
    }
    false
}

/// Something in `chain` decides the next entry, the last of which is the
/// target: `chain[0]` decides it at one or more removes.
pub open spec fn decision_chain(cfg: Cfg, target: usize, chain: Seq<usize>) -> bool {
    &&& chain.len() >= 2
    &&& chain.last() == target
    &&& forall|i: int| #![trigger chain[i]] 0 <= i < chain.len() - 1 ==> decides(cfg, chain[i], chain[i + 1])
}

/// `a` decides `target`, or decides something that does, at any remove.
pub open spec fn decides_transitively(cfg: Cfg, a: usize, target: usize) -> bool {
    exists|chain: Seq<usize>| #[trigger] decision_chain(cfg, target, chain) && chain[0] == a
}

/// What holds of the branches found while they grow: each decides the target
/// transitively, and the deciders of all that were passed are among them.
spec fn growing(cfg: Cfg, target: usize, found: Seq<usize>, i: int) -> bool {
    &&& found.no_duplicates()
    &&& forall|k: int| 0 <= k < found.len() ==> #[trigger] found[k] < cfg.exit
    &&& forall|k: int|
        0 <= k < found.len() ==> decides_transitively(cfg, #[trigger] found[k], target)
    &&& i >= 0 ==> forall|a: usize| #[trigger] decides(cfg, a, target) ==> found.contains(a)
    &&& forall|k: int, a: usize|
        0 <= k < i && k < found.len() && #[trigger] decides(cfg, a, found[k]) ==> found.contains(a)
}

proof fn lemma_extend_chain(cfg: Cfg, a: usize, t: usize, target: usize)
    requires
        decides(cfg, a, t),
        t == target || decides_transitively(cfg, t, target),
    ensures
        decides_transitively(cfg, a, target),
{
    let chain = if decides_transitively(cfg, t, target) {
        choose|chain: Seq<usize>| #[trigger]
            decision_chain(cfg, target, chain) && chain[0] == t
    } else {
        seq![t]
    };
    let longer = seq![a] + chain;
    assert forall|i: int| #![trigger longer[i]] 0 <= i < longer.len() - 1 implies decides(
        cfg,
        longer[i],
        longer[i + 1],
    ) by {
        if i > 0 {
            assert(longer[i] == chain[i - 1] && longer[i + 1] == chain[i - 1 + 1]);
        } else {
            assert(longer[1] == chain[0]);
        }
    }
    assert(longer.last() == chain.last());
    assert(decision_chain(cfg, target, longer) && longer[0] == a);
}

proof fn lemma_growth(cfg: Cfg, target: usize, found: Seq<usize>, i: int)
    requires
        -1 <= i <= found.len(),
        growing(cfg, target, found, i),
    ensures
        growing(
            cfg,
            target,
            grown(cfg, target, found, i),
            grown(cfg, target, found, i).len() as int,
        ),
    decreases cfg.exit - i,
{
    lemma_distinct_bounded(found, cfg.exit as nat);
    if i < found.len() && i < cfg.exit {
        let t = if i < 0 {
            target
        } else {
            found[i]
        };
        let more = deciders(cfg, t, cfg.exit as nat);
        let next = with_new(found, more);
        lemma_deciders(cfg, t, cfg.exit as nat);
        lemma_with_new(found, more);
        assert forall|k: int| 0 <= k < next.len() implies #[trigger] next[k] < cfg.exit
            && decides_transitively(cfg, next[k], target) by {
            assert(next.contains(next[k]));
            if found.contains(next[k]) {
                let j = choose|j: int| 0 <= j < found.len() && found[j] == next[k];
                assert(found[j] < cfg.exit);
            } else {
                assert(more.contains(next[k]));
                lemma_extend_chain(cfg, next[k], t, target);
            }
        }
        assert forall|k: int, a: usize|
            0 <= k < i + 1 && k < next.len() && #[trigger] decides(
                cfg,
                a,
                next[k],
            ) implies next.contains(a) by {
            if k < i {
                assert(decides(cfg, a, found[k]));
            } else {
                assert(more.contains(a));
            }
        }
        assert forall|a: usize| #[trigger] decides(cfg, a, target) implies next.contains(a) by {
            if i < 0 {
                assert(more.contains(a));
            }
        }
        lemma_growth(cfg, target, next, i + 1);
    } else if i < 0 {
        assert(cfg.exit == 0 || found.len() >= 0);
    }
}

proof fn lemma_chain_found(cfg: Cfg, target: usize, found: Seq<usize>, chain: Seq<usize>)
    requires
        growing(cfg, target, found, found.len() as int),
        decision_chain(cfg, target, chain),
    ensures
        found.contains(chain[0]),
    decreases chain.len(),
{
    assert(decides(cfg, chain[0], chain[0int + 1]));
    if chain.len() > 2 {
        let rest = chain.drop_first();
        assert forall|i: int| #![trigger rest[i]] 0 <= i < rest.len() - 1 implies decides(
            cfg,
            rest[i],
            rest[i + 1],
        ) by {
            assert(rest[i] == chain[i + 1] && rest[i + 1] == chain[i + 1 + 1]);
        }
        assert(rest.last() == chain.last());
        lemma_chain_found(cfg, target, found, rest);
        let k = choose|k: int| 0 <= k < found.len() && found[k] == rest[0];
        assert(decides(cfg, chain[0], found[k]));
    } else {
        assert(chain[1] == target);
    }
}

/// `control_deps` finds each branch once, and exactly those that decide the
/// target directly or through other branches.
pub proof fn lemma_control_deps_transitive(cfg: Cfg, target: usize)
    ensures
        all_deciders(cfg, target).no_duplicates(),
        forall|a: usize| #[trigger]
            all_deciders(cfg, target).contains(a) <==> decides_transitively(cfg, a, target),
{
    let all = all_deciders(cfg, target);
    lemma_growth(cfg, target, Seq::empty(), -1);
    assert forall|a: usize| #[trigger] all.contains(a) <==> decides_transitively(
        cfg,
        a,
        target,
    ) by {
        if decides_transitively(cfg, a, target) {
            let chain = choose|chain: Seq<usize>| #[trigger]
                decision_chain(cfg, target, chain) && chain[0] == a;
            lemma_chain_found(cfg, target, all, chain);
        }
        if all.contains(a) {
            let k = choose|k: int| 0 <= k < all.len() && all[k] == a;
            assert(decides_transitively(cfg, all[k], target));
        }
    }
}

/// A branch has a terminator.
pub proof fn lemma_branch_terminates(body: Body, cfg: Cfg, a: usize)
    requires
        cfg.valid(),
        cfg.graph_of(body),
        a < cfg.exit,
        cfg.succs@[a as int]@.len() >= 2,
    ensures
        body.blocks@[a as int].terminator is Some,
{
    let mine = cfg.succs@[a as int]@;
    assert(ascending(mine));
    assert(mine[0] < mine[1]);
    assert(mine[1] <= cfg.exit);
    assert(cfg.steps(a, mine[0]));
}

// ---------------------------------------------------------------- switches

/// What a branch reads: the index locals of the place it switches on, then
/// the place itself.
pub open spec fn switched_on(body: Body, bb: int) -> Seq<AtomView> {
    match body.blocks@[bb].terminator {
        Some(t) => match t.kind {
            TerminatorKind::SwitchInt { discr, targets } => match place_of_operand(discr) {
                Some(p) => index_locals_of(p.projection@).map_values(|l: usize| (l, Seq::<u32>::empty())).push(
                    atom_of(p),
                ),
                None => Seq::empty(),
            },
            _ => Seq::empty(),
        },
        None => Seq::empty(),
    }
}

/// The atoms a block's switch reads; none for any other terminator.
pub fn switch_operand_atoms(body: &Body, bb: usize) -> (r: Vec<Atom>)
    requires
        bb < body.blocks@.len(),
        body.blocks@[bb as int].terminator is Some,
    ensures
        r@.map_values(|a: Atom| a@) == switched_on(*body, bb as int),
{
    let mut out: Vec<Atom> = Vec::new();
    match &body.blocks[bb].terminator {
        Some(t) => {
            match &t.kind {
                TerminatorKind::SwitchInt { discr, targets } => {
                    match operand_place(discr) {
                        Some(p) => {
                            let info = place_info(p);
                            let ghost locals = info.index_locals@;
                            let mut i: usize = 0;
                            while i < info.index_locals.len()
                                invariant
                                    i <= locals.len(),
                                    locals == info.index_locals@,
                                    out@.map_values(|a: Atom| a@) == locals.take(
                                        i as int,
                                    ).map_values(|l: usize| (l, Seq::<u32>::empty())),
                                decreases locals.len() - i,
                            {
                                let a = Atom::whole(info.index_locals[i]);
                                let ghost before = out@;
                                out.push(a);
                                proof {
                                    assert(locals.take(i + 1) == locals.take(i as int).push(
                                        locals[i as int],
                                    ));
                                    assert(out@.map_values(|a: Atom| a@) == before.map_values(
                                        |a: Atom| a@,
                                    ).push(a@));
                                    assert(locals.take(i + 1).map_values(
                                        |l: usize| (l, Seq::<u32>::empty()),
                                    ) == locals.take(i as int).map_values(
                                        |l: usize| (l, Seq::<u32>::empty()),
                                    ).push((locals[i as int], Seq::<u32>::empty())));
                                }
                                i = i + 1;
                            }
                            let ghost before = out@;
                            let ghost last = info.atom@;
                            assert(locals.take(locals.len() as int) == locals);
                            out.push(info.atom);
                            assert(out@.map_values(|a: Atom| a@) == before.map_values(
                                |a: Atom| a@,
                            ).push(last));
                        },
                        None => {},
                    }
                },
                _ => {},
            }
        },
        None => {},
    }
    proof {
        assert(Seq::<Atom>::empty().map_values(|a: Atom| a@) == Seq::<AtomView>::empty());
    }
    out
}

// ---------------------------------------------------------------- dominance

/// An edge of the whole graph, unwinding included.
pub open spec fn any_edge(body: Body, a: usize, b: usize) -> bool {
    &&& a < body.blocks@.len()
    &&& body.blocks@[a as int].terminator matches Some(t) && (is_target(t.kind, b)
        || t.other_targets@.contains(b))
}

/// The edges of the whole graph that neither leave nor enter `avoided`.
pub open spec fn edges_around(body: Body, avoided: Option<usize>) -> spec_fn(usize, usize) -> bool {
    |a: usize, b: usize| any_edge(body, a, b) && avoided != Some(a) && avoided != Some(b)
}

/// The entry block, unless it is avoided.
pub open spec fn entry(body: Body, avoided: Option<usize>) -> Set<usize> {
    Set::new(|b: usize| b == 0 && body.blocks@.len() > 0 && avoided != Some(b))
}

/// Some walk leads from the entry to `at`, around `avoided`.
pub open spec fn entered(body: Body, avoided: Option<usize>, at: usize) -> bool {
    reachable(edges_around(body, avoided), entry(body, avoided), at)
}

/// Pushes `b` unless it is avoided or was seen before.
fn visit(flags: &mut Vec<bool>, stack: &mut Vec<usize>, avoided: Option<usize>, b: usize)
    requires
        b < old(flags)@.len(),
    ensures
        final(flags)@.len() == old(flags)@.len(),
        avoided == Some(b) || old(flags)@[b as int] ==> final(flags)@ == old(flags)@
            && final(stack)@ == old(stack)@,
        avoided != Some(b) && !old(flags)@[b as int] ==> final(flags)@ == old(flags)@.update(
            b as int,
            true,
        ) && final(stack)@ == old(stack)@.push(b),
{
    let skip = match avoided {
        Some(a) => a == b,
        None => false,
    };
    if !skip && !flags[b] {
        flags.set(b, true);
        stack.push(b);
    }
}

/// Every block control can pass to from `a`, unwinding included.
fn all_targets(body: &Body, a: usize) -> (r: Vec<usize>)
    requires
        closed_cfg(*body),
        a < body.blocks@.len(),
    ensures
        forall|b: usize| #[trigger] r@.contains(b) <==> any_edge(*body, a, b),
        forall|i: int| 0 <= i < r@.len() ==> #[trigger] r@[i] < body.blocks@.len(),
{
    let mut out: Vec<usize> = Vec::new();
    match &body.blocks[a].terminator {
        None => {},
        Some(term) => {
            match &term.kind {
                TerminatorKind::Goto { target }
                | TerminatorKind::Drop { target }
                | TerminatorKind::Assert { target } => {
                    insert_ascending(&mut out, *target);
                },
                TerminatorKind::SwitchInt { discr, targets } => {
                    add_each(&mut out, targets);
                },
                TerminatorKind::InlineAsm { targets } => {
                    add_each(&mut out, targets);
                },
                TerminatorKind::Call { func, args, destination, target } => {
                    match target {
                        Some(t) => {
                            insert_ascending(&mut out, *t);
                        },
                        None => {},
                    }
                },
                TerminatorKind::Yield { resume } => {
                    insert_ascending(&mut out, *resume);
                },
                TerminatorKind::FalseEdge { real_target }
                | TerminatorKind::FalseUnwind { real_target } => {
                    insert_ascending(&mut out, *real_target);
                },
                TerminatorKind::Return
                | TerminatorKind::Unreachable
                | TerminatorKind::UnwindResume
                | TerminatorKind::UnwindTerminate
                | TerminatorKind::CoroutineDrop
                | TerminatorKind::TailCall => {},
            }
            add_each(&mut out, &term.other_targets);
        },
    }
    proof {
        assert forall|i: int| 0 <= i < out@.len() implies #[trigger] out@[i]
            < body.blocks@.len() by {
            let b = out@[i];
            assert(out@.contains(b));
            lemma_any_edge_within(*body, a, b);
        }
    }
    out
}

proof fn lemma_any_edge_within(body: Body, a: usize, b: usize)
    requires
        closed_cfg(body),
        any_edge(body, a, b),
    ensures
        b < body.blocks@.len(),
{
    let t = body.blocks@[a as int].terminator->Some_0;
    assert(targets_within(t.kind, body.blocks@.len()));
    if t.other_targets@.contains(b) {
        let k = choose|k: int| 0 <= k < t.other_targets@.len() && t.other_targets@[k] == b;
        assert(t.other_targets@[k] < body.blocks@.len());
    } else {
        match t.kind {
            TerminatorKind::SwitchInt { discr, targets } => {
                let k = choose|k: int| 0 <= k < targets@.len() && targets@[k] == b;
                assert(targets@[k] < body.blocks@.len());
            },
            TerminatorKind::InlineAsm { targets } => {
                let k = choose|k: int| 0 <= k < targets@.len() && targets@[k] == b;
                assert(targets@[k] < body.blocks@.len());
            },
            _ => {},
        }
    }
}

/// Adds every entry of `more`.
fn add_each(v: &mut Vec<usize>, more: &Vec<usize>)
    requires
        ascending(old(v)@),
    ensures
        ascending(final(v)@),
        forall|y: usize| #[trigger]
            final(v)@.contains(y) <==> old(v)@.contains(y) || more@.contains(y),
{
    let ghost before = v@;
    let mut i: usize = 0;
    while i < more.len()
        invariant
            i <= more@.len(),
            ascending(v@),
            forall|y: usize| #[trigger]
                v@.contains(y) <==> before.contains(y) || more@.take(i as int).contains(y),
        decreases more.len() - i,
    {
        insert_ascending(v, more[i]);
        proof {
            assert(more@.take(i + 1) == more@.take(i as int).push(more@[i as int]));
            assert forall|y: usize| #[trigger] v@.contains(y) <==> before.contains(y)
                || more@.take(i + 1).contains(y) by {
                lemma_push_contains(more@.take(i as int), more@[i as int], y);
            }
        }
        i = i + 1;
    }
    assert(more@.take(more@.len() as int) == more@);
}

/// Which blocks can be entered around `avoided`.
fn entered_blocks(body: &Body, avoided: Option<usize>) -> (r: Vec<bool>)
    requires
        closed_cfg(*body),
    ensures
        r@.len() == body.blocks@.len(),
        forall|b: usize| b < r@.len() ==> #[trigger] r@[b as int] == entered(*body, avoided, b),
{
    let n: usize = body.blocks.len();
    let ghost step = edges_around(*body, avoided);
    let ghost roots = entry(*body, avoided);
    let mut flags: Vec<bool> = Vec::new();
    let mut i: usize = 0;
    while i < n
        invariant
            i <= n,
            flags@.len() == i,
            forall|k: int| 0 <= k < i ==> !#[trigger] flags@[k],
        decreases n - i,
    {
        flags.push(false);
        i = i + 1;
    }
    let mut stack: Vec<usize> = Vec::new();
    if n > 0 {
        visit(&mut flags, &mut stack, avoided, 0);
        proof {
            if avoided != Some(0usize) {
                lemma_root_reachable(step, roots, 0);
                assert(stack@[0] == 0);
                assert(stack@.contains(0usize));
            }
        }
    }
    while stack.len() > 0
        invariant
            n == body.blocks@.len() == flags@.len(),
            closed_cfg(*body),
            step == edges_around(*body, avoided),
            roots == entry(*body, avoided),
            forall|b: usize| b < n && #[trigger] flags@[b as int] ==> reachable(step, roots, b),
            forall|b: usize| b < n && #[trigger] flags@[b as int] ==> avoided != Some(b),
            forall|b: usize| roots.contains(b) ==> flags@[b as int],
            forall|k: int|
                0 <= k < stack@.len() ==> #[trigger] stack@[k] < n && flags@[stack@[k] as int],
            forall|a: usize, b: usize|
                a < n && flags@[a as int] && !stack@.contains(a) && #[trigger] any_edge(*body, a, b)
                    && avoided != Some(b) ==> flags@[b as int],
        decreases unset(flags@), stack@.len(),
    {
        let ghost stack0 = stack@;
        let a: usize = stack.pop().unwrap();
        let ghost flags0 = flags@;
        let ghost popped = stack@;
        assert(stack0 == popped.push(a));
        assert(stack0[stack0.len() - 1] == a);
        let targets = all_targets(body, a);
        let mut j: usize = 0;
        while j < targets.len()
            invariant
                n == body.blocks@.len() == flags@.len() == flags0.len(),
                closed_cfg(*body),
                a < n,
                avoided != Some(a),
                flags0[a as int],
                step == edges_around(*body, avoided),
                roots == entry(*body, avoided),
                reachable(step, roots, a),
                j <= targets@.len(),
                forall|b: usize| #[trigger] targets@.contains(b) <==> any_edge(*body, a, b),
                forall|k: int| 0 <= k < targets@.len() ==> #[trigger] targets@[k] < n,
                forall|b: usize| b < n && #[trigger] flags0[b as int] ==> flags@[b as int],
                forall|b: usize| b < n && #[trigger] flags@[b as int] ==> reachable(step, roots, b),
                forall|b: usize| b < n && #[trigger] flags@[b as int] ==> avoided != Some(b),
                forall|k: int|
                    0 <= k < stack@.len() ==> #[trigger] stack@[k] < n && flags@[stack@[k] as int],
                forall|x: usize| #[trigger] popped.contains(x) ==> stack@.contains(x),
                forall|x: usize|
                    x < n && #[trigger] flags@[x as int] && !flags0[x as int] ==> stack@.contains(
                        x,
                    ),
                forall|k: int|
                    0 <= k < j && avoided != Some(#[trigger] targets@[k])
                        ==> flags@[targets@[k] as int],
                unset(flags@) <= unset(flags0),
                unset(flags@) == unset(flags0) ==> stack@ == popped,
            decreases targets@.len() - j,
        {
            let b: usize = targets[j];
            let ghost flags1 = flags@;
            let ghost stack1 = stack@;
            assert(targets@.contains(b));
            visit(&mut flags, &mut stack, avoided, b);
            proof {
                if avoided != Some(b) && !flags1[b as int] {
                    lemma_step_reachable(step, roots, a, b);
                    lemma_set_one(flags1, b as int);
                    assert forall|x: usize| stack@.contains(x) <==> stack1.contains(x) || x
                        == b by {
                        lemma_push_contains(stack1, b, x);
                    }
                    assert forall|x: usize|
                        x < n && #[trigger] flags@[x as int] && !flags0[x as int] implies stack@.contains(
                        x,
                    ) by {
                        lemma_push_contains(stack1, b, x);
                        if x != b {
                            assert(flags1[x as int]);
                        }
                    }
                }
            }
            j = j + 1;
        }
        proof {
            assert forall|x: usize, b: usize|
                x < n && flags@[x as int] && !stack@.contains(x) && #[trigger] any_edge(*body, x, b)
                    && avoided != Some(b) implies flags@[b as int] by {
                lemma_any_edge_within(*body, x, b);
                if x == a {
                    assert(targets@.contains(b));
                    let k = choose|k: int| 0 <= k < targets@.len() && targets@[k] == b;
                    assert(flags@[targets@[k] as int]);
                } else {
                    assert(flags0[x as int]);
                    lemma_push_contains(popped, a, x);
                    assert(!stack0.contains(x));
                    assert(flags0[b as int]);
                }
            }
        }
    }
    proof {
        assert forall|b: usize| b < n implies #[trigger] flags@[b as int] == entered(
            *body,
            avoided,
            b,
        ) by {
            if entered(*body, avoided, b) {
                let closed = Set::new(|x: usize| x < n && flags@[x as int]);
                assert forall|x: usize, y: usize| closed.contains(x) && #[trigger] step(
                    x,
                    y,
                ) implies closed.contains(y) by {
                    assert(any_edge(*body, x, y));
                    lemma_any_edge_within(*body, x, y);
                }
                lemma_closed_holds_reachable(step, roots, closed, b);
            }
        }
    }
    flags
}

/// Every path from the entry to `at` passes through `check` (over the whole
/// graph). Reflexive; false when `at` is unreachable.
pub fn dominates(body: &Body, check: usize, at: usize) -> (r: bool)
    requires
        closed_cfg(*body),
        check < body.blocks@.len(),
        at < body.blocks@.len(),
    ensures
        r == (entered(*body, None, at) && !entered(*body, Some(check), at)),
{
    let open = entered_blocks(body, None);
    if !open[at] {
        return false;
    }
    let around = entered_blocks(body, Some(check));
    !around[at]
}

/// A reachable block dominates itself, and the entry dominates every
/// reachable block.
pub proof fn lemma_dominance_ends(body: Body, at: usize)
    requires
        entered(body, None, at),
    ensures
        !entered(body, Some(at), at),
        !entered(body, Some(0usize), at),
{
    if entered(body, Some(at), at) {
        let none = Set::new(|x: usize| x != at);
        lemma_closed_holds_reachable(
            edges_around(body, Some(at)),
            entry(body, Some(at)),
            none,
            at,
        );
    }
    if entered(body, Some(0usize), at) {
        let path = choose|path: Seq<usize>| #[trigger]
            is_walk(edges_around(body, Some(0usize)), entry(body, Some(0usize)), path)
                && path.last() == at;
        assert(entry(body, Some(0usize)).contains(path[0]));
    }
}

/// Control goes from a block to each target of its terminator that is not
/// there to clean up, and nowhere from one that returns.
pub proof fn lemma_edges_of_terminators(body: Body, a: usize, b: usize)
    requires
        a < body.blocks@.len(),
        b < body.blocks@.len(),
        !body.blocks@[a as int].is_cleanup,
        body.blocks@[a as int].terminator is Some,
    ensures
        ({
            let kind = body.blocks@[a as int].terminator->Some_0.kind;
            &&& !body.blocks@[b as int].is_cleanup ==> ({
                &&& kind matches TerminatorKind::Goto { target } ==> (edge(body, a, b) <==> target
                    == b)
                &&& kind matches TerminatorKind::Drop { target } ==> (edge(body, a, b) <==> target
                    == b)
                &&& kind matches TerminatorKind::Assert { target } ==> (edge(body, a, b) <==> target
                    == b)
                &&& kind matches TerminatorKind::SwitchInt { discr, targets } ==> (edge(body, a, b)
                    <==> targets@.contains(b))
                &&& kind matches TerminatorKind::Call { func, args, destination, target } ==> (edge(
                    body,
                    a,
                    b,
                ) <==> target == Some(b))
                &&& kind matches TerminatorKind::Yield { resume } ==> (edge(body, a, b) <==> resume
                    == b)
                &&& kind matches TerminatorKind::FalseEdge { real_target } ==> (edge(body, a, b)
                    <==> real_target == b)
                &&& kind matches TerminatorKind::FalseUnwind { real_target } ==> (edge(body, a, b)
                    <==> real_target == b)
                &&& kind matches TerminatorKind::InlineAsm { targets } ==> (edge(body, a, b)
                    <==> targets@.contains(b))
            })
            &&& kind is Return || kind is TailCall ==> leaves(body, a) && !edge(body, a, b)
            &&& kind is Unreachable || kind is UnwindResume || kind is UnwindTerminate || kind
                is CoroutineDrop ==> !leaves(body, a) && !edge(body, a, b)
            &&& body.blocks@[b as int].is_cleanup ==> !edge(body, a, b)
        }),
{
}

/// A function can return from a block that returns, and from any block with an
/// edge to one it can return from.
pub proof fn lemma_return_is_reached_backwards(body: Body, a: usize, b: usize)
    ensures
        leaves(body, a) ==> can_return(body, a),
        edge(body, a, b) && can_return(body, b) ==> can_return(body, a),
{
    if leaves(body, a) {
        crate::reach::lemma_root_reachable(back_edges(body), returning(body), a);
    }
    if edge(body, a, b) && can_return(body, b) {
        assert(back_edges(body)(b, a));
        crate::reach::lemma_step_reachable(back_edges(body), returning(body), b, a);
    }
}

/// A branch decides a block where one way through it always comes by the block
/// and another does not.
pub proof fn lemma_branch_decides(
    cfg: Cfg,
    a: usize,
    t: usize,
    s: usize,
    around: Seq<usize>,
)
    requires
        a < cfg.exit,
        cfg.succs@[a as int]@.len() >= 2,
        cfg.steps(a, s),
        forall|path: Seq<usize>| #[trigger] exit_walk(cfg, s, path) ==> path.contains(t),
        exit_walk(cfg, a, around),
        !around.contains(t),
    ensures
        decides(cfg, a, t),
        decides_transitively(cfg, a, t),
{
    assert(post_dominates(cfg, t, s));
    assert(!post_dominates(cfg, t, a));
    let chain = seq![a, t];
    assert(decision_chain(cfg, t, chain));
}

/// Where every way on comes by the block, nothing about it is decided; nor is
/// it by a block with one way on.
pub proof fn lemma_no_choice_decides_nothing(cfg: Cfg, a: usize, t: usize)
    ensures
        a != t && post_dominates(cfg, t, a) ==> !decides(cfg, a, t),
        cfg.succs@[a as int]@.len() < 2 ==> !decides(cfg, a, t),
{
}

/// A branch looks at the place it switches on, and at the locals that index
/// into it; other terminators look at nothing.
pub proof fn lemma_branch_looks_at_its_operand(
    body: Body,
    bb: int,
    t: crate::mir::Terminator,
    p: crate::mir::Place,
    k: int,
)
    requires
        body.blocks@[bb].terminator == Some(t),
    ensures
        (t.kind matches TerminatorKind::SwitchInt { discr, targets } && place_of_operand(discr)
            == Some(p)) ==> switched_on(body, bb).contains(atom_of(p)),
        (t.kind matches TerminatorKind::SwitchInt { discr, targets } && place_of_operand(discr)
            == Some(p)) && 0 <= k < index_locals_of(p.projection@).len() ==> switched_on(
            body,
            bb,
        ).contains((index_locals_of(p.projection@)[k], Seq::<u32>::empty())),
        !(t.kind is SwitchInt) ==> switched_on(body, bb).len() == 0,
{
    match t.kind {
        TerminatorKind::SwitchInt { discr, targets } => {
            if place_of_operand(discr) == Some(p) {
                let all = switched_on(body, bb);
                assert(all[all.len() - 1] == atom_of(p));
                if 0 <= k < index_locals_of(p.projection@).len() {
                    assert(all[k] == (index_locals_of(p.projection@)[k], Seq::<u32>::empty()));
                }
            }
        },
        _ => {},
    }
}

} // verus!
