//! A panicking match arm for a variant the matched call can never produce:
//! every value the callee's body returns is a constructor literal, and the
//! panicked-on variant is not among them. Any return position that is no
//! constructor literal makes the set unknowable and the function is skipped.

use crate::defs::Definitions;
use crate::enum_facts::{arm_variant, ctor_literal_variant, is_panic_arm, literal_variant};
use crate::hir::{targets, walk, walked, Arm, Expr, ExprKind};
use crate::hir_shapes::{called_def, callee_of};
use crate::ids::{DefId, HirId, Span};
use crate::overwide_parameter::panics_on;
use crate::report::{
    emit, finding, in_order, quote_names, quoted_names, sort_texts, views, Finding, FindingView,
    Lint,
};
use crate::table::{
    add_new, behind, concat, find_key, is_in, key_at, lemma_key_at, lemma_key_at_is, put, put_key,
    value_at, with_added,
};
use crate::text::{join, joined};
use crate::ty::adt_id;
use vstd::prelude::*;
use vstd::string::*;

verus! {

/// An arm that panics on a variant of what a call returns.
#[derive(Clone, Copy, Debug, PartialEq, Eq, Structural)]
pub struct Suspect {
    pub callee: DefId,
    pub variant: DefId,
    pub span: Span,
}

#[derive(Debug)]
pub struct NarrowedReturn {
    /// A function and the complete set of variants it returns.
    pub returned: Vec<(DefId, Vec<DefId>)>,
    pub suspects: Vec<Suspect>,
}

#[verifier::ext_equal]
pub struct NarrowedView {
    pub returned: Seq<(DefId, Seq<DefId>)>,
    pub suspects: Seq<Suspect>,
}

pub open spec fn set_views(v: Seq<(DefId, Vec<DefId>)>) -> Seq<(DefId, Seq<DefId>)> {
    v.map_values(|p: (DefId, Vec<DefId>)| (p.0, p.1@))
}

impl View for NarrowedReturn {
    type V = NarrowedView;

    open spec fn view(&self) -> NarrowedView {
        NarrowedView { returned: set_views(self.returned@), suspects: self.suspects@ }
    }
}

/// The expressions in tail position, followed through blocks, both branches
/// of an `if` and every match arm. A block with no tail diverges or gives
/// nothing.
pub open spec fn tails(e: Expr) -> Seq<Expr>
    decreases e,
{
    match e.kind {
        ExprKind::Block(b) => match b.expr {
            Some(tail) => tails(*tail),
            None => Seq::empty(),
        },
        ExprKind::If(_, yes, no) => tails(*yes) + match no {
            Some(x) => tails(*x),
            None => Seq::empty(),
        },
        ExprKind::Match(_, arms, _) => arm_tails(arms@),
        _ => seq![e],
    }
}

pub open spec fn arm_tails(arms: Seq<Arm>) -> Seq<Expr>
    decreases arms,
{
    if arms.len() == 0 {
        Seq::empty()
    } else {
        tails(arms[0].body) + arm_tails(arms.drop_first())
    }
}

fn tail_exprs<'a>(e: &'a Expr) -> (r: Vec<&'a Expr>)
    ensures
        behind(r@) == tails(*e),
    decreases e, 0nat,
{
    match &e.kind {
        ExprKind::Block(b) => {
            match &b.expr {
                Some(tail) => tail_exprs(tail),
                None => {
                    let none: Vec<&'a Expr> = Vec::new();
                    assert(behind(none@) =~= Seq::<Expr>::empty());
                    none
                },
            }
        },
        ExprKind::If(_, yes, no) => {
            let first = tail_exprs(yes);
            match no {
                Some(x) => concat(first, tail_exprs(x)),
                None => {
                    assert(behind(first@) =~= behind(first@) + Seq::<Expr>::empty());
                    first
                },
            }
        },
        ExprKind::Match(_, arms, _) => {
            let r = tails_of_arms(arms, 0);
            assert(arms@.skip(0) =~= arms@);
            r
        },
        _ => {
            let mut one: Vec<&'a Expr> = Vec::new();
            one.push(e);
            assert(behind(one@) =~= seq![*e]);
            one
        },
    }
}

fn tails_of_arms<'a>(arms: &'a Vec<Arm>, from: usize) -> (r: Vec<&'a Expr>)
    requires
        from <= arms@.len(),
    ensures
        behind(r@) == arm_tails(arms@.skip(from as int)),
    decreases arms, arms@.len() - from,
{
    if from == arms.len() {
        let none: Vec<&'a Expr> = Vec::new();
        assert(behind(none@) =~= Seq::<Expr>::empty());
        return none;
    }
    assert(arms@.skip(from as int).drop_first() =~= arms@.skip(from + 1));
    assert(decreases_to!(arms => arms@[from as int]));
    let first = tail_exprs(&arms[from].body);
    concat(first, tails_of_arms(arms, from + 1))
}

/// The labelled blocks passed on the way to the tails: what a `break` gives
/// one of them is given where the tails are.
pub open spec fn passed(e: Expr) -> Seq<HirId>
    decreases e,
{
    match e.kind {
        ExprKind::Block(b) => (if b.labelled {
            seq![b.id]
        } else {
            Seq::empty()
        }) + match b.expr {
            Some(tail) => passed(*tail),
            None => Seq::empty(),
        },
        ExprKind::If(_, yes, no) => passed(*yes) + match no {
            Some(x) => passed(*x),
            None => Seq::empty(),
        },
        ExprKind::Match(_, arms, _) => arm_passed(arms@),
        _ => Seq::empty(),
    }
}

pub open spec fn arm_passed(arms: Seq<Arm>) -> Seq<HirId>
    decreases arms,
{
    if arms.len() == 0 {
        Seq::empty()
    } else {
        passed(arms[0].body) + arm_passed(arms.drop_first())
    }
}

fn collect_passed(e: &Expr, out: &mut Vec<HirId>)
    ensures
        final(out)@ == old(out)@ + passed(*e),
    decreases e, 0nat,
{
    let ghost start = out@;
    match &e.kind {
        ExprKind::Block(b) => {
            if b.labelled {
                out.push(b.id);
            }
            match &b.expr {
                Some(tail) => collect_passed(tail, out),
                None => {},
            }
        },
        ExprKind::If(_, yes, no) => {
            collect_passed(yes, out);
            match no {
                Some(x) => collect_passed(x, out),
                None => {},
            }
        },
        ExprKind::Match(_, arms, _) => {
            collect_arm_passed(arms, 0, out);
            assert(arms@.skip(0) =~= arms@);
        },
        _ => {},
    }
    assert(out@ =~= start + passed(*e));
}

fn collect_arm_passed(arms: &Vec<Arm>, from: usize, out: &mut Vec<HirId>)
    requires
        from <= arms@.len(),
    ensures
        final(out)@ == old(out)@ + arm_passed(arms@.skip(from as int)),
    decreases arms, arms@.len() - from,
{
    let ghost start = out@;
    if from < arms.len() {
        assert(arms@.skip(from as int).drop_first() =~= arms@.skip(from + 1));
        assert(decreases_to!(arms => arms@[from as int]));
        collect_passed(&arms[from].body, out);
        collect_arm_passed(arms, from + 1, out);
    }
    assert(out@ =~= start + arm_passed(arms@.skip(from as int)));
}

/// What can leave a function as its value, and the labelled blocks whose
/// value does.
#[verifier::ext_equal]
pub struct Leaving {
    pub leaves: Seq<Expr>,
    pub blocks: Seq<HirId>,
}

/// The expression leaves the function too.
pub open spec fn joined_by(l: Leaving, e: Expr) -> Leaving {
    Leaving { leaves: l.leaves + tails(e), blocks: l.blocks + passed(e) }
}

/// The value an expression sends out of the function, given the labelled
/// blocks whose value leaves it: what a `return` carries, and what a `break`
/// out of such a block does.
pub open spec fn sent(blocks: Seq<HirId>, e: Expr) -> Option<Expr> {
    match e.kind {
        ExprKind::Ret(Some(v)) => Some(*v),
        ExprKind::Break(Some(to), Some(v)) => if blocks.contains(to) {
            Some(*v)
        } else {
            None
        },
        _ => None,
    }
}

/// What leaves `body` by its tails or is sent out by the first `k` of `es`.
/// An expression comes before its parts, so a block is known to leave before
/// the `break`s in it are seen.
pub open spec fn leaving(body: Expr, es: Seq<Expr>, k: int) -> Leaving
    decreases k,
{
    if k <= 0 {
        Leaving { leaves: tails(body), blocks: passed(body) }
    } else {
        let before = leaving(body, es, k - 1);
        match sent(before.blocks, es[k - 1]) {
            Some(v) => joined_by(before, v),
            None => before,
        }
    }
}

/// Every expression that can leave the function as its value.
pub open spec fn leaves(body: Expr) -> Seq<Expr> {
    leaving(body, walk(body, true), walk(body, true).len() as int).leaves
}

fn value_sent<'a>(blocks: &Vec<HirId>, e: &'a Expr) -> (r: Option<&'a Expr>)
    ensures
        match r {
            Some(v) => sent(blocks@, *e) == Some(*v),
            None => sent(blocks@, *e) is None,
        },
{
    match &e.kind {
        ExprKind::Ret(Some(v)) => Some(v),
        ExprKind::Break(Some(to), Some(v)) => if is_in(blocks, to) {
            Some(v)
        } else {
            None
        },
        _ => None,
    }
}

fn collect_leaves<'a>(body: &'a Expr) -> (r: Vec<&'a Expr>)
    ensures
        behind(r@) == leaves(*body),
{
    let mut out = tail_exprs(body);
    let mut blocks: Vec<HirId> = Vec::new();
    collect_passed(body, &mut blocks);
    assert(blocks@ =~= passed(*body));
    let es = walked(body, true);
    let ghost all = walk(*body, true);
    let mut i: usize = 0;
    while i < es.len()
        invariant
            i <= es@.len(),
            targets(es@) == all,
            behind(out@) == leaving(*body, all, i as int).leaves,
            blocks@ == leaving(*body, all, i as int).blocks,
        decreases es.len() - i,
    {
        assert(all[i as int] == *es@[i as int]);
        match value_sent(&blocks, es[i]) {
            Some(v) => {
                out = concat(out, tail_exprs(v));
                collect_passed(v, &mut blocks);
            },
            None => {},
        }
        i = i + 1;
    }
    assert(es@.len() == all.len());
    out
}

proof fn lemma_leaving_grows(body: Expr, es: Seq<Expr>, j: int, k: int)
    requires
        0 <= j <= k,
    ensures
        leaving(body, es, j).leaves.is_prefix_of(leaving(body, es, k).leaves),
        leaving(body, es, j).blocks.is_prefix_of(leaving(body, es, k).blocks),
    decreases k - j,
{
    if j < k {
        lemma_leaving_grows(body, es, j, k - 1);
    }
}

/// Whatever a `return` carries can leave the function, and so can whatever a
/// `break` gives a labelled block whose value is the function's.
pub proof fn lemma_sent_values_leave(body: Expr, k: int, v: Expr)
    requires
        0 <= k < walk(body, true).len(),
        sent(passed(body), walk(body, true)[k]) == Some(v),
    ensures
        forall|i: int| 0 <= i < tails(v).len() ==> leaves(body).contains(#[trigger] tails(v)[i]),
{
    let es = walk(body, true);
    let before = leaving(body, es, k);
    lemma_leaving_grows(body, es, 0, k);
    lemma_leaving_grows(body, es, k + 1, es.len() as int);
    assert(forall|b: HirId|
        passed(body).contains(b) ==> #[trigger] before.blocks.contains(b)) by {
        assert forall|b: HirId| passed(body).contains(b) implies #[trigger] before.blocks.contains(
            b,
        ) by {
            let i = choose|i: int| 0 <= i < passed(body).len() && passed(body)[i] == b;
            assert(before.blocks[i] == b);
        }
    }
    assert(sent(before.blocks, es[k]) == Some(v));
    assert forall|i: int| 0 <= i < tails(v).len() implies leaves(body).contains(
        #[trigger] tails(v)[i],
    ) by {
        let at = before.leaves.len() + i;
        assert(leaving(body, es, k + 1).leaves[at] == tails(v)[i]);
        assert(leaves(body)[at] == tails(v)[i]);
    }
}

/// The variants the leaves construct, each once; nothing if one of them is no
/// constructor literal. A diverging leaf yields no value.
pub open spec fn variants_of(defs: Definitions, ls: Seq<Expr>) -> Option<Seq<DefId>>
    decreases ls.len(),
{
    if ls.len() == 0 {
        Some(Seq::empty())
    } else {
        match variants_of(defs, ls.drop_last()) {
            Some(before) => if ls.last().ty is Never {
                Some(before)
            } else {
                match literal_variant(defs, ls.last()) {
                    Some(v) => Some(with_added(before, v)),
                    None => None,
                }
            },
            None => None,
        }
    }
}

fn collect_variants(defs: &Definitions, ls: &Vec<&Expr>) -> (r: Option<Vec<DefId>>)
    ensures
        match r {
            Some(v) => variants_of(*defs, behind(ls@)) == Some(v@),
            None => variants_of(*defs, behind(ls@)) is None,
        },
{
    let ghost all = behind(ls@);
    let mut out: Vec<DefId> = Vec::new();
    let mut i: usize = 0;
    assert(variants_of(*defs, all.take(0)) == Some(out@));
    while i < ls.len()
        invariant
            i <= ls@.len(),
            all == behind(ls@),
            variants_of(*defs, all.take(i as int)) == Some(out@),
        decreases ls.len() - i,
    {
        assert(all.take(i + 1).drop_last() =~= all.take(i as int));
        assert(all[i as int] == *ls@[i as int]);
        if !ls[i].ty.is_never() {
            match ctor_literal_variant(defs, ls[i]) {
                Some(v) => add_new(&mut out, v),
                None => {
                    proof {
                        lemma_unknown_stays(*defs, all, i + 1);
                    }
                    return None;
                },
            }
        }
        i = i + 1;
    }
    assert(all.take(i as int) =~= all);
    Some(out)
}

proof fn lemma_unknown_stays(defs: Definitions, ls: Seq<Expr>, k: int)
    requires
        0 <= k <= ls.len(),
        variants_of(defs, ls.take(k)) is None,
    ensures
        variants_of(defs, ls) is None,
    decreases ls.len() - k,
{
    if k < ls.len() {
        assert(ls.take(k + 1).drop_last() =~= ls.take(k));
        lemma_unknown_stays(defs, ls, k + 1);
    } else {
        assert(ls.take(k) =~= ls);
    }
}

/// What is known once a function has been visited.
pub open spec fn after_fn(
    defs: Definitions,
    s: NarrowedView,
    def: DefId,
    is_closure: bool,
    body: Expr,
) -> NarrowedView {
    match (adt_id(body.ty), variants_of(defs, leaves(body))) {
        (Some(did), Some(set)) => if is_closure || !defs.local_enum(did) || set.len() == 0 {
            s
        } else {
            NarrowedView { returned: put(s.returned, def, set), ..s }
        },
        _ => s,
    }
}

/// The suspects among the first `k` arms.
pub open spec fn suspects_in(
    defs: Definitions,
    callee: DefId,
    arms: Seq<Arm>,
    k: int,
) -> Seq<Suspect>
    decreases k,
{
    if k <= 0 {
        Seq::empty()
    } else {
        let before = suspects_in(defs, callee, arms, k - 1);
        match panics_on(defs, arms[k - 1]) {
            Some(variant) => before.push(Suspect { callee, variant, span: arms[k - 1].span }),
            None => before,
        }
    }
}

/// What is known once an expression has been visited: a match with a call as
/// its scrutinee leaves no aliasing to reason about.
pub open spec fn after_expr(defs: Definitions, s: NarrowedView, e: Expr) -> NarrowedView {
    match e.kind {
        ExprKind::Match(scrutinee, arms, _) => match called_def(*scrutinee) {
            Some(def) => if scrutinee.kind is Call && defs.local(def) && defs.is_fn(def) {
                NarrowedView {
                    suspects: s.suspects + suspects_in(
                        defs,
                        def,
                        arms@,
                        arms@.len() as int,
                    ),
                    ..s
                }
            } else {
                s
            },
            None => s,
        },
        _ => s,
    }
}

pub open spec fn suspect_finding(
    defs: Definitions,
    x: Suspect,
    set: Seq<DefId>,
) -> FindingView {
    finding(
        Lint::NarrowedReturn,
        x.span,
        "`"@ + defs.name_text(x.callee) + "` only ever returns "@ + joined(
            in_order(quoted_names(defs, set)),
            ", "@,
        ) + "; this arm panics on `"@ + defs.name_text(x.variant)
            + "`, which it never constructs"@,
        "the return type promises more than the function delivers; narrow it and this arm becomes unnecessary at compile time"@,
    )
}

/// What the lint says of the first `k` suspects.
pub open spec fn narrowed_findings(defs: Definitions, s: NarrowedView, k: int) -> Seq<FindingView>
    decreases k,
{
    if k <= 0 {
        Seq::empty()
    } else {
        let before = narrowed_findings(defs, s, k - 1);
        let x = s.suspects[k - 1];
        match value_at(s.returned, x.callee) {
            Some(set) => if set.contains(x.variant) {
                before
            } else {
                before.push(suspect_finding(defs, x, set))
            },
            None => before,
        }
    }
}

proof fn lemma_key_kept(v: Seq<(DefId, Vec<DefId>)>, def: DefId)
    ensures
        key_at(set_views(v), def) == key_at(v, def),
        set_views(v).len() == v.len(),
{
    lemma_key_at(v, def);
    let i = key_at(v, def);
    let w = set_views(v);
    assert forall|j: int| 0 <= j < i implies (#[trigger] w[j]).0 != def by {
        assert(v[j].0 != def);
    }
    lemma_key_at_is(w, def, i);
}

impl NarrowedReturn {
    pub fn new() -> (r: Self)
        ensures
            r@ == (NarrowedView { returned: Seq::empty(), suspects: Seq::empty() }),
    {
        let r = NarrowedReturn { returned: Vec::new(), suspects: Vec::new() };
        assert(r@.returned =~= Seq::<(DefId, Seq<DefId>)>::empty());
        r
    }

    /// Visits a function.
    pub fn check_fn(&mut self, defs: &Definitions, def: DefId, is_closure: bool, body: &Expr)
        ensures
            final(self)@ == after_fn(*defs, old(self)@, def, is_closure, *body),
    {
        if is_closure {
            return;
        }
        match body.ty.adt() {
            Some(did) => {
                if !defs.local_enum_here(did) {
                    return;
                }
            },
            None => {
                return;
            },
        }
        let ls = collect_leaves(body);
        match collect_variants(defs, &ls) {
            Some(set) => {
                if set.len() > 0 {
                    let ghost before = self@;
                    let ghost was = self.returned@;
                    let ghost found = set@;
                    proof {
                        lemma_key_kept(was, def);
                        lemma_key_at(was, def);
                    }
                    put_key(&mut self.returned, def, set);
                    proof {
                        let i = key_at(was, def);
                        if i < was.len() {
                            assert(set_views(self.returned@) =~= set_views(was).update(
                                i,
                                (def, found),
                            ));
                        } else {
                            assert(set_views(self.returned@) =~= set_views(was).push((def, found)));
                        }
                    }
                    assert(self@ =~= after_fn(*defs, before, def, is_closure, *body));
                }
            },
            None => {},
        }
    }

    /// Visits an expression.
    pub fn check_expr(&mut self, defs: &Definitions, e: &Expr)
        ensures
            final(self)@ == after_expr(*defs, old(self)@, *e),
    {
        let (scrutinee, arms) = match &e.kind {
            ExprKind::Match(s, a, _) => (s, a),
            _ => {
                return;
            },
        };
        let plain_call = match &scrutinee.kind {
            ExprKind::Call(_, _) => true,
            _ => false,
        };
        let def = match callee_of(scrutinee) {
            Some(c) => c.def,
            None => {
                return;
            },
        };
        if !plain_call || !defs.is_local(def) || !defs.function_here(def) {
            return;
        }
        let ghost before = self@;
        let mut i: usize = 0;
        assert(self.suspects@ =~= before.suspects + suspects_in(*defs, def, arms@, 0));
        while i < arms.len()
            invariant
                i <= arms@.len(),
                self@.returned == before.returned,
                self.suspects@ == before.suspects + suspects_in(*defs, def, arms@, i as int),
            decreases arms.len() - i,
        {
            let arm = &arms[i];
            if arm.guard.is_none() && is_panic_arm(defs, &arm.body) {
                match arm_variant(defs, &arm.pat) {
                    Some(variant) => {
                        self.suspects.push(Suspect { callee: def, variant, span: arm.span });
                    },
                    None => {},
                }
            }
            i = i + 1;
            assert(self.suspects@ =~= before.suspects + suspects_in(
                *defs,
                def,
                arms@,
                i as int,
            ));
        }
        assert(self@ =~= after_expr(*defs, before, *e));
    }

    /// What the lint says of the crate.
    pub fn check_crate_post(&self, defs: &Definitions) -> (r: Vec<Finding>)
        ensures
            views(r@) == narrowed_findings(*defs, self@, self@.suspects.len() as int),
    {
        let mut out: Vec<Finding> = Vec::new();
        let mut k: usize = 0;
        assert(views(out@) =~= Seq::<FindingView>::empty());
        while k < self.suspects.len()
            invariant
                k <= self.suspects@.len(),
                views(out@) == narrowed_findings(*defs, self@, k as int),
            decreases self.suspects.len() - k,
        {
            let x: Suspect = self.suspects[k];
            proof {
                lemma_key_kept(self.returned@, x.callee);
            }
            match find_key(&self.returned, &x.callee) {
                Some(i) => {
                    let set = &self.returned[i].1;
                    assert(self@.returned[i as int].1 == set@);
                    if !is_in(set, &x.variant) {
                        let mut msg = String::from_str("`");
                        msg.append(defs.name_of(x.callee));
                        msg.append("` only ever returns ");
                        msg.append(join(&sort_texts(&quote_names(defs, set)), ", ").as_str());
                        msg.append("; this arm panics on `");
                        msg.append(defs.name_of(x.variant));
                        msg.append("`, which it never constructs");
                        emit(
                            &mut out,
                            Lint::NarrowedReturn,
                            x.span,
                            msg,
                            "the return type promises more than the function delivers; narrow it and this arm becomes unnecessary at compile time",
                        );
                    }
                },
                None => {},
            }
            k = k + 1;
        }
        out
    }
}

/// Every leaf of a function with a known set either diverges or is the
/// literal of a variant in that set.
pub proof fn lemma_set_is_complete(defs: Definitions, ls: Seq<Expr>, i: int)
    requires
        variants_of(defs, ls) is Some,
        0 <= i < ls.len(),
    ensures
        ls[i].ty is Never || (literal_variant(defs, ls[i]) matches Some(v) && variants_of(
            defs,
            ls,
        )->Some_0.contains(v)),
    decreases ls.len(),
{
    let before = variants_of(defs, ls.drop_last())->Some_0;
    if !(ls.last().ty is Never) {
        crate::table::lemma_added(before, literal_variant(defs, ls.last())->Some_0);
    }
    if i < ls.len() - 1 {
        lemma_set_is_complete(defs, ls.drop_last(), i);
        assert(ls.drop_last()[i] == ls[i]);
    }
    if !(ls[i].ty is Never) {
        let v = literal_variant(defs, ls[i])->Some_0;
        if i < ls.len() - 1 {
            assert(before.contains(v));
        }
        assert(variants_of(defs, ls)->Some_0.contains(v));
    }
}

/// One value the function returns that is no constructor literal makes the set
/// unknowable, and the function is left alone.
pub proof fn lemma_unknown_leaf_silences(
    defs: Definitions,
    s: NarrowedView,
    def: DefId,
    is_closure: bool,
    body: Expr,
    i: int,
)
    requires
        0 <= i < leaves(body).len(),
        !(leaves(body)[i].ty is Never),
        literal_variant(defs, leaves(body)[i]) is None,
    ensures
        after_fn(defs, s, def, is_closure, body) == s,
{
    if variants_of(defs, leaves(body)) is Some {
        lemma_set_is_complete(defs, leaves(body), i);
    }
}

/// Every finding is of an arm that panics on a variant outside the complete
/// set its callee returns.
pub proof fn lemma_reported_arm_is_dead(defs: Definitions, s: NarrowedView, k: int, f: FindingView)
    requires
        0 <= k <= s.suspects.len(),
        narrowed_findings(defs, s, k).contains(f),
    ensures
        exists|j: int|
            0 <= j < k && (value_at(s.returned, (#[trigger] s.suspects[j]).callee) matches Some(set)
                && !set.contains(s.suspects[j].variant) && f == suspect_finding(
                defs,
                s.suspects[j],
                set,
            )),
    decreases k,
{
    if k > 0 {
        let all = narrowed_findings(defs, s, k);
        let before = narrowed_findings(defs, s, k - 1);
        let i = choose|i: int| 0 <= i < all.len() && all[i] == f;
        if i < before.len() {
            assert(before[i] == f);
            assert(before.contains(f));
            lemma_reported_arm_is_dead(defs, s, k - 1, f);
        } else {
            let x = s.suspects[k - 1];
            assert(value_at(s.returned, x.callee) is Some);
        }
    }
}

/// What a block yields is what its tail yields, what an `if` yields either
/// branch may, and anything else yields itself.
pub proof fn lemma_branches_yield(e: Expr, yes: Expr, no: Expr, x: Expr)
    ensures
        e.kind matches ExprKind::Block(b) ==> tails(e) == match b.expr {
            Some(t) => tails(*t),
            None => Seq::empty(),
        },
        (e.kind matches ExprKind::If(_, y, n) && *y == yes && (n matches Some(b) && *b == no))
            ==> (tails(e).contains(x) <==> tails(yes).contains(x) || tails(no).contains(x)),
        (e.kind matches ExprKind::If(_, y, n) && *y == yes && n is None) ==> tails(e) == tails(yes),
        !(e.kind is Block) && !(e.kind is If) && !(e.kind is Match) ==> tails(e) == seq![e],
{
    match e.kind {
        ExprKind::If(_, y, n) => {
            match n {
                Some(b) => {
                    crate::table::lemma_either(tails(*y), tails(*b), x);
                },
                None => {
                    assert(tails(e) =~= tails(*y));
                },
            }
        },
        _ => {},
    }
}

proof fn lemma_arm_yields(arms: Seq<Arm>, i: int, x: Expr)
    requires
        0 <= i < arms.len(),
        tails(arms[i].body).contains(x),
    ensures
        arm_tails(arms).contains(x),
    decreases arms.len(),
{
    let rest = arms.drop_first();
    crate::table::lemma_either(tails(arms[0].body), arm_tails(rest), x);
    if i > 0 {
        assert(rest[i - 1] == arms[i]);
        lemma_arm_yields(rest, i - 1, x);
    }
}

/// A `match` may yield what any of its arms does, and all of it may leave the
/// function.
pub proof fn lemma_every_arm_yields(e: Expr, i: int, x: Expr)
    requires
        e.kind matches ExprKind::Match(_, arms, _) && 0 <= i < arms@.len() && tails(
            arms@[i].body,
        ).contains(x),
    ensures
        tails(e).contains(x),
        leaves(e).contains(x),
{
    match e.kind {
        ExprKind::Match(_, arms, _) => {
            lemma_arm_yields(arms@, i, x);
        },
        _ => {},
    }
    lemma_tails_leave(e, x);
}

/// What a body's last expression yields leaves the function.
pub proof fn lemma_tails_leave(body: Expr, x: Expr)
    requires
        tails(body).contains(x),
    ensures
        leaves(body).contains(x),
{
    let es = walk(body, true);
    lemma_leaving_grows(body, es, 0, es.len() as int);
    let i = choose|i: int| 0 <= i < tails(body).len() && tails(body)[i] == x;
    assert(leaves(body)[i] == x);
}

/// What a `return` carries, wherever it stands in the body, leaves the
/// function.
pub proof fn lemma_returned_value_leaves(path: Seq<Expr>, v: Expr, x: Expr)
    requires
        crate::hir::nested(path),
        crate::hir::enters(path, true),
        path.last().kind == ExprKind::Ret(Some(Box::new(v))),
        tails(v).contains(x),
    ensures
        leaves(path[0]).contains(x),
{
    crate::hir::lemma_walk_misses_nothing(path, true);
    let es = walk(path[0], true);
    let k = choose|k: int| 0 <= k < es.len() && es[k] == path.last();
    lemma_sent_values_leave(path[0], k, v);
    let i = choose|i: int| 0 <= i < tails(v).len() && tails(v)[i] == x;
    assert(leaves(path[0]).contains(tails(v)[i]));
}

/// A variant is in the set only if some value that leaves is a literal of it.
pub proof fn lemma_set_is_exact(defs: Definitions, ls: Seq<Expr>, v: DefId)
    requires
        variants_of(defs, ls) is Some,
    ensures
        variants_of(defs, ls)->Some_0.contains(v) <==> exists|i: int|
            0 <= i < ls.len() && !((#[trigger] ls[i]).ty is Never) && literal_variant(defs, ls[i])
                == Some(v),
    decreases ls.len(),
{
    if ls.len() > 0 {
        let front = ls.drop_last();
        lemma_set_is_exact(defs, front, v);
        let before = variants_of(defs, front)->Some_0;
        assert(ls[ls.len() - 1] == ls.last());
        if !(ls.last().ty is Never) {
            crate::table::lemma_added(before, literal_variant(defs, ls.last())->Some_0);
        }
        if before.contains(v) {
            let i = choose|i: int|
                0 <= i < front.len() && !((#[trigger] front[i]).ty is Never) && literal_variant(
                    defs,
                    front[i],
                ) == Some(v);
            assert(ls[i] == front[i]);
        }
        if exists|i: int|
            0 <= i < ls.len() && !((#[trigger] ls[i]).ty is Never) && literal_variant(defs, ls[i])
                == Some(v) {
            let i = choose|i: int|
                0 <= i < ls.len() && !((#[trigger] ls[i]).ty is Never) && literal_variant(
                    defs,
                    ls[i],
                ) == Some(v);
            if i < front.len() {
                assert(front[i] == ls[i]);
            }
        }
    }
}

/// A function whose every value is a literal of a variant of the crate's own
/// enum, or diverges, has its set on record; a closure does not.
pub proof fn lemma_narrow_function_is_recorded(
    defs: Definitions,
    s: NarrowedView,
    def: DefId,
    body: Expr,
    did: DefId,
    set: Seq<DefId>,
)
    requires
        body.ty matches crate::ty::Ty::Adt(d, _) && d == did,
        defs.at(did) matches Some(d) && d.is_local && (d.adt matches Some(a) && a.kind
            == crate::defs::AdtKind::Enum),
        variants_of(defs, leaves(body)) == Some(set),
        set.len() > 0,
    ensures
        value_at(after_fn(defs, s, def, false, body).returned, def) == Some(set),
        after_fn(defs, s, def, true, body) == s,
{
    crate::table::lemma_put_and_get(s.returned, def, set);
}

proof fn lemma_suspect_listed(defs: Definitions, callee: DefId, arms: Seq<Arm>, k: int, i: int)
    requires
        0 <= i < k <= arms.len(),
        panics_on(defs, arms[i]) is Some,
    ensures
        suspects_in(defs, callee, arms, k).contains(
            Suspect { callee, variant: panics_on(defs, arms[i])->Some_0, span: arms[i].span },
        ),
    decreases k,
{
    let x = Suspect { callee, variant: panics_on(defs, arms[i])->Some_0, span: arms[i].span };
    let all = suspects_in(defs, callee, arms, k);
    let before = suspects_in(defs, callee, arms, k - 1);
    if i == k - 1 {
        assert(all[all.len() - 1] == x);
    } else {
        lemma_suspect_listed(defs, callee, arms, k - 1, i);
        let m = choose|m: int| 0 <= m < before.len() && before[m] == x;
        assert(all[m] == x);
    }
}

/// An arm of a `match` on a call of the crate's own function that panics on a
/// variant is a suspect.
pub proof fn lemma_panicking_arm_is_a_suspect(
    defs: Definitions,
    s: NarrowedView,
    e: Expr,
    scrutinee: Expr,
    arms: Seq<Arm>,
    callee: DefId,
    i: int,
)
    requires
        e.kind matches ExprKind::Match(x, a, _) && *x == scrutinee && a@ == arms,
        called_def(scrutinee) == Some(callee),
        0 <= i < arms.len(),
        panics_on(defs, arms[i]) is Some,
    ensures
        scrutinee.kind is Call && (defs.at(callee) matches Some(d) && d.is_local) && defs.is_fn(
            callee,
        ) ==> after_expr(defs, s, e).suspects.contains(
            Suspect { callee, variant: panics_on(defs, arms[i])->Some_0, span: arms[i].span },
        ),
        scrutinee.kind is MethodCall || !defs.is_fn(callee) || !defs.local(callee) ==> after_expr(
            defs,
            s,
            e,
        ) == s,
{
    lemma_suspect_listed(defs, callee, arms, arms.len() as int, i);
    let x = Suspect { callee, variant: panics_on(defs, arms[i])->Some_0, span: arms[i].span };
    crate::table::lemma_either(s.suspects, suspects_in(defs, callee, arms, arms.len() as int), x);
}

/// An arm that panics on a variant its callee never returns is reported.
pub proof fn lemma_dead_arm_is_reported(
    defs: Definitions,
    s: NarrowedView,
    k: int,
    j: int,
    set: Seq<DefId>,
)
    requires
        0 <= j < k <= s.suspects.len(),
        value_at(s.returned, s.suspects[j].callee) == Some(set),
        !set.contains(s.suspects[j].variant),
    ensures
        exists|i: int|
            0 <= i < narrowed_findings(defs, s, k).len() && (#[trigger] narrowed_findings(
                defs,
                s,
                k,
            )[i]).at == s.suspects[j].span && narrowed_findings(defs, s, k)[i].lint
                == Lint::NarrowedReturn,
    decreases k,
{
    let all = narrowed_findings(defs, s, k);
    let before = narrowed_findings(defs, s, k - 1);
    if j == k - 1 {
        let n = all.len() - 1;
        assert(all[n].at == s.suspects[j].span && all[n].lint == Lint::NarrowedReturn);
    } else {
        lemma_dead_arm_is_reported(defs, s, k - 1, j, set);
        let i = choose|i: int|
            0 <= i < before.len() && (#[trigger] before[i]).at == s.suspects[j].span
                && before[i].lint == Lint::NarrowedReturn;
        assert(all[i] == before[i]);
        assert(all[i].lint == Lint::NarrowedReturn);
    }
}

/// A labelled block is broken out of with a value that leaves, where the
/// block's value is the function's.
pub proof fn lemma_labelled_block_passes_its_value(e: Expr, b: crate::hir::Block, inner: Expr)
    requires
        e.kind == ExprKind::Block(b),
    ensures
        b.labelled ==> passed(e).contains(b.id),
        b.expr == Some(Box::new(inner)) ==> forall|id: HirId|
            passed(inner).contains(id) ==> #[trigger] passed(e).contains(id),
{
    let own = if b.labelled {
        seq![b.id]
    } else {
        Seq::<HirId>::empty()
    };
    if b.labelled {
        assert(passed(e)[0] == b.id);
    }
    assert forall|id: HirId|
        b.expr == Some(Box::new(inner)) && passed(inner).contains(id) implies #[trigger] passed(
        e,
    ).contains(id) by {
        crate::table::lemma_either(own, passed(inner), id);
    }
}

/// A function that returns another crate's enum, or something else, has no set
/// on record.
pub proof fn lemma_other_results_are_let_be(
    defs: Definitions,
    s: NarrowedView,
    def: DefId,
    body: Expr,
)
    ensures
        !(body.ty is Adt) ==> after_fn(defs, s, def, false, body) == s,
        body.ty matches crate::ty::Ty::Adt(d, _) ==> (!defs.local(d) || !(defs.adt(
            d,
        ) matches Some(a) && a.kind == crate::defs::AdtKind::Enum) ==> after_fn(
            defs,
            s,
            def,
            false,
            body,
        ) == s),
        variants_of(defs, leaves(body)) is None ==> after_fn(defs, s, def, false, body) == s,
{
}

} // verus!
