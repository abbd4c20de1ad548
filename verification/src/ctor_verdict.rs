//! Which fields of the type it constructs a constructor checks: the failure
//! exits and the constructed values of a body, the roots of each field,
//! helpers that build the value, and the verdict.

use crate::cfg::{
    all_deciders, ascending, build_cfg, control_deps, deciders, decides, grown, insert_ascending,
    lemma_branch_terminates, lemma_control_deps_transitive, post_dominates, post_dominators,
    switch_operand_atoms, switched_on, Cfg, exit_walk, with_new,
};
use crate::ctor_facts::{
    all_def_views, atom_ok, atom_view, atom_views, atoms_ok, call_views, collect, collected,
    collected_ok, fails_on_resource, has_resource_error, is_adt, is_self_ty, lists_ok, local_lists,
    place_ok, plain_views, resource_error_list, resource_errors, valid_body, wrapper_views,
    Collected, CollectedView, Read, ReadView, Scope, block_ok,
};
use crate::ctor_flow::{
    closure_over, decision_slice, in_slice, led_to, meet, produced, slices_meet, storage_slice,
    stored,
};
use crate::defs::{AdtKind, Definitions};
use crate::ids::{DefId, Span};
use crate::mir::{Body, TerminatorKind, RETURN_PLACE};
use crate::mir_flow::{
    extended_atom, index_locals_of, operand_place, place_of_operand, Atom, AtomView,
};
use crate::text::texts;
use crate::ty::mentions;
use vstd::prelude::*;

verus! {

// ---------------------------------------------------------------- exits and roots of a body

/// `l` is the return place or is moved into it whole.
pub open spec fn returned(c: CollectedView, l: usize) -> bool {
    led_to(c.alias, RETURN_PLACE, l)
}

/// Block `b` assigns a failure into the return, and not a resource error.
pub open spec fn fails_at(c: CollectedView, b: usize) -> bool {
    ||| exists|i: int|
        0 <= i < c.wrappers.len() && (#[trigger] c.wrappers[i]).failure && !c.wrappers[i].resource
            && c.wrappers[i].block == b && returned(c, c.wrappers[i].dest)
    ||| exists|i: int|
        0 <= i < c.residuals.len() && !(#[trigger] c.residuals[i]).resource && c.residuals[i].block
            == b && returned(c, c.residuals[i].dest)
}

/// `a` holds a `Self` value that reaches the return: it is wrapped up in an
/// `Ok` or `Some` that does, or the body returns a bare `Self`.
pub open spec fn self_root(c: CollectedView, bare: bool, a: AtomView) -> bool {
    ||| exists|i: int|
        0 <= i < c.wrappers.len() && !(#[trigger] c.wrappers[i]).failure && c.wrappers[i].operand
            == Some(a) && returned(c, c.wrappers[i].dest)
    ||| bare && a == (RETURN_PLACE, Seq::<u32>::empty())
}

/// What the slices of a body start from.
#[derive(Debug)]
pub struct Facts {
    pub c: Collected,
    /// Atoms holding a `Self` value that reaches the return.
    pub self_roots: Vec<Atom>,
    /// Blocks that assign a failure into the return, minus resource errors.
    pub failure_blocks: Vec<usize>,
}

/// The body's return place is a `Self`.
pub open spec fn returns_bare(body: Body, self_did: DefId) -> bool {
    is_adt(body.local_tys@[RETURN_PLACE as int], self_did)
}

/// The facts of a body.
pub open spec fn facts_of(f: Facts, scope: Scope, body: Body) -> bool {
    &&& f.c@ == collected(scope, body)
    &&& collected_ok(f.c@, body.local_tys@.len(), body.blocks@.len())
    &&& forall|a: AtomView| #[trigger]
        plain_views(f.self_roots@).contains(a) <==> self_root(
            f.c@,
            returns_bare(body, scope.self_did),
            a,
        )
    &&& ascending(f.failure_blocks@)
    &&& forall|b: usize| #[trigger] f.failure_blocks@.contains(b) <==> fails_at(f.c@, b)
}

/// Reads a body once: its definitions, aliases, failure exits and the values
/// of `self_did` it returns.
pub fn gather(body: &Body, defs: &Definitions, entries: &Vec<String>, self_did: DefId) -> (r: Facts)
    requires
        valid_body(*body),
    ensures
        facts_of(r, (Scope { defs: *defs, entries: texts(entries@), self_did }), *body),
{
    let ghost scope = Scope { defs: *defs, entries: texts(entries@), self_did };
    let c = collect(body, defs, entries, self_did);
    let ghost n = body.local_tys@.len();
    let ghost view = c@;
    let returned_locals = closure_over(RETURN_PLACE, &c.alias);
    let mut self_roots: Vec<Atom> = Vec::new();
    let mut failure_blocks: Vec<usize> = Vec::new();
    let ghost ws = view.wrappers;
    let mut i: usize = 0;
    while i < c.wrappers.len()
        invariant
            i <= c.wrappers@.len(),
            view == c@,
            ws == wrapper_views(c.wrappers@),
            ws == view.wrappers,
            collected_ok(view, n, body.blocks@.len()),
            returned_locals@.len() == n,
            forall|l: usize| l < n ==> #[trigger] returned_locals@[l as int] == returned(view, l),
            ascending(failure_blocks@),
            forall|b: usize| #[trigger]
                failure_blocks@.contains(b) <==> exists|k: int|
                    0 <= k < i && (#[trigger] ws[k]).failure && !ws[k].resource && ws[k].block == b
                        && returned(view, ws[k].dest),
            forall|a: AtomView| #[trigger]
                plain_views(self_roots@).contains(a) <==> exists|k: int|
                    0 <= k < i && !(#[trigger] ws[k]).failure && ws[k].operand == Some(a)
                        && returned(view, ws[k].dest),
        decreases c.wrappers.len() - i,
    {
        let w = &c.wrappers[i];
        let ghost here = ws[i as int];
        assert(here == w@);
        assert(here.dest < n);
        let ghost blocks0 = failure_blocks@;
        let ghost roots0 = plain_views(self_roots@);
        if returned_locals[w.dest] {
            if w.failure {
                if !w.resource {
                    insert_ascending(&mut failure_blocks, w.block);
                }
            } else {
                match &w.operand {
                    Some(a) => {
                        let b = a.copied();
                        let ghost before = self_roots@;
                        self_roots.push(b);
                        assert(plain_views(self_roots@) =~= plain_views(before).push(b@));
                    },
                    None => {},
                }
            }
        }
        proof {
            assert forall|b: usize| #[trigger]
                failure_blocks@.contains(b) <==> exists|k: int|
                    0 <= k < i + 1 && (#[trigger] ws[k]).failure && !ws[k].resource && ws[k].block
                        == b && returned(view, ws[k].dest) by {
                if failure_blocks@.contains(b) {
                    if blocks0.contains(b) {
                        let k = choose|k: int|
                            0 <= k < i && (#[trigger] ws[k]).failure && !ws[k].resource
                                && ws[k].block == b && returned(view, ws[k].dest);
                        assert(ws[k].failure);
                    } else {
                        assert(ws[i as int].failure);
                    }
                }
                if exists|k: int|
                    0 <= k < i + 1 && (#[trigger] ws[k]).failure && !ws[k].resource && ws[k].block
                        == b && returned(view, ws[k].dest) {
                    let k = choose|k: int|
                        0 <= k < i + 1 && (#[trigger] ws[k]).failure && !ws[k].resource
                            && ws[k].block == b && returned(view, ws[k].dest);
                    if k < i {
                        assert(blocks0.contains(b));
                    }
                }
            }
            assert forall|a: AtomView| #[trigger]
                plain_views(self_roots@).contains(a) <==> exists|k: int|
                    0 <= k < i + 1 && !(#[trigger] ws[k]).failure && ws[k].operand == Some(a)
                        && returned(view, ws[k].dest) by {
                let pushes = returned(view, here.dest) && !here.failure && here.operand is Some;
                if pushes {
                    lemma_views_push(roots0, here.operand->Some_0, a);
                }
                if plain_views(self_roots@).contains(a) {
                    if roots0.contains(a) {
                        let k = choose|k: int|
                            0 <= k < i && !(#[trigger] ws[k]).failure && ws[k].operand == Some(a)
                                && returned(view, ws[k].dest);
                        assert(!ws[k].failure);
                    } else {
                        assert(!ws[i as int].failure);
                    }
                }
                if exists|k: int|
                    0 <= k < i + 1 && !(#[trigger] ws[k]).failure && ws[k].operand == Some(a)
                        && returned(view, ws[k].dest) {
                    let k = choose|k: int|
                        0 <= k < i + 1 && !(#[trigger] ws[k]).failure && ws[k].operand == Some(a)
                            && returned(view, ws[k].dest);
                    if k < i {
                        assert(roots0.contains(a));
                    }
                }
            }
        }
        i = i + 1;
    }
    let ghost wrapped_blocks = failure_blocks@;
    let ghost rs = c.residuals@;
    let mut j: usize = 0;
    while j < c.residuals.len()
        invariant
            j <= c.residuals@.len(),
            view == c@,
            rs == c.residuals@,
            collected_ok(view, n, body.blocks@.len()),
            returned_locals@.len() == n,
            forall|l: usize| l < n ==> #[trigger] returned_locals@[l as int] == returned(view, l),
            ascending(failure_blocks@),
            forall|b: usize| #[trigger]
                failure_blocks@.contains(b) <==> wrapped_blocks.contains(b) || exists|k: int|
                    0 <= k < j && !(#[trigger] rs[k]).resource && rs[k].block == b && returned(
                        view,
                        rs[k].dest,
                    ),
        decreases c.residuals.len() - j,
    {
        let r = c.residuals[j];
        assert(view.residuals[j as int].dest < n);
        let ghost blocks0 = failure_blocks@;
        if returned_locals[r.dest] && !r.resource {
            insert_ascending(&mut failure_blocks, r.block);
        }
        proof {
            assert forall|b: usize| #[trigger]
                failure_blocks@.contains(b) <==> wrapped_blocks.contains(b) || exists|k: int|
                    0 <= k < j + 1 && !(#[trigger] rs[k]).resource && rs[k].block == b && returned(
                        view,
                        rs[k].dest,
                    ) by {
                if failure_blocks@.contains(b) && !wrapped_blocks.contains(b) {
                    if blocks0.contains(b) {
                        let k = choose|k: int|
                            0 <= k < j && !(#[trigger] rs[k]).resource && rs[k].block == b
                                && returned(view, rs[k].dest);
                        assert(!rs[k].resource);
                    } else {
                        assert(!rs[j as int].resource);
                    }
                }
                if exists|k: int|
                    0 <= k < j + 1 && !(#[trigger] rs[k]).resource && rs[k].block == b && returned(
                        view,
                        rs[k].dest,
                    ) {
                    let k = choose|k: int|
                        0 <= k < j + 1 && !(#[trigger] rs[k]).resource && rs[k].block == b
                            && returned(view, rs[k].dest);
                    if k < j {
                        assert(blocks0.contains(b));
                    }
                }
            }
        }
        j = j + 1;
    }
    let ghost roots1 = plain_views(self_roots@);
    let bare = is_self_ty(&body.local_tys[RETURN_PLACE], self_did);
    if bare {
        let whole = Atom::whole(RETURN_PLACE);
        let ghost before = self_roots@;
        self_roots.push(whole);
        proof {
            assert(plain_views(self_roots@) =~= plain_views(before).push(whole@));
        }
    }
    proof {
        assert forall|a: AtomView| #[trigger] plain_views(self_roots@).contains(a) <==> self_root(
            view,
            bare,
            a,
        ) by {
            if bare {
                lemma_views_push(roots1, (RETURN_PLACE, Seq::<u32>::empty()), a);
            }
        }
        assert forall|b: usize| #[trigger] failure_blocks@.contains(b) <==> fails_at(view, b) by {
            if failure_blocks@.contains(b) {
                if wrapped_blocks.contains(b) {
                    let k = choose|k: int|
                        0 <= k < ws.len() && (#[trigger] ws[k]).failure && !ws[k].resource
                            && ws[k].block == b && returned(view, ws[k].dest);
                    assert(view.wrappers[k].failure);
                } else {
                    let k = choose|k: int|
                        0 <= k < rs.len() && !(#[trigger] rs[k]).resource && rs[k].block == b
                            && returned(view, rs[k].dest);
                    assert(!view.residuals[k].resource);
                }
            }
        }
    }
    Facts { c, self_roots, failure_blocks }
}

proof fn lemma_views_push(s: Seq<AtomView>, a: AtomView, x: AtomView)
    ensures
        s.push(a).contains(x) <==> s.contains(x) || x == a,
{
    let t = s.push(a);
    assert(t[s.len() as int] == a);
    if s.contains(x) {
        let k = choose|k: int| 0 <= k < s.len() && s[k] == x;
        assert(t[k] == x);
    }
    if t.contains(x) && x != a {
        let k = choose|k: int| 0 <= k < t.len() && t[k] == x;
        assert(s[k] == x);
    }
}

// ---------------------------------------------------------------- resource branches

/// The local a branch switches on, if it switches on a place.
pub open spec fn switch_local(body: Body, bb: int) -> Option<usize> {
    match body.blocks@[bb].terminator {
        Some(t) => match t.kind {
            TerminatorKind::SwitchInt { discr, targets } => match place_of_operand(discr) {
                Some(p) => Some(p.local),
                None => None,
            },
            _ => None,
        },
        None => None,
    }
}

/// The read is of the discriminant of `l`, or of something that `?` took
/// `l` apart into.
pub open spec fn discriminant_of(c: CollectedView, r: ReadView, l: usize) -> bool {
    r matches ReadView::Discr(a) && (l == a.0 || c.alias[a.0 as int].contains(l))
}

/// `l` is what is switched on, what its discriminant is of, or what that was
/// taken apart from by `?`.
pub open spec fn switch_candidate(c: CollectedView, p: usize, l: usize) -> bool {
    ||| l == p
    ||| exists|d: int, k: int|
        0 <= d < c.defs[p as int].len() && 0 <= k < c.defs[p as int][d].reads.len()
            && discriminant_of(c, #[trigger] c.defs[p as int][d].reads[k], l)
}

/// The branch at `bb` switches on the discriminant of a `Result<_, E>` whose
/// `E` is a resource error: its outcome is the environment's, whatever the
/// constructor then returns.
pub open spec fn resource_branch(scope: Scope, body: Body, bb: int) -> bool {
    match switch_local(body, bb) {
        Some(p) => resource_switch(scope, body, p),
        None => false,
    }
}

/// Something that a switch on `p` looks at fails on a resource error.
pub open spec fn resource_switch(scope: Scope, body: Body, p: usize) -> bool {
    exists|l: usize| #[trigger]
        switch_candidate(collected(scope, body), p, l) && fails_on_resource(
            scope.defs,
            body.local_tys@[l as int],
            scope.entries,
        )
}

fn resource_local(defs: &Definitions, entries: &Vec<String>, body: &Body, l: usize) -> (r: bool)
    requires
        l < body.local_tys@.len(),
    ensures
        r == fails_on_resource(*defs, body.local_tys@[l as int], texts(entries@)),
{
    has_resource_error(defs, &body.local_tys[l], entries)
}

pub fn decides_on_resource(
    defs: &Definitions,
    entries: &Vec<String>,
    body: &Body,
    facts: &Facts,
    bb: usize,
    self_did: DefId,
) -> (r: bool)
    requires
        valid_body(*body),
        bb < body.blocks@.len(),
        body.blocks@[bb as int].terminator is Some,
        facts_of(*facts, (Scope { defs: *defs, entries: texts(entries@), self_did }), *body),
    ensures
        r == resource_branch(
            (Scope { defs: *defs, entries: texts(entries@), self_did }),
            *body,
            bb as int,
        ),
{
    let ghost scope = Scope { defs: *defs, entries: texts(entries@), self_did };
    let ghost c = facts.c@;
    let ghost n = body.local_tys@.len();
    assert(block_ok(body.blocks@[bb as int], n));
    let p: usize = match &body.blocks[bb].terminator {
        Some(t) => match &t.kind {
            TerminatorKind::SwitchInt { discr, targets } => match operand_place(discr) {
                Some(p) => p.local,
                None => {
                    return false;
                },
            },
            _ => {
                return false;
            },
        },
        None => {
            return false;
        },
    };
    assert(p < n);
    if resource_local(defs, entries, body, p) {
        assert(switch_candidate(collected(scope, *body), p, p));
        assert(resource_switch(scope, *body, p));
        return true;
    }
    let ghost ds = c.defs[p as int];
    assert(all_def_views(facts.c.defs@)[p as int] == ds);
    let mut d: usize = 0;
    while d < facts.c.defs[p].len()
        invariant
            c == facts.c@,
            n == body.local_tys@.len(),
            collected_ok(c, n, body.blocks@.len()),
            p < n,
            ds == c.defs[p as int],
            ds == crate::ctor_facts::def_views(facts.c.defs@[p as int]@),
            d <= ds.len(),
            c == collected(scope, *body),
            scope == (Scope { defs: *defs, entries: texts(entries@), self_did }),
            switch_local(*body, bb as int) == Some(p),
            !fails_on_resource(*defs, body.local_tys@[p as int], texts(entries@)),
            forall|i: int, k: int, l: usize|
                0 <= i < d && 0 <= k < ds[i].reads.len() && #[trigger] discriminant_of(
                    c,
                    ds[i].reads[k],
                    l,
                ) ==> !fails_on_resource(*defs, body.local_tys@[l as int], texts(entries@)),
        decreases ds.len() - d,
    {
        let ghost reads = ds[d as int].reads;
        assert(ds[d as int] == facts.c.defs@[p as int]@[d as int]@);
        let mut k: usize = 0;
        while k < facts.c.defs[p][d].reads.len()
            invariant
                c == facts.c@,
                n == body.local_tys@.len(),
                collected_ok(c, n, body.blocks@.len()),
                p < n,
                ds == c.defs[p as int],
                ds == crate::ctor_facts::def_views(facts.c.defs@[p as int]@),
                d < ds.len(),
                reads == ds[d as int].reads,
                reads == crate::ctor_facts::read_views(
                    facts.c.defs@[p as int]@[d as int].reads@,
                ),
                k <= reads.len(),
                c == collected(scope, *body),
                scope == (Scope { defs: *defs, entries: texts(entries@), self_did }),
                switch_local(*body, bb as int) == Some(p),
                forall|i: int, l: usize|
                    0 <= i < k && #[trigger] discriminant_of(c, reads[i], l) ==> !fails_on_resource(
                        *defs,
                        body.local_tys@[l as int],
                        texts(entries@),
                    ),
            decreases reads.len() - k,
        {
            assert(reads[k as int] == facts.c.defs@[p as int]@[d as int].reads@[k as int]@);
            assert(crate::ctor_facts::reads_ok(c.defs[p as int][d as int].reads, n));
            assert(crate::ctor_facts::read_ok(reads[k as int], n));
            match &facts.c.defs[p][d].reads[k] {
                Read::Discr(a) => {
                    let l: usize = a.local;
                    let ghost av = a@;
                    assert(reads[k as int] == ReadView::Discr(av));
                    assert(c.defs[p as int][d as int].reads[k as int] == ReadView::Discr(av));
                    assert(discriminant_of(c, c.defs[p as int][d as int].reads[k as int], l));
                    if resource_local(defs, entries, body, l) {
                        assert(switch_candidate(collected(scope, *body), p, l));
                        assert(resource_switch(scope, *body, p));
                        return true;
                    }
                    let ghost al = c.alias[l as int];
                    assert(al == facts.c.alias@[l as int]@);
                    let mut j: usize = 0;
                    while j < facts.c.alias[l].len()
                        invariant
                            c == facts.c@,
                            n == body.local_tys@.len(),
                            collected_ok(c, n, body.blocks@.len()),
                            l < n,
                            av.0 == l,
                            al == c.alias[l as int],
                            al == facts.c.alias@[l as int]@,
                            j <= al.len(),
                            d < c.defs[p as int].len(),
                            k < c.defs[p as int][d as int].reads.len(),
                            c.defs[p as int][d as int].reads[k as int] == ReadView::Discr(av),
                            c == collected(scope, *body),
                            scope == (Scope { defs: *defs, entries: texts(entries@), self_did }),
                            switch_local(*body, bb as int) == Some(p),
                            forall|i: int|
                                0 <= i < j ==> !fails_on_resource(
                                    *defs,
                                    body.local_tys@[#[trigger] al[i] as int],
                                    texts(entries@),
                                ),
                        decreases al.len() - j,
                    {
                        assert(c.alias[l as int][j as int] < n);
                        let m: usize = facts.c.alias[l][j];
                        if resource_local(defs, entries, body, m) {
                            assert(al[j as int] == m);
                            assert(al.contains(m));
                            assert(discriminant_of(
                                c,
                                c.defs[p as int][d as int].reads[k as int],
                                m,
                            ));
                            assert(switch_candidate(collected(scope, *body), p, m));
                            assert(resource_switch(scope, *body, p));
                            return true;
                        }
                        j = j + 1;
                    }
                    proof {
                        assert forall|m: usize| al.contains(m) implies !fails_on_resource(
                            *defs,
                            body.local_tys@[m as int],
                            texts(entries@),
                        ) by {
                            let i = choose|i: int| 0 <= i < al.len() && al[i] == m;
                            assert(al[i] == m);
                        }
                    }
                },
                _ => {},
            }
            k = k + 1;
        }
        d = d + 1;
    }
    proof {
        assert forall|l: usize| #[trigger] switch_candidate(c, p, l) implies !fails_on_resource(
            *defs,
            body.local_tys@[l as int],
            texts(entries@),
        ) by {
            if l != p {
                let (i, k) = choose|i: int, k: int|
                    0 <= i < c.defs[p as int].len() && 0 <= k < c.defs[p as int][i].reads.len()
                        && discriminant_of(c, #[trigger] c.defs[p as int][i].reads[k], l);
                assert(discriminant_of(c, ds[i].reads[k], l));
            }
        }
    }
    false
}

// ---------------------------------------------------------------- per-field roots and helpers

/// The definitions and the bodies the compiler can give, by `DefId`.
#[derive(Debug)]
pub struct Program {
    pub defs: Definitions,
    pub bodies: Vec<Option<Body>>,
}

impl Program {
    /// The body of a definition.
    pub open spec fn body(self, def: DefId) -> Option<Body> {
        if (def.0 as int) < self.bodies@.len() {
            self.bodies@[def.0 as int]
        } else {
            None
        }
    }

    /// Every body is as the compiler makes them.
    pub open spec fn valid(self) -> bool {
        forall|i: int|
            0 <= i < self.bodies@.len() ==> (#[trigger] self.bodies@[i] matches Some(b)
                ==> valid_body(b))
    }

    pub fn body_of(&self, def: DefId) -> (r: Option<&Body>)
        requires
            self.valid(),
        ensures
            match r {
                Some(b) => self.body(def) == Some(*b) && valid_body(*b),
                None => self.body(def) is None,
            },
    {
        if (def.0 as usize) < self.bodies.len() {
            match &self.bodies[def.0 as usize] {
                Some(b) => {
                    assert(self.bodies@[def.0 as int] matches Some(b) ==> valid_body(b));
                    Some(b)
                },
                None => None,
            }
        } else {
            None
        }
    }

    /// A function's return type mentions `did`.
    pub open spec fn yields(self, def: DefId, did: DefId) -> bool {
        self.defs.sig(def) matches Some(s) && mentions(s.output, did)
    }

    fn can_yield(&self, def: DefId, did: DefId) -> (r: bool)
        ensures
            r == self.yields(def, did),
    {
        match self.defs.sig_of(def) {
            Some(s) => s.output.mentions_adt(did),
            None => false,
        }
    }
}

/// For each field, the parameters of a helper that flow into it.
pub type SummaryView = Seq<Set<usize>>;

/// What is known of each helper so far; nothing, for one that is being looked
/// at or has no body.
pub type MemoView = Map<DefId, Option<SummaryView>>;

/// For each field, the atoms it is built from.
pub type RootsView = Seq<Set<AtomView>>;

/// The lists of both kinds of moves.
pub open spec fn moves(c: CollectedView) -> Seq<Seq<usize>> {
    Seq::new(c.alias.len(), |l: int| c.alias[l] + c.payload_alias[l])
}

/// A `Self` that reaches the return passes through `l` whole.
pub open spec fn carrier(c: CollectedView, bare: bool, l: usize) -> bool {
    exists|r: AtomView| #[trigger] self_root(c, bare, r) && r.1.len() == 0 && led_to(moves(c), r.0, l)
}

/// The fields of `Self` values that are parts of something else.
pub open spec fn part_roots(c: CollectedView, bare: bool, nfields: nat) -> RootsView {
    Seq::new(
        nfields,
        |f: int|
            Set::new(
                |a: AtomView|
                    exists|r: AtomView| #[trigger]
                        self_root(c, bare, r) && r.1.len() > 0 && a == extended_atom(
                            r,
                            seq![f as u32],
                        ),
            ),
    )
}

/// The roots with field `f` of local `l` added to each field's.
pub open spec fn with_local(roots: RootsView, l: usize) -> RootsView {
    roots.map(|f: int, s: Set<AtomView>| s.insert((l, seq![f as u32])))
}

/// The roots with the arguments that a helper stores added.
pub open spec fn with_arguments(
    roots: RootsView,
    summary: SummaryView,
    args: Seq<Option<AtomView>>,
) -> RootsView {
    roots.map(
        |f: int, s: Set<AtomView>|
            s.union(
                Set::new(
                    |a: AtomView|
                        f < summary.len() && exists|p: usize| #[trigger]
                            summary[f].contains(p) && p < args.len() && args[p as int] == Some(a),
                ),
            ),
    )
}

/// What helper `def` (returning `Self`, `Result<Self, _>` or `Option<Self>`)
/// stores of its parameters in each field, and what is known afterwards.
/// A helper met again while it is looked at, one too deep, and one without a
/// body give nothing.
pub open spec fn summarized(
    prog: Program,
    self_did: DefId,
    def: DefId,
    memo: MemoView,
    depth: int,
) -> (Option<SummaryView>, MemoView)
    decreases 5 - depth, 0nat, 0int,
{
    if memo.contains_key(def) {
        (memo[def], memo)
    } else if depth > 3 {
        (None, memo)
    } else {
        let opened = memo.insert(def, None);
        match prog.body(def) {
            None => (None, opened),
            Some(body) => {
                let c = collected(
                    Scope { defs: prog.defs, entries: resource_errors(), self_did },
                    body,
                );
                let (roots, known) = rooted(prog, self_did, body, c, opened, depth + 1);
                let out = parameters(c, roots, body.arg_count);
                (Some(out), known.insert(def, Some(out)))
            },
        }
    }
}

/// For each field, the parameters its storage slice reaches.
pub open spec fn parameters(c: CollectedView, roots: RootsView, arg_count: usize) -> SummaryView {
    roots.map_values(
        |r: Set<AtomView>|
            Set::new(
                |p: usize|
                    p < arg_count && exists|a: AtomView| #[trigger]
                        stored(c.defs, r, a) && a.0 == p + 1,
            ),
    )
}

/// For each field, the atoms it is built from: that field of every
/// `Self`-typed local the returned value passes through, plus helper-call
/// arguments the helper stores in it; and what is known of helpers
/// afterwards.
pub open spec fn rooted(
    prog: Program,
    self_did: DefId,
    body: Body,
    c: CollectedView,
    memo: MemoView,
    depth: int,
) -> (RootsView, MemoView)
    decreases 5 - depth, 3nat, 0int,
{
    rooted_locals(prog, self_did, body, c, memo, depth, body.local_tys@.len() as int)
}

/// The roots once the first `k` locals have been looked at.
pub open spec fn rooted_locals(
    prog: Program,
    self_did: DefId,
    body: Body,
    c: CollectedView,
    memo: MemoView,
    depth: int,
    k: int,
) -> (RootsView, MemoView)
    decreases 5 - depth, 2nat, k,
{
    let bare = returns_bare(body, self_did);
    if k <= 0 {
        (part_roots(c, bare, prog.defs.fields(self_did).len()), memo)
    } else {
        let before = rooted_locals(prog, self_did, body, c, memo, depth, k - 1);
        let l = (k - 1) as usize;
        if !carrier(c, bare, l) {
            before
        } else {
            let own = if is_adt(body.local_tys@[k - 1], self_did) {
                with_local(before.0, l)
            } else {
                before.0
            };
            rooted_calls(prog, self_did, c, (own, before.1), depth, l, c.calls.len() as int)
        }
    }
}

/// The roots once the first `j` calls whose result is local `l` have been
/// looked at.
pub open spec fn rooted_calls(
    prog: Program,
    self_did: DefId,
    c: CollectedView,
    start: (RootsView, MemoView),
    depth: int,
    l: usize,
    j: int,
) -> (RootsView, MemoView)
    decreases 5 - depth, 1nat, j,
{
    if j <= 0 {
        start
    } else {
        let before = rooted_calls(prog, self_did, c, start, depth, l, j - 1);
        let call = c.calls[j - 1];
        if call.dest != l || !prog.yields(call.callee, self_did) {
            before
        } else {
            let (summary, known) = summarized(prog, self_did, call.callee, before.1, depth);
            match summary {
                Some(s) => (with_arguments(before.0, s, call.args), known),
                None => (before.0, known),
            }
        }
    }
}

/// What is known of one helper.
#[derive(Debug)]
pub struct MemoEntry {
    pub def: DefId,
    pub summary: Option<Vec<Vec<usize>>>,
}

pub open spec fn summary_view(v: Seq<Vec<usize>>) -> SummaryView {
    v.map_values(|l: Vec<usize>| l@.to_set())
}

pub open spec fn optional_summary(s: Option<Vec<Vec<usize>>>) -> Option<SummaryView> {
    match s {
        Some(v) => Some(summary_view(v@)),
        None => None,
    }
}

/// Entries as a map: a later one replaces an earlier one.
pub open spec fn memo_view(entries: Seq<MemoEntry>) -> MemoView
    decreases entries.len(),
{
    if entries.len() == 0 {
        Map::empty()
    } else {
        memo_view(entries.drop_last()).insert(
            entries.last().def,
            optional_summary(entries.last().summary),
        )
    }
}

fn copy_locals(v: &Vec<usize>) -> (r: Vec<usize>)
    ensures
        r@ == v@,
{
    let mut out: Vec<usize> = Vec::new();
    let mut i: usize = 0;
    while i < v.len()
        invariant
            i <= v@.len(),
            out@ == v@.take(i as int),
        decreases v.len() - i,
    {
        out.push(v[i]);
        assert(v@.take(i + 1) =~= v@.take(i as int).push(v@[i as int]));
        i = i + 1;
    }
    assert(v@.take(v@.len() as int) == v@);
    out
}

fn copy_summary(v: &Vec<Vec<usize>>) -> (r: Vec<Vec<usize>>)
    ensures
        summary_view(r@) == summary_view(v@),
{
    let mut out: Vec<Vec<usize>> = Vec::new();
    let mut i: usize = 0;
    while i < v.len()
        invariant
            i <= v@.len(),
            out@.len() == i,
            forall|k: int| 0 <= k < i ==> (#[trigger] out@[k])@ == v@[k]@,
        decreases v.len() - i,
    {
        out.push(copy_locals(&v[i]));
        i = i + 1;
    }
    assert(summary_view(out@) =~= summary_view(v@));
    out
}

/// What is known of a helper: nothing yet, or a summary that may be missing.
fn recall(memo: &Vec<MemoEntry>, def: DefId) -> (r: Option<Option<Vec<Vec<usize>>>>)
    ensures
        match r {
            Some(s) => memo_view(memo@).contains_key(def) && memo_view(memo@)[def]
                == optional_summary(s),
            None => !memo_view(memo@).contains_key(def),
        },
{
    let mut k: usize = memo.len();
    assert(memo@.take(k as int) == memo@);
    while k > 0
        invariant
            k <= memo@.len(),
            memo_view(memo@).contains_key(def) == memo_view(memo@.take(k as int)).contains_key(def),
            memo_view(memo@).contains_key(def) ==> memo_view(memo@)[def] == memo_view(
                memo@.take(k as int),
            )[def],
        decreases k,
    {
        assert(memo@.take(k as int).drop_last() =~= memo@.take(k - 1));
        if memo[k - 1].def == def {
            let s = match &memo[k - 1].summary {
                Some(v) => Some(copy_summary(v)),
                None => None,
            };
            return Some(s);
        }
        k = k - 1;
    }
    assert(memo@.take(0) =~= Seq::<MemoEntry>::empty());
    None
}

fn learn(memo: &mut Vec<MemoEntry>, def: DefId, summary: Option<Vec<Vec<usize>>>)
    ensures
        memo_view(final(memo)@) == memo_view(old(memo)@).insert(def, optional_summary(summary)),
{
    let ghost before = memo@;
    memo.push(MemoEntry { def, summary });
    assert(memo@.drop_last() =~= before);
}

pub open spec fn roots_view(v: Seq<Vec<Atom>>) -> RootsView {
    v.map_values(|l: Vec<Atom>| plain_views(l@).to_set())
}

/// Every root is of a local below `n`.
pub open spec fn roots_ok(v: Seq<Vec<Atom>>, n: nat) -> bool {
    forall|f: int, i: int|
        0 <= f < v.len() && 0 <= i < v[f]@.len() ==> (#[trigger] v[f]@[i])@.0 < n
}

fn add_root(roots: &mut Vec<Vec<Atom>>, f: usize, a: Atom, Ghost(n): Ghost<nat>)
    requires
        f < old(roots)@.len(),
        roots_ok(old(roots)@, n),
        a@.0 < n,
    ensures
        final(roots)@.len() == old(roots)@.len(),
        roots_view(final(roots)@) == roots_view(old(roots)@).update(
            f as int,
            roots_view(old(roots)@)[f as int].insert(a@),
        ),
        roots_ok(final(roots)@, n),
{
    let ghost before = roots@;
    roots[f].push(a);
    proof {
        let was = plain_views(before[f as int]@);
        let is = plain_views(roots@[f as int]@);
        assert(is =~= was.push(a@));
        assert forall|x: AtomView| is.to_set().contains(x) <==> was.to_set().insert(
            a@,
        ).contains(x) by {
            lemma_views_push(was, a@, x);
        }
        assert(is.to_set() =~= was.to_set().insert(a@));
        assert(roots_view(roots@) =~= roots_view(before).update(
            f as int,
            roots_view(before)[f as int].insert(a@),
        ));
        assert forall|g: int, i: int|
            0 <= g < roots@.len() && 0 <= i < roots@[g]@.len() implies (#[trigger] roots@[g]@[i])@.0
            < n by {
            if g == f && i == before[g]@.len() {
            } else {
                assert(roots@[g]@[i] == before[g]@[i]);
            }
        }
    }
}

fn merge_moves(c: &Collected, Ghost(n): Ghost<nat>, Ghost(m): Ghost<nat>) -> (r: Vec<Vec<usize>>)
    requires
        collected_ok(c@, n, m),
    ensures
        local_lists(r@) == moves(c@),
        lists_ok(moves(c@), n),
        r@.len() == n,
{
    let mut out: Vec<Vec<usize>> = Vec::new();
    let mut l: usize = 0;
    while l < c.alias.len()
        invariant
            l <= c.alias@.len(),
            collected_ok(c@, n, m),
            out@.len() == l,
            forall|k: int|
                0 <= k < l ==> (#[trigger] out@[k])@ == c@.alias[k] + c@.payload_alias[k],
        decreases c.alias.len() - l,
    {
        assert(c@.alias[l as int] == c.alias@[l as int]@);
        assert(c@.payload_alias.len() == n);
        let mut both = copy_locals(&c.alias[l]);
        let ghost first = both@;
        let more = &c.payload_alias[l];
        assert(c@.payload_alias[l as int] == more@);
        let mut i: usize = 0;
        while i < more.len()
            invariant
                i <= more@.len(),
                both@ == first + more@.take(i as int),
            decreases more.len() - i,
        {
            both.push(more[i]);
            assert(more@.take(i + 1) =~= more@.take(i as int).push(more@[i as int]));
            assert(both@ =~= first + more@.take(i + 1));
            i = i + 1;
        }
        assert(more@.take(more@.len() as int) == more@);
        out.push(both);
        l = l + 1;
    }
    proof {
        assert(local_lists(out@) =~= moves(c@));
        assert forall|l: int, i: int|
            0 <= l < n && 0 <= i < moves(c@)[l].len() implies #[trigger] moves(c@)[l][i] < n by {
            if i < c@.alias[l].len() {
                assert(moves(c@)[l][i] == c@.alias[l][i]);
            } else {
                assert(moves(c@)[l][i] == c@.payload_alias[l][i - c@.alias[l].len()]);
            }
        }
    }
    out
}

/// The locals a returned `Self` passes through whole.
fn carriers(facts: &Facts, Ghost(scope): Ghost<Scope>, Ghost(body): Ghost<Body>) -> (r: Vec<bool>)
    requires
        valid_body(body),
        facts_of(*facts, scope, body),
    ensures
        r@.len() == body.local_tys@.len(),
        forall|l: usize|
            l < r@.len() ==> #[trigger] r@[l as int] == carrier(
                facts.c@,
                returns_bare(body, scope.self_did),
                l,
            ),
{
    let ghost n = body.local_tys@.len();
    let ghost c = facts.c@;
    let ghost bare = returns_bare(body, scope.self_did);
    let ghost roots = plain_views(facts.self_roots@);
    let lists = merge_moves(&facts.c, Ghost(n), Ghost(body.blocks@.len()));
    let mut flags: Vec<bool> = Vec::new();
    let mut i: usize = 0;
    while i < lists.len()
        invariant
            i <= lists@.len(),
            flags@.len() == i,
            forall|k: int| 0 <= k < i ==> !#[trigger] flags@[k],
        decreases lists.len() - i,
    {
        flags.push(false);
        i = i + 1;
    }
    let mut k: usize = 0;
    while k < facts.self_roots.len()
        invariant
            k <= facts.self_roots@.len(),
            n == body.local_tys@.len(),
            c == facts.c@,
            bare == returns_bare(body, scope.self_did),
            roots == plain_views(facts.self_roots@),
            facts_of(*facts, scope, body),
            valid_body(body),
            lists@.len() == n,
            local_lists(lists@) == moves(c),
            lists_ok(moves(c), n),
            flags@.len() == n,
            forall|l: usize|
                l < n ==> (#[trigger] flags@[l as int] <==> exists|j: int|
                    0 <= j < k && (#[trigger] roots[j]).1.len() == 0 && led_to(
                        moves(c),
                        roots[j].0,
                        l,
                    )),
        decreases facts.self_roots.len() - k,
    {
        let root = &facts.self_roots[k];
        assert(roots[k as int] == root@);
        let ghost before = flags@;
        if root.path.len() == 0 {
            proof {
                assert(roots.contains(roots[k as int]));
                lemma_self_root_ok(c, bare, roots[k as int], n, body.blocks@.len());
            }
            let reached = closure_over(root.local, &lists);
            let mut l: usize = 0;
            while l < flags.len()
                invariant
                    l <= flags@.len(),
                    flags@.len() == n == reached@.len() == before.len(),
                    forall|x: int|
                        0 <= x < l ==> #[trigger] flags@[x] == (before[x] || reached@[x]),
                    forall|x: int| l <= x < n ==> #[trigger] flags@[x] == before[x],
                decreases flags.len() - l,
            {
                if reached[l] {
                    flags.set(l, true);
                }
                l = l + 1;
            }
            proof {
                assert forall|l: usize| l < n implies (#[trigger] flags@[l as int] <==> exists|j: int|
                    0 <= j < k + 1 && (#[trigger] roots[j]).1.len() == 0 && led_to(
                        moves(c),
                        roots[j].0,
                        l,
                    )) by {
                    assert(flags@[l as int] == (before[l as int] || reached@[l as int]));
                    if reached@[l as int] {
                        assert(roots[k as int].1.len() == 0);
                    }
                    if before[l as int] {
                        let j = choose|j: int|
                            0 <= j < k && (#[trigger] roots[j]).1.len() == 0 && led_to(
                                moves(c),
                                roots[j].0,
                                l,
                            );
                        assert(roots[j].1.len() == 0);
                    }
                    if exists|j: int|
                        0 <= j < k + 1 && (#[trigger] roots[j]).1.len() == 0 && led_to(
                            moves(c),
                            roots[j].0,
                            l,
                        ) {
                        let j = choose|j: int|
                            0 <= j < k + 1 && (#[trigger] roots[j]).1.len() == 0 && led_to(
                                moves(c),
                                roots[j].0,
                                l,
                            );
                        if j < k {
                            assert(before[l as int]);
                        }
                    }
                }
            }
        } else {
            proof {
                assert forall|l: usize| l < n implies (#[trigger] flags@[l as int] <==> exists|j: int|
                    0 <= j < k + 1 && (#[trigger] roots[j]).1.len() == 0 && led_to(
                        moves(c),
                        roots[j].0,
                        l,
                    )) by {
                    if flags@[l as int] {
                        let j = choose|j: int|
                            0 <= j < k && (#[trigger] roots[j]).1.len() == 0 && led_to(
                                moves(c),
                                roots[j].0,
                                l,
                            );
                        assert(roots[j].1.len() == 0);
                    }
                }
            }
        }
        k = k + 1;
    }
    proof {
        assert forall|l: usize| l < n implies #[trigger] flags@[l as int] == carrier(c, bare, l) by {
            if flags@[l as int] {
                let j = choose|j: int|
                    0 <= j < roots.len() && (#[trigger] roots[j]).1.len() == 0 && led_to(
                        moves(c),
                        roots[j].0,
                        l,
                    );
                assert(roots.contains(roots[j]));
                assert(self_root(c, bare, roots[j]));
            }
            if carrier(c, bare, l) {
                let r = choose|r: AtomView| #[trigger]
                    self_root(c, bare, r) && r.1.len() == 0 && led_to(moves(c), r.0, l);
                assert(roots.contains(r));
                let j = choose|j: int| 0 <= j < roots.len() && roots[j] == r;
                assert(roots[j].1.len() == 0);
            }
        }
    }
    flags
}

proof fn lemma_self_root_ok(c: CollectedView, bare: bool, a: AtomView, n: nat, m: nat)
    requires
        collected_ok(c, n, m),
        n > 0,
        self_root(c, bare, a),
    ensures
        a.0 < n,
{
    if exists|i: int|
        0 <= i < c.wrappers.len() && !(#[trigger] c.wrappers[i]).failure && c.wrappers[i].operand
            == Some(a) && returned(c, c.wrappers[i].dest) {
        let i = choose|i: int|
            0 <= i < c.wrappers.len() && !(#[trigger] c.wrappers[i]).failure
                && c.wrappers[i].operand == Some(a) && returned(c, c.wrappers[i].dest);
        assert(atom_ok(c.wrappers[i].operand, n));
    }
}

/// The roots of `Self` values that are parts of something else.
fn roots_of_parts(
    facts: &Facts,
    nfields: usize,
    Ghost(scope): Ghost<Scope>,
    Ghost(body): Ghost<Body>,
) -> (r: Vec<Vec<Atom>>)
    requires
        valid_body(body),
        facts_of(*facts, scope, body),
    ensures
        roots_view(r@) == part_roots(
            facts.c@,
            returns_bare(body, scope.self_did),
            nfields as nat,
        ),
        roots_ok(r@, body.local_tys@.len()),
{
    let ghost n = body.local_tys@.len();
    let ghost c = facts.c@;
    let ghost bare = returns_bare(body, scope.self_did);
    let ghost selves = plain_views(facts.self_roots@);
    let mut out: Vec<Vec<Atom>> = Vec::new();
    let mut f: usize = 0;
    while f < nfields
        invariant
            f <= nfields,
            n == body.local_tys@.len(),
            c == facts.c@,
            bare == returns_bare(body, scope.self_did),
            selves == plain_views(facts.self_roots@),
            facts_of(*facts, scope, body),
            valid_body(body),
            out@.len() == f,
            roots_ok(out@, n),
            forall|g: int|
                0 <= g < f ==> #[trigger] roots_view(out@)[g] == part_roots(
                    c,
                    bare,
                    nfields as nat,
                )[g],
        decreases nfields - f,
    {
        let tail: Vec<u32> = vec![f as u32];
        assert(tail@ =~= seq![f as u32]);
        let mut mine: Vec<Atom> = Vec::new();
        let mut k: usize = 0;
        while k < facts.self_roots.len()
            invariant
                k <= facts.self_roots@.len(),
                n == body.local_tys@.len(),
                c == facts.c@,
                bare == returns_bare(body, scope.self_did),
                selves == plain_views(facts.self_roots@),
                facts_of(*facts, scope, body),
                valid_body(body),
                tail@ == seq![f as u32],
                forall|i: int| 0 <= i < mine@.len() ==> (#[trigger] mine@[i])@.0 < n,
                forall|a: AtomView| #[trigger]
                    plain_views(mine@).contains(a) <==> exists|j: int|
                        0 <= j < k && (#[trigger] selves[j]).1.len() > 0 && a == extended_atom(
                            selves[j],
                            seq![f as u32],
                        ),
            decreases facts.self_roots.len() - k,
        {
            assert(selves[k as int] == facts.self_roots@[k as int]@);
            let ghost before = plain_views(mine@);
            let ghost here = selves[k as int];
            if facts.self_roots[k].path.len() > 0 {
                let a = facts.self_roots[k].extended(&tail);
                proof {
                    assert(selves.contains(here));
                    lemma_self_root_ok(c, bare, here, n, body.blocks@.len());
                    assert(plain_views(mine@.push(a)) =~= before.push(a@));
                }
                mine.push(a);
            }
            proof {
                let target = extended_atom(here, seq![f as u32]);
                assert forall|a: AtomView| #[trigger]
                    plain_views(mine@).contains(a) <==> exists|j: int|
                        0 <= j < k + 1 && (#[trigger] selves[j]).1.len() > 0 && a == extended_atom(
                            selves[j],
                            seq![f as u32],
                        ) by {
                    if here.1.len() > 0 {
                        lemma_views_push(before, target, a);
                    }
                    if plain_views(mine@).contains(a) {
                        if before.contains(a) {
                            let j = choose|j: int|
                                0 <= j < k && (#[trigger] selves[j]).1.len() > 0 && a
                                    == extended_atom(selves[j], seq![f as u32]);
                            assert(selves[j].1.len() > 0);
                        } else {
                            assert(selves[k as int].1.len() > 0);
                        }
                    }
                    if exists|j: int|
                        0 <= j < k + 1 && (#[trigger] selves[j]).1.len() > 0 && a == extended_atom(
                            selves[j],
                            seq![f as u32],
                        ) {
                        let j = choose|j: int|
                            0 <= j < k + 1 && (#[trigger] selves[j]).1.len() > 0 && a
                                == extended_atom(selves[j], seq![f as u32]);
                        if j < k {
                            assert(before.contains(a));
                        }
                    }
                }
            }
            k = k + 1;
        }
        let ghost outer = out@;
        let ghost inner = mine@;
        out.push(mine);
        proof {
            let want = part_roots(c, bare, nfields as nat)[f as int];
            assert forall|a: AtomView| plain_views(inner).to_set().contains(a) <==> want.contains(
                a,
            ) by {
                if plain_views(inner).contains(a) {
                    let j = choose|j: int|
                        0 <= j < selves.len() && (#[trigger] selves[j]).1.len() > 0 && a
                            == extended_atom(selves[j], seq![f as u32]);
                    assert(selves.contains(selves[j]));
                    assert(self_root(c, bare, selves[j]));
                }
                if want.contains(a) {
                    let r = choose|r: AtomView| #[trigger]
                        self_root(c, bare, r) && r.1.len() > 0 && a == extended_atom(
                            r,
                            seq![f as u32],
                        );
                    assert(selves.contains(r));
                    let j = choose|j: int| 0 <= j < selves.len() && selves[j] == r;
                    assert(selves[j].1.len() > 0);
                }
            }
            assert(plain_views(inner).to_set() =~= want);
            assert forall|g: int| 0 <= g < f + 1 implies #[trigger] roots_view(out@)[g]
                == part_roots(c, bare, nfields as nat)[g] by {
                if g < f {
                    assert(roots_view(out@)[g] == roots_view(outer)[g]);
                }
            }
            assert forall|g: int, i: int|
                0 <= g < out@.len() && 0 <= i < out@[g]@.len() implies (#[trigger] out@[g]@[i])@.0
                < n by {
                if g < f {
                    assert(out@[g]@[i] == outer[g]@[i]);
                } else {
                    assert(out@[g]@[i] == inner[i]);
                }
            }
        }
        f = f + 1;
    }
    assert(roots_view(out@) =~= part_roots(c, bare, nfields as nat));
    out
}

/// Adds field `f` of local `l` to each field's roots.
fn add_local_roots(roots: &mut Vec<Vec<Atom>>, l: usize, Ghost(n): Ghost<nat>)
    requires
        roots_ok(old(roots)@, n),
        l < n,
    ensures
        roots_view(final(roots)@) == with_local(roots_view(old(roots)@), l),
        roots_ok(final(roots)@, n),
{
    let ghost start = roots_view(roots@);
    let mut f: usize = 0;
    while f < roots.len()
        invariant
            f <= roots@.len() == start.len(),
            l < n,
            roots_ok(roots@, n),
            forall|g: int|
                0 <= g < f ==> #[trigger] roots_view(roots@)[g] == start[g].insert(
                    (l, seq![g as u32]),
                ),
            forall|g: int| f <= g < start.len() ==> #[trigger] roots_view(roots@)[g] == start[g],
        decreases roots.len() - f,
    {
        let path: Vec<u32> = vec![f as u32];
        assert(path@ =~= seq![f as u32]);
        let a = Atom { local: l, path };
        add_root(roots, f, a, Ghost(n));
        f = f + 1;
    }
    assert(roots_view(roots@) =~= with_local(start, l));
}

/// Adds the arguments a helper stores.
fn add_argument_roots(
    roots: &mut Vec<Vec<Atom>>,
    summary: &Vec<Vec<usize>>,
    args: &Vec<Option<Atom>>,
    Ghost(n): Ghost<nat>,
)
    requires
        roots_ok(old(roots)@, n),
        atoms_ok(atom_views(args@), n),
    ensures
        roots_view(final(roots)@) == with_arguments(
            roots_view(old(roots)@),
            summary_view(summary@),
            atom_views(args@),
        ),
        roots_ok(final(roots)@, n),
{
    let ghost start = roots_view(roots@);
    let ghost sv = summary_view(summary@);
    let ghost av = atom_views(args@);
    let ghost want = with_arguments(start, sv, av);
    let mut f: usize = 0;
    while f < roots.len()
        invariant
            f <= roots@.len() == start.len(),
            roots_ok(roots@, n),
            atoms_ok(av, n),
            sv == summary_view(summary@),
            av == atom_views(args@),
            want == with_arguments(start, sv, av),
            forall|g: int| 0 <= g < f ==> #[trigger] roots_view(roots@)[g] == want[g],
            forall|g: int| f <= g < start.len() ==> #[trigger] roots_view(roots@)[g] == start[g],
        decreases roots.len() - f,
    {
        if f < summary.len() {
            let params = &summary[f];
            assert(sv[f as int] == params@.to_set());
            let mut i: usize = 0;
            while i < params.len()
                invariant
                    i <= params@.len(),
                    f < roots@.len() == start.len(),
                    roots_ok(roots@, n),
                    atoms_ok(av, n),
                    av == atom_views(args@),
                    want == with_arguments(start, sv, av),
                    forall|g: int| 0 <= g < f ==> #[trigger] roots_view(roots@)[g] == want[g],
                    forall|g: int|
                        f < g < start.len() ==> #[trigger] roots_view(roots@)[g] == start[g],
                    forall|a: AtomView| #[trigger]
                        roots_view(roots@)[f as int].contains(a) <==> start[f as int].contains(a)
                            || exists|j: int|
                            0 <= j < i && (#[trigger] params@[j]) < av.len() && av[params@[j] as int]
                                == Some(a),
                decreases params.len() - i,
            {
                let p: usize = params[i];
                let ghost before = roots_view(roots@)[f as int];
                let ghost whole = roots_view(roots@);
                if p < args.len() {
                    assert(av[p as int] == atom_view(args@[p as int]));
                    assert(atom_ok(av[p as int], n));
                    match &args[p] {
                        Some(a) => {
                            let b = a.copied();
                            add_root(roots, f, b, Ghost(n));
                        },
                        None => {},
                    }
                }
                proof {
                    assert forall|g: int| 0 <= g < f implies #[trigger] roots_view(roots@)[g]
                        == want[g] by {
                        assert(roots_view(roots@)[g] == whole[g]);
                    }
                    assert forall|g: int| f < g < start.len() implies #[trigger] roots_view(
                        roots@,
                    )[g] == start[g] by {
                        assert(roots_view(roots@)[g] == whole[g]);
                    }
                    assert forall|a: AtomView| #[trigger]
                        roots_view(roots@)[f as int].contains(a) <==> start[f as int].contains(a)
                            || exists|j: int|
                            0 <= j < i + 1 && (#[trigger] params@[j]) < av.len()
                                && av[params@[j] as int] == Some(a) by {
                        if roots_view(roots@)[f as int].contains(a) && !start[f as int].contains(
                            a,
                        ) {
                            if before.contains(a) {
                                let j = choose|j: int|
                                    0 <= j < i && (#[trigger] params@[j]) < av.len()
                                        && av[params@[j] as int] == Some(a);
                                assert(params@[j] < av.len());
                            } else {
                                assert(params@[i as int] < av.len());
                            }
                        }
                        if exists|j: int|
                            0 <= j < i + 1 && (#[trigger] params@[j]) < av.len()
                                && av[params@[j] as int] == Some(a) {
                            let j = choose|j: int|
                                0 <= j < i + 1 && (#[trigger] params@[j]) < av.len()
                                    && av[params@[j] as int] == Some(a);
                            if j < i {
                                assert(before.contains(a));
                            }
                        }
                        if start[f as int].contains(a) {
                            assert(before.contains(a));
                        }
                    }
                }
                i = i + 1;
            }
            proof {
                let got = roots_view(roots@)[f as int];
                assert forall|a: AtomView| got.contains(a) <==> want[f as int].contains(a) by {
                    if got.contains(a) && !start[f as int].contains(a) {
                        let j = choose|j: int|
                            0 <= j < params@.len() && (#[trigger] params@[j]) < av.len()
                                && av[params@[j] as int] == Some(a);
                        assert(params@.contains(params@[j]));
                        assert(sv[f as int].contains(params@[j]));
                    }
                    if want[f as int].contains(a) && !start[f as int].contains(a) {
                        let p = choose|p: usize| #[trigger]
                            sv[f as int].contains(p) && p < av.len() && av[p as int] == Some(a);
                        assert(params@.contains(p));
                        let j = choose|j: int| 0 <= j < params@.len() && params@[j] == p;
                        assert(params@[j] < av.len());
                    }
                }
                assert(got =~= want[f as int]);
            }
        } else {
            assert(want[f as int] =~= start[f as int]);
        }
        f = f + 1;
    }
    assert(roots_view(roots@) =~= want);
}

/// Whether some atom of the list is of the local.
fn mentions_local(atoms: &Vec<Atom>, l: usize) -> (r: bool)
    ensures
        r == exists|a: AtomView| #[trigger] plain_views(atoms@).contains(a) && a.0 == l,
{
    let mut i: usize = 0;
    while i < atoms.len()
        invariant
            i <= atoms@.len(),
            forall|k: int| 0 <= k < i ==> (#[trigger] atoms@[k])@.0 != l,
        decreases atoms.len() - i,
    {
        if atoms[i].local == l {
            assert(plain_views(atoms@)[i as int] == atoms@[i as int]@);
            assert(plain_views(atoms@).contains(atoms@[i as int]@));
            return true;
        }
        i = i + 1;
    }
    proof {
        assert forall|a: AtomView| #[trigger] plain_views(atoms@).contains(a) implies a.0 != l by {
            let k = choose|k: int| 0 <= k < plain_views(atoms@).len() && plain_views(atoms@)[k] == a;
            assert(atoms@[k]@ == a);
        }
    }
    false
}

/// For each field, the parameters its storage slice reaches.
fn stored_parameters(c: &Collected, roots: &Vec<Vec<Atom>>, arg_count: usize, Ghost(n): Ghost<nat>, Ghost(m): Ghost<nat>) -> (r:
    Vec<Vec<usize>>)
    requires
        collected_ok(c@, n, m),
        roots_ok(roots@, n),
        arg_count < usize::MAX,
    ensures
        summary_view(r@) == parameters(c@, roots_view(roots@), arg_count),
{
    let ghost want = parameters(c@, roots_view(roots@), arg_count);
    let mut out: Vec<Vec<usize>> = Vec::new();
    let mut f: usize = 0;
    while f < roots.len()
        invariant
            f <= roots@.len(),
            collected_ok(c@, n, m),
            roots_ok(roots@, n),
            arg_count < usize::MAX,
            want == parameters(c@, roots_view(roots@), arg_count),
            out@.len() == f,
            forall|g: int| 0 <= g < f ==> #[trigger] summary_view(out@)[g] == want[g],
        decreases roots.len() - f,
    {
        proof {
            assert(all_def_views(c.defs@).len() == c.defs@.len());
            assert forall|k: int| 0 <= k < roots@[f as int]@.len() implies (
            #[trigger] roots@[f as int]@[k])@.0 < c.defs@.len() by {}
        }
        let ghost rset = roots_view(roots@)[f as int];
        assert(rset == plain_views(roots@[f as int]@).to_set());
        let (kept, _payloads) = storage_slice(&c.defs, &roots[f]);
        let mut params: Vec<usize> = Vec::new();
        let mut p: usize = 0;
        while p < arg_count
            invariant
                p <= arg_count < usize::MAX,
                forall|a: AtomView| #[trigger]
                    plain_views(kept@).contains(a) <==> stored(c@.defs, rset, a),
                forall|q: usize| #[trigger]
                    params@.contains(q) <==> q < p && exists|a: AtomView| #[trigger]
                        stored(c@.defs, rset, a) && a.0 == q + 1,
            decreases arg_count - p,
        {
            let ghost before = params@;
            let hit = mentions_local(&kept, p + 1);
            if hit {
                params.push(p);
            }
            proof {
                assert forall|q: usize| #[trigger]
                    params@.contains(q) <==> q < p + 1 && exists|a: AtomView| #[trigger]
                        stored(c@.defs, rset, a) && a.0 == q + 1 by {
                    if hit {
                        crate::cfg::lemma_push_contains(before, p, q);
                        let a = choose|a: AtomView| #[trigger]
                            plain_views(kept@).contains(a) && a.0 == p + 1;
                        assert(stored(c@.defs, rset, a));
                    }
                    if q == p && (exists|a: AtomView| #[trigger]
                        stored(c@.defs, rset, a) && a.0 == q + 1) {
                        let a = choose|a: AtomView| #[trigger]
                            stored(c@.defs, rset, a) && a.0 == q + 1;
                        assert(plain_views(kept@).contains(a));
                    }
                }
            }
            p = p + 1;
        }
        let ghost outer = out@;
        let ghost inner = params@;
        out.push(params);
        proof {
            assert(inner.to_set() =~= want[f as int]) by {
                assert forall|q: usize| inner.to_set().contains(q) <==> want[f as int].contains(
                    q,
                ) by {
                    assert(inner.contains(q) == inner.to_set().contains(q));
                }
            }
            assert forall|g: int| 0 <= g < f + 1 implies #[trigger] summary_view(out@)[g]
                == want[g] by {
                if g < f {
                    assert(summary_view(out@)[g] == summary_view(outer)[g]);
                }
            }
        }
        f = f + 1;
    }
    assert(summary_view(out@) =~= want);
    out
}

/// Which parameters of helper `def` (returning `Self`, `Result<Self, _>` or
/// `Option<Self>`) flow into which field of the `Self` it builds.
pub fn helper_summary(
    prog: &Program,
    def: DefId,
    self_did: DefId,
    memo: &mut Vec<MemoEntry>,
    depth: usize,
) -> (r: Option<Vec<Vec<usize>>>)
    requires
        prog.valid(),
        depth <= 4,
    ensures
        (optional_summary(r), memo_view(final(memo)@)) == summarized(
            *prog,
            self_did,
            def,
            memo_view(old(memo)@),
            depth as int,
        ),
    decreases 5 - depth, 0nat,
{
    match recall(memo, def) {
        Some(s) => {
            return s;
        },
        None => {},
    }
    if depth > 3 {
        return None;
    }
    learn(memo, def, None);
    match prog.body_of(def) {
        None => None,
        Some(body) => {
            let none: Vec<String> = Vec::new();
            let entries = resource_error_list(&none);
            let ghost scope = Scope { defs: prog.defs, entries: texts(entries@), self_did };
            proof {
                assert(texts(none@) =~= Seq::<Seq<char>>::empty());
                assert(texts(entries@) =~= resource_errors());
            }
            let facts = gather(body, &prog.defs, &entries, self_did);
            assert(body.arg_count < body.local_tys.len());
            let roots = field_roots(
                prog,
                body,
                &facts,
                self_did,
                memo,
                depth + 1,
                Ghost(scope),
            );
            let out = stored_parameters(
                &facts.c,
                &roots,
                body.arg_count,
                Ghost(body.local_tys@.len()),
                Ghost(body.blocks@.len()),
            );
            let kept = copy_summary(&out);
            learn(memo, def, Some(kept));
            Some(out)
        },
    }
}

/// field -> root atoms: `carrier.f` for every `Self`-typed local the returned
/// value passes through, plus helper-call arguments the helper stores in `f`.
fn field_roots(
    prog: &Program,
    body: &Body,
    facts: &Facts,
    self_did: DefId,
    memo: &mut Vec<MemoEntry>,
    depth: usize,
    Ghost(scope): Ghost<Scope>,
) -> (r: Vec<Vec<Atom>>)
    requires
        prog.valid(),
        valid_body(*body),
        scope.self_did == self_did,
        facts_of(*facts, scope, *body),
        depth <= 4,
    ensures
        (roots_view(r@), memo_view(final(memo)@)) == rooted(
            *prog,
            self_did,
            *body,
            facts.c@,
            memo_view(old(memo)@),
            depth as int,
        ),
        roots_ok(r@, body.local_tys@.len()),
    decreases 5 - depth, 1nat,
{
    let ghost n = body.local_tys@.len();
    let ghost c = facts.c@;
    let ghost memo0 = memo_view(memo@);
    let nfields: usize = prog.defs.field_count(self_did);
    let through = carriers(facts, Ghost(scope), Ghost(*body));
    let mut roots = roots_of_parts(facts, nfields, Ghost(scope), Ghost(*body));
    let mut l: usize = 0;
    while l < body.local_tys.len()
        invariant
            l <= body.local_tys@.len(),
            n == body.local_tys@.len(),
            c == facts.c@,
            prog.valid(),
            valid_body(*body),
            scope.self_did == self_did,
            facts_of(*facts, scope, *body),
            depth <= 4,
            through@.len() == n,
            forall|x: usize|
                x < n ==> #[trigger] through@[x as int] == carrier(
                    c,
                    returns_bare(*body, self_did),
                    x,
                ),
            roots_ok(roots@, n),
            (roots_view(roots@), memo_view(memo@)) == rooted_locals(
                *prog,
                self_did,
                *body,
                c,
                memo0,
                depth as int,
                l as int,
            ),
        decreases body.local_tys.len() - l,
    {
        if through[l] {
            if is_self_ty(&body.local_tys[l], self_did) {
                add_local_roots(&mut roots, l, Ghost(n));
            }
            let ghost start = (roots_view(roots@), memo_view(memo@));
            let ghost calls = call_views(facts.c.calls@);
            let mut j: usize = 0;
            while j < facts.c.calls.len()
                invariant
                    j <= facts.c.calls@.len(),
                    n == body.local_tys@.len(),
                    c == facts.c@,
                    calls == c.calls,
                    calls == call_views(facts.c.calls@),
                    collected_ok(c, n, body.blocks@.len()),
                    prog.valid(),
                    depth <= 4,
                    roots_ok(roots@, n),
                    (roots_view(roots@), memo_view(memo@)) == rooted_calls(
                        *prog,
                        self_did,
                        c,
                        start,
                        depth as int,
                        l,
                        j as int,
                    ),
                decreases facts.c.calls.len() - j,
            {
                let call = &facts.c.calls[j];
                assert(calls[j as int] == call@);
                if call.dest == l && prog.can_yield(call.callee, self_did) {
                    match helper_summary(prog, call.callee, self_did, memo, depth) {
                        Some(summary) => {
                            assert(atoms_ok(c.calls[j as int].args, n));
                            add_argument_roots(&mut roots, &summary, &call.args, Ghost(n));
                        },
                        None => {},
                    }
                }
                j = j + 1;
            }
        }
        l = l + 1;
    }
    roots
}

// ---------------------------------------------------------------- one graph per body

/// A body has one graph: everything said of control dependence over one
/// holds over another.
proof fn lemma_same_graph(body: Body, a: Cfg, b: Cfg)
    requires
        a.valid(),
        a.graph_of(body),
        b.valid(),
        b.graph_of(body),
    ensures
        a.exit == b.exit,
        forall|x: usize, y: usize| #[trigger] a.steps(x, y) == b.steps(x, y),
        forall|x: int| 0 <= x < a.exit ==> (#[trigger] a.succs@[x])@ == b.succs@[x]@,
{
    assert forall|x: usize, y: usize| #[trigger] a.steps(x, y) == b.steps(x, y) by {
        assert(b.steps(x, y) || !b.steps(x, y));
    }
    assert forall|x: int| 0 <= x < a.exit implies (#[trigger] a.succs@[x])@ == b.succs@[x]@ by {
        let s = a.succs@[x]@;
        let t = b.succs@[x]@;
        assert(ascending(s) && ascending(t));
        assert(s.len() > 0 && t.len() > 0);
        assert(b.succs@[x]@.len() > 0);
        assert forall|y: usize| s.contains(y) <==> t.contains(y) by {
            assert(a.steps(x as usize, y) == b.steps(x as usize, y));
        }
        lemma_ascending_equal(s, t);
    }
}

proof fn lemma_ascending_equal(s: Seq<usize>, t: Seq<usize>)
    requires
        ascending(s),
        ascending(t),
        forall|y: usize| s.contains(y) <==> t.contains(y),
    ensures
        s == t,
    decreases s.len(),
{
    if s.len() == 0 {
        if t.len() > 0 {
            assert(t.contains(t[0]));
            assert(s.contains(t[0]));
        }
        assert(s =~= t);
    } else {
        assert(s.contains(s.last()));
        assert(t.contains(s.last()));
        let k = choose|k: int| 0 <= k < t.len() && t[k] == s.last();
        assert(t.contains(t.last()));
        assert(s.contains(t.last()));
        let j = choose|j: int| 0 <= j < s.len() && s[j] == t.last();
        assert(s.last() == t.last()) by {
            if k < t.len() - 1 {
                assert(t[k] < t[t.len() - 1]);
                if j < s.len() - 1 {
                    assert(s[j] < s[s.len() - 1]);
                }
            }
        }
        let s1 = s.drop_last();
        let t1 = t.drop_last();
        assert forall|y: usize| s1.contains(y) <==> t1.contains(y) by {
            if s1.contains(y) {
                let i = choose|i: int| 0 <= i < s1.len() && s1[i] == y;
                assert(s[i] == y && s[i] < s[s.len() - 1]);
                assert(s.contains(y));
                assert(t.contains(y));
                let m = choose|m: int| 0 <= m < t.len() && t[m] == y;
                assert(t1[m] == y);
            }
            if t1.contains(y) {
                let i = choose|i: int| 0 <= i < t1.len() && t1[i] == y;
                assert(t[i] == y && t[i] < t[t.len() - 1]);
                assert(t.contains(y));
                assert(s.contains(y));
                let m = choose|m: int| 0 <= m < s.len() && s[m] == y;
                assert(s1[m] == y);
            }
        }
        lemma_ascending_equal(s1, t1);
        assert(s =~= s1.push(s.last()));
        assert(t =~= t1.push(t.last()));
    }
}

proof fn lemma_same_deciders(body: Body, a: Cfg, b: Cfg, t: usize, bound: nat)
    requires
        a.valid(),
        a.graph_of(body),
        b.valid(),
        b.graph_of(body),
        bound <= a.exit,
    ensures
        deciders(a, t, bound) == deciders(b, t, bound),
    decreases bound,
{
    lemma_same_graph(body, a, b);
    if bound > 0 {
        lemma_same_deciders(body, a, b, t, (bound - 1) as nat);
        let x = (bound - 1) as usize;
        assert(a.succs@[x as int]@ == b.succs@[x as int]@);
        assert forall|y: usize, p: Seq<usize>| exit_walk(a, y, p) == exit_walk(b, y, p) by {
            if exit_walk(a, y, p) {
                assert forall|i: int| #![trigger p[i]] 0 <= i < p.len() - 1 implies b.steps(
                    p[i],
                    p[i + 1],
                ) by {
                    assert(a.steps(p[i], p[i + 1]));
                }
            }
            if exit_walk(b, y, p) {
                assert forall|i: int| #![trigger p[i]] 0 <= i < p.len() - 1 implies a.steps(
                    p[i],
                    p[i + 1],
                ) by {
                    assert(b.steps(p[i], p[i + 1]));
                    assert(a.steps(p[i], p[i + 1]) == b.steps(p[i], p[i + 1]));
                }
            }
        }
        assert forall|y: usize, z: usize| #[trigger] post_dominates(a, y, z) == post_dominates(
            b,
            y,
            z,
        ) by {
            if post_dominates(a, y, z) {
                assert forall|p: Seq<usize>| #[trigger] exit_walk(b, z, p) implies p.contains(y) by {
                    assert(exit_walk(a, z, p));
                }
            }
            if post_dominates(b, y, z) {
                assert forall|p: Seq<usize>| #[trigger] exit_walk(a, z, p) implies p.contains(y) by {
                    assert(exit_walk(b, z, p));
                }
            }
        }
        assert(decides(a, x, t) == decides(b, x, t)) by {
            if decides(a, x, t) {
                let s = choose|s: usize| #[trigger] a.steps(x, s) && post_dominates(a, t, s);
                assert(b.steps(x, s) && post_dominates(b, t, s));
            }
            if decides(b, x, t) {
                let s = choose|s: usize| #[trigger] b.steps(x, s) && post_dominates(b, t, s);
                assert(a.steps(x, s) == b.steps(x, s));
                assert(a.steps(x, s) && post_dominates(a, t, s));
            }
        }
    }
}

proof fn lemma_same_grown(body: Body, a: Cfg, b: Cfg, t: usize, found: Seq<usize>, i: int)
    requires
        a.valid(),
        a.graph_of(body),
        b.valid(),
        b.graph_of(body),
    ensures
        grown(a, t, found, i) == grown(b, t, found, i),
    decreases a.exit - i,
{
    lemma_same_graph(body, a, b);
    if !(i >= found.len() || i >= a.exit) {
        let x = if i < 0 {
            t
        } else {
            found[i]
        };
        lemma_same_deciders(body, a, b, x, a.exit as nat);
        lemma_same_grown(
            body,
            a,
            b,
            t,
            with_new(found, deciders(a, x, a.exit as nat)),
            i + 1,
        );
    }
}

/// The graph of a body.
pub open spec fn graph(body: Body) -> Cfg {
    choose|cfg: Cfg| cfg.valid() && #[trigger] cfg.graph_of(body)
}

// ---------------------------------------------------------------- the verdict

/// The branches that decide the given blocks: those of the first block,
/// innermost first, then those of the next.
pub open spec fn deciding_branches(body: Body, blocks: Seq<usize>) -> Seq<usize>
    decreases blocks.len(),
{
    if blocks.len() == 0 {
        Seq::empty()
    } else {
        deciding_branches(body, blocks.drop_last()) + all_deciders(graph(body), blocks.last())
    }
}

/// The ascending list of the blocks at which a body fails.
pub open spec fn failure_list(c: CollectedView, m: nat) -> Seq<usize>
    decreases m,
{
    if m == 0 {
        Seq::empty()
    } else if fails_at(c, (m - 1) as usize) {
        failure_list(c, (m - 1) as nat).push((m - 1) as usize)
    } else {
        failure_list(c, (m - 1) as nat)
    }
}

/// What must not be entered by a decision: what any field stores, and what
/// any field takes the payload of.
pub open spec fn opaque_atoms(c: CollectedView, roots: RootsView) -> Set<AtomView> {
    Set::new(
        |a: AtomView|
            exists|f: int|
                0 <= f < roots.len() && (stored(c.defs, #[trigger] roots[f], a) || produced(
                    c.defs,
                    roots[f],
                    a,
                )),
    )
}

/// The decision slice of branch `bb`.
pub open spec fn decided_by(c: CollectedView, body: Body, roots: RootsView, bb: int) -> Set<AtomView> {
    Set::new(
        |a: AtomView|
            in_slice(
                c.defs,
                true,
                opaque_atoms(c, roots),
                switched_on(body, bb).to_set(),
                a,
            ),
    )
}

/// The storage slice of field `f`.
pub open spec fn stored_in(c: CollectedView, roots: RootsView, f: int) -> Set<AtomView> {
    Set::new(|a: AtomView| stored(c.defs, roots[f], a))
}

/// Branch `bb` inspects what field `f` stores, and its outcome is not the
/// environment's.
pub open spec fn checks_field(
    scope: Scope,
    body: Body,
    c: CollectedView,
    roots: RootsView,
    bb: usize,
    f: int,
) -> bool {
    !resource_branch(scope, body, bb as int) && meet(
        stored_in(c, roots, f),
        decided_by(c, body, roots, bb as int),
    )
}

/// The first of the branches that checks field `f`.
pub open spec fn first_check(
    scope: Scope,
    body: Body,
    c: CollectedView,
    roots: RootsView,
    branches: Seq<usize>,
    f: int,
) -> Option<usize>
    decreases branches.len(),
{
    if branches.len() == 0 {
        None
    } else {
        match first_check(scope, body, c, roots, branches.drop_last(), f) {
            Some(b) => Some(b),
            None => if checks_field(scope, body, c, roots, branches.last(), f) {
                Some(branches.last())
            } else {
                None
            },
        }
    }
}

/// Where block `bb` ends in the source.
pub open spec fn branch_span(body: Body, bb: usize) -> Span {
    body.blocks@[bb as int].terminator->Some_0.span
}

/// The checks found, with those of this body added for the fields that had
/// none.
pub open spec fn with_checks(
    scope: Scope,
    body: Body,
    c: CollectedView,
    roots: RootsView,
    branches: Seq<usize>,
    out: Seq<Option<Span>>,
) -> Seq<Option<Span>> {
    out.map(
        |f: int, found: Option<Span>|
            match found {
                Some(s) => Some(s),
                None => if f < roots.len() {
                    match first_check(scope, body, c, roots, branches, f) {
                        Some(b) => Some(branch_span(body, b)),
                        None => None,
                    }
                } else {
                    None
                },
            },
    )
}

/// The checks found in a constructor's body and in the closures it makes that
/// can yield `Self`, and what is known of helpers afterwards.
pub open spec fn analyzed(
    prog: Program,
    entries: Seq<Seq<char>>,
    self_did: DefId,
    def: DefId,
    memo: MemoView,
    depth: int,
    out: Seq<Option<Span>>,
) -> (MemoView, Seq<Option<Span>>)
    decreases 5 - depth, 0nat, 0int,
{
    let scope = Scope { defs: prog.defs, entries, self_did };
    if depth > 3 {
        (memo, out)
    } else {
        match prog.body(def) {
            None => (memo, out),
            Some(body) => if body.tainted_by_errors || fails_on_resource(
                prog.defs,
                body.local_tys@[RETURN_PLACE as int],
                entries,
            ) {
                (memo, out)
            } else {
                let c = collected(scope, body);
                let blocks = failure_list(c, body.blocks@.len());
                let (known, found) = if blocks.len() == 0 {
                    (memo, out)
                } else {
                    let (roots, known) = rooted(prog, self_did, body, c, memo, depth);
                    (
                        known,
                        with_checks(scope, body, c, roots, deciding_branches(body, blocks), out),
                    )
                };
                analyzed_closures(
                    prog,
                    entries,
                    self_did,
                    c.closures,
                    known,
                    depth,
                    found,
                    c.closures.len() as int,
                )
            },
        }
    }
}

/// The checks found once the first `k` closures have been looked at too.
pub open spec fn analyzed_closures(
    prog: Program,
    entries: Seq<Seq<char>>,
    self_did: DefId,
    closures: Seq<DefId>,
    memo: MemoView,
    depth: int,
    out: Seq<Option<Span>>,
    k: int,
) -> (MemoView, Seq<Option<Span>>)
    decreases 4 - depth, 1nat, k,
{
    if k <= 0 {
        (memo, out)
    } else {
        let (known, found) = analyzed_closures(
            prog,
            entries,
            self_did,
            closures,
            memo,
            depth,
            out,
            k - 1,
        );
        analyzed(prog, entries, self_did, closures[k - 1], known, depth + 1, found)
    }
}

proof fn lemma_failure_list(c: CollectedView, m: nat)
    requires
        m <= usize::MAX,
    ensures
        ascending(failure_list(c, m)),
        forall|b: usize| #[trigger] failure_list(c, m).contains(b) <==> b < m && fails_at(c, b),
    decreases m,
{
    if m > 0 {
        let rest = failure_list(c, (m - 1) as nat);
        let last = (m - 1) as usize;
        lemma_failure_list(c, (m - 1) as nat);
        assert forall|i: int| 0 <= i < rest.len() implies #[trigger] rest[i] < last by {
            assert(rest.contains(rest[i]));
        }
        assert forall|b: usize| #[trigger] failure_list(c, m).contains(b) <==> b < m && fails_at(
            c,
            b,
        ) by {
            if fails_at(c, last) {
                crate::cfg::lemma_push_contains(rest, last, b);
            }
            assert(rest.contains(b) <==> b < m - 1 && fails_at(c, b));
        }
    }
}

proof fn lemma_failure_blocks(f: Facts, scope: Scope, body: Body)
    requires
        valid_body(body),
        facts_of(f, scope, body),
    ensures
        f.failure_blocks@ == failure_list(f.c@, body.blocks@.len()),
        forall|i: int|
            0 <= i < f.failure_blocks@.len() ==> #[trigger] f.failure_blocks@[i]
                < body.blocks@.len(),
{
    let c = f.c@;
    let m = body.blocks@.len();
    lemma_failure_list(c, m);
    assert forall|b: usize| fails_at(c, b) implies b < m by {
        if exists|i: int|
            0 <= i < c.wrappers.len() && (#[trigger] c.wrappers[i]).failure
                && !c.wrappers[i].resource && c.wrappers[i].block == b && returned(
                c,
                c.wrappers[i].dest,
            ) {
            let i = choose|i: int|
                0 <= i < c.wrappers.len() && (#[trigger] c.wrappers[i]).failure
                    && !c.wrappers[i].resource && c.wrappers[i].block == b && returned(
                    c,
                    c.wrappers[i].dest,
                );
            assert(c.wrappers[i].block < m);
        } else {
            let i = choose|i: int|
                0 <= i < c.residuals.len() && !(#[trigger] c.residuals[i]).resource
                    && c.residuals[i].block == b && returned(c, c.residuals[i].dest);
            assert(c.residuals[i].block < m);
        }
    }
    assert forall|b: usize| f.failure_blocks@.contains(b) <==> failure_list(c, m).contains(b) by {}
    lemma_ascending_equal(f.failure_blocks@, failure_list(c, m));
    assert forall|i: int| 0 <= i < f.failure_blocks@.len() implies #[trigger] f.failure_blocks@[i]
        < m by {
        assert(f.failure_blocks@.contains(f.failure_blocks@[i]));
    }
}

/// The storage slices of every field, and everything opaque to decisions.
fn field_slices(
    c: &Collected,
    roots: &Vec<Vec<Atom>>,
    Ghost(n): Ghost<nat>,
    Ghost(m): Ghost<nat>,
) -> (r: (Vec<Vec<Atom>>, Vec<Atom>))
    requires
        collected_ok(c@, n, m),
        roots_ok(roots@, n),
    ensures
        r.0@.len() == roots@.len(),
        forall|f: int|
            0 <= f < roots@.len() ==> plain_views((#[trigger] r.0@[f])@).to_set() == stored_in(
                c@,
                roots_view(roots@),
                f,
            ),
        plain_views(r.1@).to_set() == opaque_atoms(c@, roots_view(roots@)),
{
    let ghost rv = roots_view(roots@);
    let mut slices: Vec<Vec<Atom>> = Vec::new();
    let mut opaque: Vec<Atom> = Vec::new();
    let mut f: usize = 0;
    while f < roots.len()
        invariant
            f <= roots@.len(),
            collected_ok(c@, n, m),
            roots_ok(roots@, n),
            rv == roots_view(roots@),
            slices@.len() == f,
            forall|g: int|
                0 <= g < f ==> plain_views((#[trigger] slices@[g])@).to_set() == stored_in(
                    c@,
                    rv,
                    g,
                ),
            forall|a: AtomView| #[trigger]
                plain_views(opaque@).contains(a) <==> exists|g: int|
                    0 <= g < f && (stored(c@.defs, #[trigger] rv[g], a) || produced(
                        c@.defs,
                        rv[g],
                        a,
                    )),
        decreases roots.len() - f,
    {
        proof {
            assert(all_def_views(c.defs@).len() == c.defs@.len());
            assert forall|k: int| 0 <= k < roots@[f as int]@.len() implies (
            #[trigger] roots@[f as int]@[k])@.0 < c.defs@.len() by {}
        }
        assert(rv[f as int] == plain_views(roots@[f as int]@).to_set());
        let (kept, taken) = storage_slice(&c.defs, &roots[f]);
        let ghost before = plain_views(opaque@);
        append_atoms(&mut opaque, &taken);
        append_atoms(&mut opaque, &kept);
        let ghost inner = plain_views(kept@);
        let ghost outer = slices@;
        slices.push(kept);
        proof {
            assert(inner.to_set() =~= stored_in(c@, rv, f as int)) by {
                assert forall|a: AtomView| inner.to_set().contains(a) <==> stored_in(
                    c@,
                    rv,
                    f as int,
                ).contains(a) by {
                    assert(inner.contains(a) == inner.to_set().contains(a));
                }
            }
            assert forall|g: int| 0 <= g < f + 1 implies plain_views((#[trigger] slices@[g])@).to_set()
                == stored_in(c@, rv, g) by {
                if g < f {
                    assert(slices@[g] == outer[g]);
                }
            }
            assert forall|a: AtomView| #[trigger]
                plain_views(opaque@).contains(a) <==> exists|g: int|
                    0 <= g < f + 1 && (stored(c@.defs, #[trigger] rv[g], a) || produced(
                        c@.defs,
                        rv[g],
                        a,
                    )) by {
                assert(plain_views(opaque@).contains(a) <==> before.contains(a) || stored(
                    c@.defs,
                    rv[f as int],
                    a,
                ) || produced(c@.defs, rv[f as int], a)) by {
                    assert(inner.contains(a) <==> stored(c@.defs, rv[f as int], a));
                    assert(plain_views(taken@).contains(a) <==> produced(
                        c@.defs,
                        rv[f as int],
                        a,
                    ));
                }
                if before.contains(a) {
                    let g = choose|g: int|
                        0 <= g < f && (stored(c@.defs, #[trigger] rv[g], a) || produced(
                            c@.defs,
                            rv[g],
                            a,
                        ));
                    assert(rv[g] == rv[g]);
                }
                if exists|g: int|
                    0 <= g < f + 1 && (stored(c@.defs, #[trigger] rv[g], a) || produced(
                        c@.defs,
                        rv[g],
                        a,
                    )) {
                    let g = choose|g: int|
                        0 <= g < f + 1 && (stored(c@.defs, #[trigger] rv[g], a) || produced(
                            c@.defs,
                            rv[g],
                            a,
                        ));
                    if g < f {
                        assert(before.contains(a));
                    }
                }
            }
        }
        f = f + 1;
    }
    proof {
        assert(plain_views(opaque@).to_set() =~= opaque_atoms(c@, rv)) by {
            assert forall|a: AtomView| plain_views(opaque@).to_set().contains(a) <==> opaque_atoms(
                c@,
                rv,
            ).contains(a) by {
                assert(plain_views(opaque@).contains(a) == plain_views(opaque@).to_set().contains(
                    a,
                ));
            }
        }
    }
    (slices, opaque)
}

fn append_atoms(out: &mut Vec<Atom>, more: &Vec<Atom>)
    ensures
        forall|a: AtomView| #[trigger]
            plain_views(final(out)@).contains(a) <==> plain_views(old(out)@).contains(a)
                || plain_views(more@).contains(a),
{
    let ghost start = plain_views(out@);
    let ghost all = plain_views(more@);
    let mut i: usize = 0;
    while i < more.len()
        invariant
            i <= more@.len(),
            all == plain_views(more@),
            plain_views(out@) == start + all.take(i as int),
        decreases more.len() - i,
    {
        let b = more[i].copied();
        let ghost before = out@;
        out.push(b);
        proof {
            assert(all[i as int] == b@);
            assert(plain_views(out@) =~= plain_views(before).push(b@));
            assert(plain_views(out@) =~= start + all.take(i + 1));
        }
        i = i + 1;
    }
    proof {
        assert(all.take(all.len() as int) =~= all);
        assert forall|a: AtomView| #[trigger] plain_views(out@).contains(a) <==> start.contains(a)
            || all.contains(a) by {
            let whole = start + all;
            if start.contains(a) {
                let k = choose|k: int| 0 <= k < start.len() && start[k] == a;
                assert(whole[k] == a);
            }
            if all.contains(a) {
                let k = choose|k: int| 0 <= k < all.len() && all[k] == a;
                assert(whole[start.len() + k] == a);
            }
            if whole.contains(a) {
                let k = choose|k: int| 0 <= k < whole.len() && whole[k] == a;
                if k < start.len() {
                    assert(start[k] == a);
                } else {
                    assert(all[k - start.len()] == a);
                }
            }
        }
    }
}

/// The locals a switch reads exist.
proof fn lemma_switched_on_ok(body: Body, bb: int)
    requires
        valid_body(body),
        0 <= bb < body.blocks@.len(),
    ensures
        forall|i: int|
            0 <= i < switched_on(body, bb).len() ==> (#[trigger] switched_on(body, bb)[i]).0
                < body.local_tys@.len(),
{
    let n = body.local_tys@.len();
    assert(block_ok(body.blocks@[bb], n));
    let atoms = switched_on(body, bb);
    assert forall|i: int| 0 <= i < atoms.len() implies (#[trigger] atoms[i]).0 < n by {
        match body.blocks@[bb].terminator {
            Some(t) => match t.kind {
                TerminatorKind::SwitchInt { discr, targets } => match place_of_operand(discr) {
                    Some(p) => {
                        assert(place_ok(p, n));
                        let locals = index_locals_of(p.projection@);
                        if i < locals.len() {
                            assert(locals[i] < n);
                        }
                    },
                    None => {},
                },
                _ => {},
            },
            None => {},
        }
    }
}

/// Marks the fields that branch `bb` is the first to check.
fn note_branch(
    prog: &Program,
    entries: &Vec<String>,
    body: &Body,
    facts: &Facts,
    roots: &Vec<Vec<Atom>>,
    slices: &Vec<Vec<Atom>>,
    opaque: &Vec<Atom>,
    self_did: DefId,
    bb: usize,
    out: &mut Vec<Option<Span>>,
    Ghost(start): Ghost<Seq<Option<Span>>>,
    Ghost(branches): Ghost<Seq<usize>>,
)
    requires
        valid_body(*body),
        bb < body.blocks@.len(),
        body.blocks@[bb as int].terminator is Some,
        facts_of(
            *facts,
            (Scope { defs: prog.defs, entries: texts(entries@), self_did }),
            *body,
        ),
        slices@.len() == roots@.len(),
        forall|f: int|
            0 <= f < roots@.len() ==> plain_views((#[trigger] slices@[f])@).to_set() == stored_in(
                facts.c@,
                roots_view(roots@),
                f,
            ),
        plain_views(opaque@).to_set() == opaque_atoms(facts.c@, roots_view(roots@)),
        old(out)@ == with_checks(
            (Scope { defs: prog.defs, entries: texts(entries@), self_did }),
            *body,
            facts.c@,
            roots_view(roots@),
            branches,
            start,
        ),
    ensures
        final(out)@ == with_checks(
            (Scope { defs: prog.defs, entries: texts(entries@), self_did }),
            *body,
            facts.c@,
            roots_view(roots@),
            branches.push(bb),
            start,
        ),
{
    let ghost scope = Scope { defs: prog.defs, entries: texts(entries@), self_did };
    let ghost c = facts.c@;
    let ghost rv = roots_view(roots@);
    let ghost before = out@;
    let ghost want = with_checks(scope, *body, c, rv, branches.push(bb), start);
    assert(branches.push(bb).drop_last() =~= branches);
    if decides_on_resource(&prog.defs, entries, body, facts, bb, self_did) {
        assert(out@ =~= want);
        return ;
    }
    let atoms = switch_operand_atoms(body, bb);
    proof {
        lemma_switched_on_ok(*body, bb as int);
        assert(plain_views(atoms@) =~= switched_on(*body, bb as int));
        assert forall|k: int| 0 <= k < atoms@.len() implies (#[trigger] atoms@[k])@.0
            < facts.c.defs@.len() by {
            assert(plain_views(atoms@)[k] == atoms@[k]@);
            assert(switched_on(*body, bb as int)[k].0 < body.local_tys@.len());
            assert(all_def_views(facts.c.defs@).len() == facts.c.defs@.len());
        }
    }
    let ds = decision_slice(&facts.c.defs, &atoms, opaque);
    proof {
        assert(plain_views(ds@).to_set() =~= decided_by(c, *body, rv, bb as int)) by {
            assert forall|a: AtomView| plain_views(ds@).to_set().contains(a) <==> decided_by(
                c,
                *body,
                rv,
                bb as int,
            ).contains(a) by {
                assert(plain_views(ds@).contains(a) == plain_views(ds@).to_set().contains(a));
            }
        }
    }
    let span: Span = match &body.blocks[bb].terminator {
        Some(t) => t.span,
        None => Span { lo: 0, hi: 0 },
    };
    let mut f: usize = 0;
    while f < out.len() && f < slices.len()
        invariant
            f <= out@.len() == before.len() == want.len() == start.len(),
            f <= slices@.len() == roots@.len() == rv.len(),
            rv == roots_view(roots@),
            c == facts.c@,
            span == branch_span(*body, bb),
            before == with_checks(scope, *body, c, rv, branches, start),
            want == with_checks(scope, *body, c, rv, branches.push(bb), start),
            branches.push(bb).drop_last() == branches,
            branches.push(bb).last() == bb,
            branches.push(bb).len() > 0,
            !resource_branch(scope, *body, bb as int),
            plain_views(ds@).to_set() == decided_by(c, *body, rv, bb as int),
            forall|g: int|
                0 <= g < roots@.len() ==> plain_views((#[trigger] slices@[g])@).to_set()
                    == stored_in(c, rv, g),
            forall|g: int| 0 <= g < f ==> #[trigger] out@[g] == want[g],
            forall|g: int| f <= g < out@.len() ==> #[trigger] out@[g] == before[g],
        decreases out.len() - f,
    {
        let hit = slices_meet(&slices[f], &ds);
        proof {
            assert(plain_views(slices@[f as int]@).to_set() == stored_in(c, rv, f as int));
            assert(hit == checks_field(scope, *body, c, rv, bb, f as int));
            assert(out@[f as int] == before[f as int]);
        }
        if out[f].is_none() && hit {
            out.set(f, Some(span));
        }
        f = f + 1;
    }
    assert(out@ =~= want);
}

fn analyze_body(
    prog: &Program,
    def: DefId,
    self_did: DefId,
    entries: &Vec<String>,
    memo: &mut Vec<MemoEntry>,
    depth: usize,
    out: &mut Vec<Option<Span>>,
)
    requires
        prog.valid(),
        depth <= 4,
    ensures
        (memo_view(final(memo)@), final(out)@) == analyzed(
            *prog,
            texts(entries@),
            self_did,
            def,
            memo_view(old(memo)@),
            depth as int,
            old(out)@,
        ),
    decreases 5 - depth,
{
    let ghost scope = Scope { defs: prog.defs, entries: texts(entries@), self_did };
    let ghost memo0 = memo_view(memo@);
    let ghost out0 = out@;
    if depth > 3 {
        return ;
    }
    let body = match prog.body_of(def) {
        Some(b) => b,
        None => {
            return ;
        },
    };
    if body.tainted_by_errors {
        return ;
    }
    if has_resource_error(&prog.defs, &body.local_tys[RETURN_PLACE], entries) {
        return ;
    }
    let facts = gather(body, &prog.defs, entries, self_did);
    let ghost c = facts.c@;
    proof {
        lemma_failure_blocks(facts, scope, *body);
    }
    let ghost blocks = facts.failure_blocks@;
    if facts.failure_blocks.len() > 0 {
        let roots = field_roots(prog, body, &facts, self_did, memo, depth, Ghost(scope));
        let ghost rv = roots_view(roots@);
        let (slices, opaque) = field_slices(
            &facts.c,
            &roots,
            Ghost(body.local_tys@.len()),
            Ghost(body.blocks@.len()),
        );
        let cfg = build_cfg(body);
        let pdom = post_dominators(&cfg);
        assert(out@ =~= with_checks(scope, *body, c, rv, Seq::empty(), out0));
        let mut i: usize = 0;
        while i < facts.failure_blocks.len()
            invariant
                i <= facts.failure_blocks@.len(),
                scope == (Scope { defs: prog.defs, entries: texts(entries@), self_did }),
                c == facts.c@,
                rv == roots_view(roots@),
                blocks == facts.failure_blocks@,
                valid_body(*body),
                facts_of(facts, scope, *body),
                forall|k: int|
                    0 <= k < facts.failure_blocks@.len() ==> #[trigger] facts.failure_blocks@[k]
                        < body.blocks@.len(),
                slices@.len() == roots@.len(),
                forall|f: int|
                    0 <= f < roots@.len() ==> plain_views((#[trigger] slices@[f])@).to_set()
                        == stored_in(c, rv, f),
                plain_views(opaque@).to_set() == opaque_atoms(c, rv),
                cfg.valid(),
                cfg.graph_of(*body),
                crate::cfg::post_dominator_sets(cfg, pdom@),
                out@ == with_checks(
                    scope,
                    *body,
                    c,
                    rv,
                    deciding_branches(*body, blocks.take(i as int)),
                    out0,
                ),
            decreases facts.failure_blocks.len() - i,
        {
            let fb: usize = facts.failure_blocks[i];
            assert(facts.failure_blocks@[i as int] < body.blocks@.len());
            let deps = control_deps(&cfg, &pdom, fb);
            let ghost so_far = deciding_branches(*body, blocks.take(i as int));
            proof {
                let g = graph(*body);
                assert(g.valid() && g.graph_of(*body));
                lemma_same_grown(*body, cfg, g, fb, Seq::empty(), -1);
                assert(deps@ == all_deciders(g, fb));
                lemma_control_deps_transitive(cfg, fb);
            }
            let mut j: usize = 0;
            assert(so_far + deps@.take(0) =~= so_far);
            while j < deps.len()
                invariant
                    j <= deps@.len(),
                    scope == (Scope { defs: prog.defs, entries: texts(entries@), self_did }),
                    c == facts.c@,
                    rv == roots_view(roots@),
                    valid_body(*body),
                    facts_of(facts, scope, *body),
                    slices@.len() == roots@.len(),
                    forall|f: int|
                        0 <= f < roots@.len() ==> plain_views((#[trigger] slices@[f])@).to_set()
                            == stored_in(c, rv, f),
                    plain_views(opaque@).to_set() == opaque_atoms(c, rv),
                    cfg.valid(),
                    cfg.graph_of(*body),
                    deps@ == all_deciders(cfg, fb),
                    forall|a: usize| #[trigger]
                        all_deciders(cfg, fb).contains(a)
                            <==> crate::cfg::decides_transitively(cfg, a, fb),
                    out@ == with_checks(
                        scope,
                        *body,
                        c,
                        rv,
                        so_far + deps@.take(j as int),
                        out0,
                    ),
                decreases deps.len() - j,
            {
                let branch: usize = deps[j];
                proof {
                    assert(deps@.contains(branch));
                    lemma_transitive_is_branch(cfg, branch, fb);
                    lemma_branch_terminates(*body, cfg, branch);
                }
                note_branch(
                    prog,
                    entries,
                    body,
                    &facts,
                    &roots,
                    &slices,
                    &opaque,
                    self_did,
                    branch,
                    out,
                    Ghost(out0),
                    Ghost(so_far + deps@.take(j as int)),
                );
                proof {
                    assert((so_far + deps@.take(j as int)).push(branch) =~= so_far + deps@.take(
                        j + 1,
                    ));
                }
                j = j + 1;
            }
            proof {
                assert(deps@.take(deps@.len() as int) =~= deps@);
                assert(blocks.take(i + 1).drop_last() =~= blocks.take(i as int));
                assert(blocks.take(i + 1).last() == fb);
            }
            i = i + 1;
        }
        assert(blocks.take(blocks.len() as int) =~= blocks);
    }
    let ghost known = memo_view(memo@);
    let ghost found = out@;
    // A closure that can yield `Self` (`.and_then(|v| ...)`, `try_parse(|i|
    // ...)`) is a constructor body of its own.
    let mut k: usize = 0;
    while k < facts.c.closures.len()
        invariant
            k <= facts.c.closures@.len(),
            prog.valid(),
            depth <= 3,
            c == facts.c@,
            (memo_view(memo@), out@) == analyzed_closures(
                *prog,
                texts(entries@),
                self_did,
                c.closures,
                known,
                depth as int,
                found,
                k as int,
            ),
        decreases facts.c.closures.len() - k,
    {
        analyze_body(prog, facts.c.closures[k], self_did, entries, memo, depth + 1, out);
        k = k + 1;
    }
}

/// What decides a block, at whatever remove, is a branch.
proof fn lemma_transitive_is_branch(cfg: Cfg, a: usize, t: usize)
    requires
        crate::cfg::decides_transitively(cfg, a, t),
    ensures
        a < cfg.exit,
        cfg.succs@[a as int]@.len() >= 2,
{
    let chain = choose|chain: Seq<usize>| #[trigger]
        crate::cfg::decision_chain(cfg, t, chain) && chain[0] == a;
    assert(decides(cfg, chain[0], chain[0int + 1]));
}

/// One field that a constructor checks.
#[derive(Clone, Copy, Debug, PartialEq, Eq, Structural)]
pub struct FieldCheck {
    pub field: usize,
    /// The branch whose outcome the field's stored value decides.
    pub check: Span,
}

/// The checks there are, by ascending field.
pub open spec fn listed_checks(found: Seq<Option<Span>>) -> Seq<FieldCheck>
    decreases found.len(),
{
    if found.len() == 0 {
        Seq::empty()
    } else {
        let rest = listed_checks(found.drop_last());
        match found.last() {
            Some(s) => rest.push(FieldCheck { field: (found.len() - 1) as usize, check: s }),
            None => rest,
        }
    }
}

/// For each field of `self_did`, where constructor `ctor` checks it before
/// constructing one.
pub open spec fn constructor_checks(
    prog: Program,
    ctor: DefId,
    self_did: DefId,
    extra: Seq<Seq<char>>,
) -> Seq<Option<Span>> {
    analyzed(
        prog,
        resource_errors() + extra,
        self_did,
        ctor,
        Map::empty(),
        0,
        Seq::new(prog.defs.fields(self_did).len(), |i: int| None),
    ).1
}

/// The fields of `self_did` that `ctor` checks before constructing one.
pub fn checked_fields(
    prog: &Program,
    ctor: DefId,
    self_did: DefId,
    extra_resource_errors: &Vec<String>,
) -> (r: Vec<FieldCheck>)
    requires
        prog.valid(),
        prog.defs.adt(self_did) matches Some(a) && a.kind != AdtKind::Enum,
    ensures
        r@ == listed_checks(
            constructor_checks(*prog, ctor, self_did, texts(extra_resource_errors@)),
        ),
{
    let entries = resource_error_list(extra_resource_errors);
    let mut memo: Vec<MemoEntry> = Vec::new();
    let mut found: Vec<Option<Span>> = Vec::new();
    let n: usize = prog.defs.field_count(self_did);
    let mut i: usize = 0;
    while i < n
        invariant
            i <= n,
            found@.len() == i,
            forall|k: int| 0 <= k < i ==> #[trigger] found@[k] is None,
        decreases n - i,
    {
        found.push(None);
        i = i + 1;
    }
    assert(found@ =~= Seq::new(n as nat, |i: int| None::<Span>));
    analyze_body(prog, ctor, self_did, &entries, &mut memo, 0, &mut found);
    let mut out: Vec<FieldCheck> = Vec::new();
    let mut f: usize = 0;
    while f < found.len()
        invariant
            f <= found@.len(),
            out@ == listed_checks(found@.take(f as int)),
        decreases found.len() - f,
    {
        assert(found@.take(f + 1).drop_last() =~= found@.take(f as int));
        match found[f] {
            Some(s) => out.push(FieldCheck { field: f, check: s }),
            None => {},
        }
        f = f + 1;
    }
    assert(found@.take(found@.len() as int) =~= found@);
    out
}

// ---------------------------------------------------------------- what the verdict means

proof fn lemma_first_check(
    scope: Scope,
    body: Body,
    c: CollectedView,
    roots: RootsView,
    branches: Seq<usize>,
    f: int,
)
    ensures
        match first_check(scope, body, c, roots, branches, f) {
            Some(b) => branches.contains(b) && checks_field(scope, body, c, roots, b, f),
            None => forall|b: usize| #[trigger]
                branches.contains(b) ==> !checks_field(scope, body, c, roots, b, f),
        },
    decreases branches.len(),
{
    if branches.len() > 0 {
        let rest = branches.drop_last();
        let last = branches.last();
        lemma_first_check(scope, body, c, roots, rest, f);
        assert(branches =~= rest.push(last));
        assert forall|b: usize| #[trigger] branches.contains(b) <==> rest.contains(b) || b == last by {
            crate::cfg::lemma_push_contains(rest, last, b);
        }
    }
}

proof fn lemma_deciding_branches(body: Body, blocks: Seq<usize>)
    ensures
        forall|b: usize| #[trigger]
            deciding_branches(body, blocks).contains(b) <==> exists|t: usize| #[trigger]
                blocks.contains(t) && crate::cfg::decides_transitively(graph(body), b, t),
    decreases blocks.len(),
{
    if blocks.len() > 0 {
        let rest = blocks.drop_last();
        let last = blocks.last();
        lemma_deciding_branches(body, rest);
        lemma_control_deps_transitive(graph(body), last);
        let few = deciding_branches(body, rest);
        let more = all_deciders(graph(body), last);
        let whole = deciding_branches(body, blocks);
        assert(blocks =~= rest.push(last));
        assert forall|b: usize| #[trigger] whole.contains(b) <==> exists|t: usize| #[trigger]
            blocks.contains(t) && crate::cfg::decides_transitively(graph(body), b, t) by {
            if few.contains(b) {
                let k = choose|k: int| 0 <= k < few.len() && few[k] == b;
                assert(whole[k] == b);
            }
            if more.contains(b) {
                let k = choose|k: int| 0 <= k < more.len() && more[k] == b;
                assert(whole[few.len() + k] == b);
            }
            if whole.contains(b) {
                let k = choose|k: int| 0 <= k < whole.len() && whole[k] == b;
                if k < few.len() {
                    assert(few[k] == b);
                    assert(few.contains(b));
                    let t = choose|t: usize| #[trigger]
                        rest.contains(t) && crate::cfg::decides_transitively(graph(body), b, t);
                    crate::cfg::lemma_push_contains(rest, last, t);
                    assert(blocks.contains(t));
                } else {
                    assert(more[k - few.len()] == b);
                    assert(more.contains(b));
                    crate::cfg::lemma_push_contains(rest, last, last);
                    assert(blocks.contains(last));
                }
            }
            if exists|t: usize| #[trigger]
                blocks.contains(t) && crate::cfg::decides_transitively(graph(body), b, t) {
                let t = choose|t: usize| #[trigger]
                    blocks.contains(t) && crate::cfg::decides_transitively(graph(body), b, t);
                crate::cfg::lemma_push_contains(rest, last, t);
                if rest.contains(t) {
                    assert(few.contains(b));
                } else {
                    assert(more.contains(b));
                }
            }
        }
    }
}

/// A field carries an invariant iff some exit's decision slice meets its
/// storage slice: a body adds a check for a field that had none exactly when
/// a branch that some failure block is control-dependent on, and whose
/// outcome is not the environment's, inspects what the field stores.
pub proof fn lemma_checked_iff_slices_meet(
    scope: Scope,
    body: Body,
    roots: RootsView,
    out: Seq<Option<Span>>,
    f: int,
)
    requires
        body.blocks@.len() <= usize::MAX,
        0 <= f < out.len(),
        f < roots.len(),
        out[f] is None,
    ensures
        ({
            let c = collected(scope, body);
            let blocks = failure_list(c, body.blocks@.len());
            with_checks(scope, body, c, roots, deciding_branches(body, blocks), out)[f] is Some
                <==> exists|b: usize, t: usize|
                t < body.blocks@.len() && fails_at(c, t)
                    && #[trigger] crate::cfg::decides_transitively(graph(body), b, t)
                    && checks_field(scope, body, c, roots, b, f)
        }),
{
    let c = collected(scope, body);
    let m = body.blocks@.len();
    let blocks = failure_list(c, m);
    let branches = deciding_branches(body, blocks);
    lemma_failure_list(c, m);
    lemma_deciding_branches(body, blocks);
    lemma_first_check(scope, body, c, roots, branches, f);
    match first_check(scope, body, c, roots, branches, f) {
        Some(b) => {
            let t = choose|t: usize| #[trigger]
                blocks.contains(t) && crate::cfg::decides_transitively(graph(body), b, t);
            assert(fails_at(c, t) && checks_field(scope, body, c, roots, b, f));
        },
        None => {
            if exists|b: usize, t: usize|
                t < m && fails_at(c, t) && #[trigger] crate::cfg::decides_transitively(
                    graph(body),
                    b,
                    t,
                ) && checks_field(scope, body, c, roots, b, f) {
                let (b, t) = choose|b: usize, t: usize|
                    t < m && fails_at(c, t) && #[trigger] crate::cfg::decides_transitively(
                        graph(body),
                        b,
                        t,
                    ) && checks_field(scope, body, c, roots, b, f);
                assert(blocks.contains(t));
                assert(branches.contains(b));
            }
        },
    }
}

/// A check that was found stays: looking at more bodies never moves or drops
/// one.
pub proof fn lemma_checks_stay(
    prog: Program,
    entries: Seq<Seq<char>>,
    self_did: DefId,
    def: DefId,
    memo: MemoView,
    depth: int,
    out: Seq<Option<Span>>,
    f: int,
)
    requires
        0 <= f < out.len(),
        out[f] is Some,
    ensures
        analyzed(prog, entries, self_did, def, memo, depth, out).1.len() == out.len(),
        analyzed(prog, entries, self_did, def, memo, depth, out).1[f] == out[f],
    decreases 5 - depth, 0nat, 0int,
{
    let scope = Scope { defs: prog.defs, entries, self_did };
    if depth <= 3 && prog.body(def) is Some {
        let body = prog.body(def)->Some_0;
        if !(body.tainted_by_errors || fails_on_resource(
            prog.defs,
            body.local_tys@[RETURN_PLACE as int],
            entries,
        )) {
            let c = collected(scope, body);
            let blocks = failure_list(c, body.blocks@.len());
            let (known, found) = if blocks.len() == 0 {
                (memo, out)
            } else {
                let (roots, known) = rooted(prog, self_did, body, c, memo, depth);
                (
                    known,
                    with_checks(scope, body, c, roots, deciding_branches(body, blocks), out),
                )
            };
            lemma_checks_stay_in_closures(
                prog,
                entries,
                self_did,
                c.closures,
                known,
                depth,
                found,
                c.closures.len() as int,
                f,
            );
        }
    }
}

proof fn lemma_checks_stay_in_closures(
    prog: Program,
    entries: Seq<Seq<char>>,
    self_did: DefId,
    closures: Seq<DefId>,
    memo: MemoView,
    depth: int,
    out: Seq<Option<Span>>,
    k: int,
    f: int,
)
    requires
        0 <= f < out.len(),
        out[f] is Some,
    ensures
        analyzed_closures(prog, entries, self_did, closures, memo, depth, out, k).1.len()
            == out.len(),
        analyzed_closures(prog, entries, self_did, closures, memo, depth, out, k).1[f] == out[f],
    decreases 4 - depth, 1nat, k,
{
    if k > 0 {
        lemma_checks_stay_in_closures(
            prog,
            entries,
            self_did,
            closures,
            memo,
            depth,
            out,
            k - 1,
            f,
        );
        let (known, found) = analyzed_closures(
            prog,
            entries,
            self_did,
            closures,
            memo,
            depth,
            out,
            k - 1,
        );
        lemma_checks_stay(
            prog,
            entries,
            self_did,
            closures[k - 1],
            known,
            depth + 1,
            found,
            f,
        );
    }
}

/// A constructor whose error is the environment's checks nothing.
pub proof fn lemma_resource_constructor_checks_nothing(
    prog: Program,
    ctor: DefId,
    self_did: DefId,
    extra: Seq<Seq<char>>,
)
    requires
        prog.body(ctor) matches Some(b) && fails_on_resource(
            prog.defs,
            b.local_tys@[RETURN_PLACE as int],
            resource_errors() + extra,
        ),
    ensures
        forall|f: int|
            0 <= f < prog.defs.fields(self_did).len() ==> #[trigger] constructor_checks(
                prog,
                ctor,
                self_did,
                extra,
            )[f] is None,
{
}

/// The listed checks are by ascending field, and there is one exactly for
/// each field that has a check.
pub proof fn lemma_listed_checks(found: Seq<Option<Span>>)
    requires
        found.len() <= usize::MAX,
    ensures
        forall|i: int, j: int|
            0 <= i < j < listed_checks(found).len() ==> (#[trigger] listed_checks(found)[i]).field
                < (#[trigger] listed_checks(found)[j]).field,
        forall|i: int|
            0 <= i < listed_checks(found).len() ==> (#[trigger] listed_checks(found)[i]).field
                < found.len() && found[listed_checks(found)[i].field as int] == Some(
                listed_checks(found)[i].check,
            ),
        forall|f: int|
            0 <= f < found.len() && #[trigger] found[f] is Some ==> listed_checks(found).contains(
                FieldCheck { field: f as usize, check: found[f]->Some_0 },
            ),
    decreases found.len(),
{
    if found.len() > 0 {
        let rest = found.drop_last();
        let few = listed_checks(rest);
        let all = listed_checks(found);
        lemma_listed_checks(rest);
        assert forall|i: int| 0 <= i < few.len() implies #[trigger] all[i] == few[i] by {}
        assert forall|i: int| 0 <= i < all.len() implies (#[trigger] all[i]).field < found.len()
            && found[all[i].field as int] == Some(all[i].check) by {
            if i < few.len() {
                assert(few[i].field < rest.len());
                assert(rest[few[i].field as int] == found[few[i].field as int]);
            }
        }
        assert forall|i: int, j: int| 0 <= i < j < all.len() implies (#[trigger] all[i]).field < (
        #[trigger] all[j]).field by {
            assert(few[i].field < rest.len());
            if j < few.len() {
                assert(few[i].field < few[j].field);
            }
        }
        assert forall|f: int| 0 <= f < found.len() && #[trigger] found[f] is Some implies all.contains(
            FieldCheck { field: f as usize, check: found[f]->Some_0 },
        ) by {
            let want = FieldCheck { field: f as usize, check: found[f]->Some_0 };
            if f < rest.len() {
                assert(rest[f] is Some);
                assert(few.contains(want));
                let k = choose|k: int| 0 <= k < few.len() && few[k] == want;
                assert(all[k] == want);
            } else {
                assert(all[few.len() as int] == want);
            }
        }
    }
}

/// What is built in the return place, or moved into it whole, step by step, is
/// returned.
pub proof fn lemma_moved_into_the_return_place(c: CollectedView, a: usize, b: usize)
    ensures
        returned(c, RETURN_PLACE),
        returned(c, a) && a < c.alias.len() && c.alias[a as int].contains(b) ==> returned(c, b),
{
    let step = crate::ctor_flow::list_step(c.alias);
    crate::reach::lemma_root_reachable(step, set![RETURN_PLACE], RETURN_PLACE);
    if returned(c, a) && a < c.alias.len() && c.alias[a as int].contains(b) {
        assert(step(a, b));
        crate::reach::lemma_step_reachable(step, set![RETURN_PLACE], a, b);
    }
}

/// A block fails where it builds an `Err` or a `None` that is returned, or
/// passes a failure on that is; a failure of the environment's is none.
pub proof fn lemma_failing_blocks(c: CollectedView, i: int, b: usize)
    ensures
        0 <= i < c.wrappers.len() && c.wrappers[i].failure && !c.wrappers[i].resource && returned(
            c,
            c.wrappers[i].dest,
        ) ==> fails_at(c, c.wrappers[i].block),
        0 <= i < c.residuals.len() && !c.residuals[i].resource && returned(c, c.residuals[i].dest)
            ==> fails_at(c, c.residuals[i].block),
        (forall|k: int|
            0 <= k < c.wrappers.len() ==> !(#[trigger] c.wrappers[k]).failure
                || c.wrappers[k].resource || !returned(c, c.wrappers[k].dest)) && (forall|k: int|
            0 <= k < c.residuals.len() ==> (#[trigger] c.residuals[k]).resource || !returned(
                c,
                c.residuals[k].dest,
            )) ==> !fails_at(c, b),
{
}

/// The value is what a returned `Ok` or `Some` holds, or the return place
/// itself where the constructor returns it bare.
pub proof fn lemma_where_the_value_is(c: CollectedView, bare: bool, i: int, a: AtomView)
    ensures
        0 <= i < c.wrappers.len() && !c.wrappers[i].failure && c.wrappers[i].operand == Some(a)
            && returned(c, c.wrappers[i].dest) ==> self_root(c, bare, a),
        self_root(c, true, (RETURN_PLACE, Seq::<u32>::empty())),
        self_root(c, false, a) ==> exists|k: int|
            0 <= k < c.wrappers.len() && !(#[trigger] c.wrappers[k]).failure
                && c.wrappers[k].operand == Some(a) && returned(c, c.wrappers[k].dest),
{
}

proof fn lemma_carried(c: CollectedView, bare: bool, l: usize)
    requires
        self_root(c, bare, (l, Seq::<u32>::empty())),
    ensures
        carrier(c, bare, l),
{
    let r: AtomView = (l, Seq::<u32>::empty());
    crate::reach::lemma_root_reachable(crate::ctor_flow::list_step(moves(c)), set![l], l);
    assert(self_root(c, bare, r) && r.1.len() == 0 && led_to(moves(c), r.0, l));
}

proof fn lemma_calls_only_add(
    prog: Program,
    self_did: DefId,
    c: CollectedView,
    start: (RootsView, MemoView),
    depth: int,
    l: usize,
    j: int,
    f: int,
    a: AtomView,
)
    requires
        0 <= f < start.0.len(),
    ensures
        rooted_calls(prog, self_did, c, start, depth, l, j).0.len() == start.0.len(),
        start.0[f].contains(a) ==> rooted_calls(prog, self_did, c, start, depth, l, j).0[f].contains(
            a,
        ),
    decreases j,
{
    if j > 0 {
        lemma_calls_only_add(prog, self_did, c, start, depth, l, j - 1, f, a);
    }
}

proof fn lemma_locals_only_add(
    prog: Program,
    self_did: DefId,
    body: Body,
    c: CollectedView,
    memo: MemoView,
    depth: int,
    k: int,
    l: int,
    f: int,
)
    requires
        0 <= f < prog.defs.fields(self_did).len(),
        k <= body.local_tys@.len() <= usize::MAX,
    ensures
        rooted_locals(prog, self_did, body, c, memo, depth, k).0.len() == prog.defs.fields(
            self_did,
        ).len(),
        0 <= l < k && carrier(c, returns_bare(body, self_did), l as usize) && is_adt(
            body.local_tys@[l],
            self_did,
        ) ==> rooted_locals(prog, self_did, body, c, memo, depth, k).0[f].contains(
            (l as usize, seq![f as u32]),
        ),
    decreases k,
{
    let bare = returns_bare(body, self_did);
    if k > 0 {
        lemma_locals_only_add(prog, self_did, body, c, memo, depth, k - 1, l, f);
        let before = rooted_locals(prog, self_did, body, c, memo, depth, k - 1);
        let m = (k - 1) as usize;
        if carrier(c, bare, m) {
            let own = if is_adt(body.local_tys@[k - 1], self_did) {
                with_local(before.0, m)
            } else {
                before.0
            };
            lemma_calls_only_add(
                prog,
                self_did,
                c,
                (own, before.1),
                depth,
                m,
                c.calls.len() as int,
                f,
                (l as usize, seq![f as u32]),
            );
        }
    }
}

/// Where a local that is the value has the type itself, each field of that
/// local is where the field is stored.
pub proof fn lemma_fields_of_the_value_are_stored(
    prog: Program,
    self_did: DefId,
    body: Body,
    c: CollectedView,
    memo: MemoView,
    depth: int,
    l: usize,
    f: int,
)
    requires
        0 <= f < prog.defs.fields(self_did).len(),
        l < body.local_tys@.len() <= usize::MAX,
        self_root(c, returns_bare(body, self_did), (l, Seq::<u32>::empty())),
        body.local_tys@[l as int] matches crate::ty::Ty::Adt(d, _) && d == self_did,
    ensures
        rooted(prog, self_did, body, c, memo, depth).0.len() == prog.defs.fields(self_did).len(),
        rooted(prog, self_did, body, c, memo, depth).0[f].contains((l, seq![f as u32])),
{
    lemma_carried(c, returns_bare(body, self_did), l);
    lemma_locals_only_add(
        prog,
        self_did,
        body,
        c,
        memo,
        depth,
        body.local_tys@.len() as int,
        l as int,
        f,
    );
}

/// A constructor checks a field where a branch that decides whether it fails,
/// and that is not the environment's, looks at what the field stores.
pub proof fn lemma_tested_field_is_checked(
    prog: Program,
    ctor: DefId,
    self_did: DefId,
    extra: Seq<Seq<char>>,
    body: Body,
    f: int,
    b: usize,
    t: usize,
)
    requires
        prog.body(ctor) == Some(body),
        body.blocks@.len() <= usize::MAX,
        !body.tainted_by_errors,
        !fails_on_resource(
            prog.defs,
            body.local_tys@[RETURN_PLACE as int],
            resource_errors() + extra,
        ),
        0 <= f < prog.defs.fields(self_did).len(),
        ({
            let scope = Scope { defs: prog.defs, entries: resource_errors() + extra, self_did };
            let c = collected(scope, body);
            let roots = rooted(prog, self_did, body, c, Map::empty(), 0).0;
            &&& t < body.blocks@.len()
            &&& fails_at(c, t)
            &&& crate::cfg::decides_transitively(graph(body), b, t)
            &&& !resource_branch(scope, body, b as int)
            &&& f < roots.len()
            &&& meet(stored_in(c, roots, f), decided_by(c, body, roots, b as int))
        }),
    ensures
        constructor_checks(prog, ctor, self_did, extra)[f] is Some,
{
    let entries = resource_errors() + extra;
    let scope = Scope { defs: prog.defs, entries, self_did };
    let c = collected(scope, body);
    let none = Seq::new(prog.defs.fields(self_did).len(), |i: int| None::<Span>);
    let blocks = failure_list(c, body.blocks@.len());
    let (roots, known) = rooted(prog, self_did, body, c, Map::empty(), 0);
    lemma_checked_iff_slices_meet(scope, body, roots, none, f);
    lemma_failure_list(c, body.blocks@.len());
    assert(checks_field(scope, body, c, roots, b, f));
    assert(blocks.contains(t));
    let found = with_checks(scope, body, c, roots, deciding_branches(body, blocks), none);
    assert(found[f] is Some);
    lemma_checks_stay_in_closures(
        prog,
        entries,
        self_did,
        c.closures,
        known,
        0,
        found,
        c.closures.len() as int,
        f,
    );
}

/// A constructor that never fails, or has no body at hand, or none without
/// errors, checks nothing.
pub proof fn lemma_infallible_constructor_checks_nothing(
    prog: Program,
    ctor: DefId,
    self_did: DefId,
    extra: Seq<Seq<char>>,
    f: int,
)
    requires
        0 <= f < prog.defs.fields(self_did).len(),
        prog.body(ctor) is None || (prog.body(ctor) matches Some(body) && (body.tainted_by_errors
            || ({
            let c = collected(
                Scope { defs: prog.defs, entries: resource_errors() + extra, self_did },
                body,
            );
            &&& body.blocks@.len() <= usize::MAX
            &&& c.closures.len() == 0
            &&& forall|b: usize| !fails_at(c, b)
        }))),
    ensures
        constructor_checks(prog, ctor, self_did, extra)[f] is None,
{
    match prog.body(ctor) {
        Some(body) => {
            let c = collected(
                Scope { defs: prog.defs, entries: resource_errors() + extra, self_did },
                body,
            );
            if !body.tainted_by_errors {
                lemma_failure_list(c, body.blocks@.len());
                let blocks = failure_list(c, body.blocks@.len());
                if blocks.len() > 0 {
                    assert(blocks.contains(blocks[0]));
                }
            }
        },
        None => {},
    }
}

/// A branch on a `Result` of the environment's, or on its variant, is the
/// environment's.
pub proof fn lemma_branches_of_the_environment(
    scope: Scope,
    body: Body,
    bb: int,
    p: usize,
    l: usize,
    d: int,
    k: int,
)
    requires
        switch_local(body, bb) == Some(p),
        fails_on_resource(scope.defs, body.local_tys@[l as int], scope.entries),
    ensures
        l == p ==> resource_branch(scope, body, bb),
        ({
            let c = collected(scope, body);
            0 <= d < c.defs[p as int].len() && 0 <= k < c.defs[p as int][d].reads.len() && (
            c.defs[p as int][d].reads[k] matches ReadView::Discr(a) && (a.0 == l || c.alias[
            a.0 as int].contains(l)))
        }) ==> resource_branch(scope, body, bb),
{
    let c = collected(scope, body);
    if l == p {
        assert(switch_candidate(c, p, l));
    }
    if 0 <= d < c.defs[p as int].len() && 0 <= k < c.defs[p as int][d].reads.len() {
        if discriminant_of(c, c.defs[p as int][d].reads[k], l) {
            assert(switch_candidate(c, p, l));
        }
    }
}

/// What makes a block fail stands in that block.
pub proof fn lemma_failures_stand_where_they_fail(c: CollectedView, b: usize)
    requires
        fails_at(c, b),
    ensures
        (exists|i: int|
            0 <= i < c.wrappers.len() && (#[trigger] c.wrappers[i]).block == b
                && c.wrappers[i].failure && !c.wrappers[i].resource && returned(
                c,
                c.wrappers[i].dest,
            )) || (exists|i: int|
            0 <= i < c.residuals.len() && (#[trigger] c.residuals[i]).block == b
                && !c.residuals[i].resource && returned(c, c.residuals[i].dest)),
{
}

} // verus!
