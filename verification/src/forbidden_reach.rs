//! A function that can reach something the `forbidden-reach` configuration
//! bans for it, with the path of calls that gets there, each arrow of which
//! is a call expression in the crate. Dynamic dispatch and function pointers
//! are invisible to the walk, so that nothing is found proves nothing, but
//! what is found is a path that exists, and no shorter one does.
//!
//! There is one finding for each root and banned definition, however many
//! call sites reach it.

use crate::config::{MordantConfig, ReachRule, RuleView};
use crate::defs::{Definitions, Known};
use crate::hir::{targets, walk, walked, Expr, ExprKind};
use crate::hir_shapes::{called_def, callee_of, def_path_names, path_spellings};
use crate::ids::{DefId, Span};
use crate::report::{emit_with_note, noted, views, Finding, FindingView, Lint};
use crate::table::{find_key, put, put_key, value_at};
use crate::text::{decimal, ends_with, has_suffix, join, joined, number, same, texts};
use vstd::prelude::*;
use vstd::string::*;

verus! {

/// A local function's calls, in order.
pub type Calls = Seq<(DefId, Seq<(DefId, Span)>)>;

/// A function some rule starts from.
#[derive(Clone, Copy, Debug, PartialEq, Eq, Structural)]
pub struct Root {
    pub rule: usize,
    pub def: DefId,
    pub span: Span,
}

#[derive(Debug)]
pub struct ForbiddenReach {
    pub rules: Vec<ReachRule>,
    /// Local function -> (callee, call site) edges.
    pub calls: Vec<(DefId, Vec<(DefId, Span)>)>,
    pub roots: Vec<Root>,
}

#[verifier::ext_equal]
pub struct ForbiddenView {
    pub rules: Seq<RuleView>,
    pub calls: Calls,
    pub roots: Seq<Root>,
}

pub open spec fn rule_views(rules: Seq<ReachRule>) -> Seq<RuleView> {
    rules.map_values(|r: ReachRule| r@)
}

pub open spec fn call_views(calls: Seq<(DefId, Vec<(DefId, Span)>)>) -> Calls {
    calls.map_values(|c: (DefId, Vec<(DefId, Span)>)| (c.0, c.1@))
}

impl View for ForbiddenReach {
    type V = ForbiddenView;

    open spec fn view(&self) -> ForbiddenView {
        ForbiddenView {
            rules: rule_views(self.rules@),
            calls: call_views(self.calls@),
            roots: self.roots@,
        }
    }
}

// ---------------------------------------------------------------- patterns

/// Path-suffix match on `::`-separated segments: `Vec::push` names
/// `std::vec::Vec::push`, and a bare substring never matches by accident.
pub open spec fn pattern_names(name: Seq<char>, pattern: Seq<char>) -> bool {
    name == pattern || has_suffix(name, "::"@ + pattern)
}

pub fn matches_pattern(name: &str, pattern: &str) -> (r: bool)
    ensures
        r == pattern_names(name@, pattern@),
{
    let mut suffix = String::from_str("::");
    suffix.append(pattern);
    same(name, pattern) || ends_with(name, suffix.as_str())
}

/// A definition is named by the pattern, with its crate or without.
pub open spec fn def_named(defs: Definitions, def: DefId, pattern: Seq<char>) -> bool {
    pattern_names(path_spellings(defs, def).0, pattern) || pattern_names(
        path_spellings(defs, def).1,
        pattern,
    )
}

/// A definition is on the list.
pub open spec fn banned(defs: Definitions, never: Seq<Seq<char>>, def: DefId) -> bool {
    exists|i: int| 0 <= i < never.len() && def_named(defs, def, #[trigger] never[i])
}

fn is_banned(defs: &Definitions, never: &Vec<String>, def: DefId) -> (r: bool)
    ensures
        r == banned(*defs, texts(never@), def),
{
    let names = def_path_names(defs, def);
    let ghost ps = texts(never@);
    let mut i: usize = 0;
    while i < never.len()
        invariant
            i <= never@.len(),
            ps == texts(never@),
            (names.0@, names.1@) == path_spellings(*defs, def),
            forall|j: int| 0 <= j < i ==> !def_named(*defs, def, #[trigger] ps[j]),
        decreases never.len() - i,
    {
        assert(ps[i as int] == never@[i as int]@);
        if matches_pattern(names.0.as_str(), never[i].as_str()) || matches_pattern(
            names.1.as_str(),
            never[i].as_str(),
        ) {
            assert(def_named(*defs, def, ps[i as int]));
            return true;
        }
        i = i + 1;
    }
    false
}

// ---------------------------------------------------------------- edges

/// What an expression reaches. Built-in indexing is no call, and reaches the
/// bounds check behind it.
pub open spec fn edge_of(defs: Definitions, e: Expr) -> Option<DefId> {
    match called_def(e) {
        Some(d) => Some(d),
        None => if e.kind is Index {
            match e.method {
                Some(d) => Some(d),
                None => defs.first_known(Known::PanicBoundsCheck, 0),
            }
        } else {
            None
        },
    }
}

/// What some expressions reach, in order.
pub open spec fn edges_in(defs: Definitions, es: Seq<Expr>) -> Seq<(DefId, Span)>
    decreases es.len(),
{
    if es.len() == 0 {
        Seq::empty()
    } else {
        let before = edges_in(defs, es.drop_last());
        match edge_of(defs, es.last()) {
            Some(d) => before.push((d, es.last().span)),
            None => before,
        }
    }
}

fn index_edge(defs: &Definitions, e: &Expr) -> (r: Option<DefId>)
    ensures
        r == edge_of(*defs, *e),
{
    match callee_of(e) {
        Some(c) => Some(c.def),
        None => match &e.kind {
            ExprKind::Index(_, _) => match e.method {
                Some(d) => Some(d),
                None => defs.find_known(Known::PanicBoundsCheck),
            },
            _ => None,
        },
    }
}

/// The roots a function is for the first `k` rules.
pub open spec fn roots_for(
    defs: Definitions,
    rules: Seq<RuleView>,
    def: DefId,
    span: Span,
    k: int,
) -> Seq<Root>
    decreases k,
{
    if k <= 0 {
        Seq::empty()
    } else {
        let before = roots_for(defs, rules, def, span, k - 1);
        if def_named(defs, def, rules[k - 1].from) {
            before.push(Root { rule: (k - 1) as usize, def, span })
        } else {
            before
        }
    }
}

/// What is known once a function has been visited.
pub open spec fn after_fn(
    defs: Definitions,
    s: ForbiddenView,
    def: DefId,
    is_closure: bool,
    body: Expr,
    span: Span,
) -> ForbiddenView {
    if s.rules.len() == 0 || is_closure {
        s
    } else {
        ForbiddenView {
            calls: put(s.calls, def, edges_in(defs, walk(body, true))),
            roots: s.roots + roots_for(defs, s.rules, def, span, s.rules.len() as int),
            ..s
        }
    }
}

// ---------------------------------------------------------------- the walk

/// A function's edges.
pub open spec fn edges_of(calls: Calls, def: DefId) -> Seq<(DefId, Span)> {
    match value_at(calls, def) {
        Some(es) => es,
        None => Seq::empty(),
    }
}

/// A banned definition reached: from which function of the walk it was first,
/// at which call, and how many call sites reach it.
pub struct HitView {
    pub def: DefId,
    pub from: int,
    pub at: Span,
    pub sites: nat,
}

/// The functions in the order the walk came to them, each with the place in
/// that order of the one it was come to from, and the banned definitions.
pub struct Search {
    pub order: Seq<(DefId, int)>,
    pub hits: Seq<HitView>,
}

/// The function's place in the order, from `k` on.
pub open spec fn place(order: Seq<(DefId, int)>, def: DefId, k: int) -> Option<int>
    decreases order.len() - k,
{
    if k >= order.len() {
        None
    } else if order[k].0 == def {
        Some(k)
    } else {
        place(order, def, k + 1)
    }
}

/// The definition's place among the hits, from `k` on.
pub open spec fn hit_place(hits: Seq<HitView>, def: DefId, k: int) -> Option<int>
    decreases hits.len() - k,
{
    if k >= hits.len() {
        None
    } else if hits[k].def == def {
        Some(k)
    } else {
        hit_place(hits, def, k + 1)
    }
}

/// The hits once an edge of the function at `head` has been followed.
pub open spec fn hit(
    defs: Definitions,
    never: Seq<Seq<char>>,
    hits: Seq<HitView>,
    head: int,
    edge: (DefId, Span),
) -> Seq<HitView> {
    if !banned(defs, never, edge.0) {
        hits
    } else {
        match hit_place(hits, edge.0, 0) {
            Some(i) => hits.update(i, HitView { sites: hits[i].sites + 1, ..hits[i] }),
            None => hits.push(HitView { def: edge.0, from: head, at: edge.1, sites: 1 }),
        }
    }
}

/// The order once an edge of the function at `head` has been followed.
pub open spec fn arrive(
    defs: Definitions,
    order: Seq<(DefId, int)>,
    head: int,
    edge: (DefId, Span),
) -> Seq<(DefId, int)> {
    if defs.local(edge.0) && place(order, edge.0, 0) is None {
        order.push((edge.0, head))
    } else {
        order
    }
}

/// The walk once the first `k` edges of the function at `head` have been
/// followed.
pub open spec fn expand(
    defs: Definitions,
    never: Seq<Seq<char>>,
    s: Search,
    head: int,
    edges: Seq<(DefId, Span)>,
    k: int,
) -> Search
    decreases k,
{
    if k <= 0 {
        s
    } else {
        let t = expand(defs, never, s, head, edges, k - 1);
        Search {
            order: arrive(defs, t.order, head, edges[k - 1]),
            hits: hit(defs, never, t.hits, head, edges[k - 1]),
        }
    }
}

/// The walk once the first `n` functions of its order have been expanded.
pub open spec fn search(
    defs: Definitions,
    calls: Calls,
    never: Seq<Seq<char>>,
    root: DefId,
    n: nat,
) -> Search
    decreases n,
{
    if n == 0 {
        Search { order: seq![(root, 0int)], hits: Seq::empty() }
    } else {
        let s = search(defs, calls, never, root, (n - 1) as nat);
        if n - 1 < s.order.len() {
            let edges = edges_of(calls, s.order[n - 1].0);
            expand(defs, never, s, n - 1, edges, edges.len() as int)
        } else {
            s
        }
    }
}

/// Everything some function calls.
pub open spec fn callees(calls: Calls) -> Seq<DefId>
    decreases calls.len(),
{
    if calls.len() == 0 {
        Seq::empty()
    } else {
        callees(calls.drop_last()) + calls.last().1.map_values(|e: (DefId, Span)| e.0)
    }
}

/// The walk run to exhaustion.
pub open spec fn searched(
    defs: Definitions,
    calls: Calls,
    never: Seq<Seq<char>>,
    root: DefId,
) -> Search {
    search(defs, calls, never, root, callees(calls).len() + 1)
}

/// The functions on the way from the root to the function at `i`.
pub open spec fn path_to(order: Seq<(DefId, int)>, i: int) -> Seq<DefId>
    decreases i,
{
    if i <= 0 || order[i].1 < 0 || order[i].1 >= i {
        seq![order[0].0]
    } else {
        path_to(order, order[i].1).push(order[i].0)
    }
}

/// The path printed for a hit.
pub open spec fn witness(order: Seq<(DefId, int)>, h: HitView) -> Seq<DefId> {
    if h.def == order[0].0 {
        seq![h.def]
    } else {
        path_to(order, h.from).push(h.def)
    }
}

// ---------------------------------------------------------------- findings

pub open spec fn more_text(sites: nat) -> Seq<char> {
    if sites <= 1 {
        ""@
    } else if sites == 2 {
        " (1 more call site reaches it)"@
    } else {
        " ("@ + decimal((sites - 1) as nat) + " more call sites reach it)"@
    }
}

pub open spec fn path_texts(defs: Definitions, path: Seq<DefId>) -> Seq<Seq<char>> {
    path.map_values(|d: DefId| defs.path_text(d))
}

pub open spec fn hit_finding(
    defs: Definitions,
    rule: RuleView,
    root: Root,
    order: Seq<(DefId, int)>,
    h: HitView,
) -> FindingView {
    noted(
        Lint::ForbiddenReach,
        root.span,
        "`"@ + defs.path_text(root.def) + "` can reach `"@ + defs.path_text(h.def)
            + "`, which the `forbidden-reach` config bans for it. Path: "@ + joined(
            path_texts(defs, witness(order, h)),
            " -> "@,
        ) + more_text(h.sites),
        h.at,
        "the last call in that path, to `"@ + defs.path_text(h.def) + "`"@,
        "break the path (each arrow is a real call in this crate), or relax the `forbidden-reach` rule for `"@
            + rule.from + "` if the call is fine"@,
    )
}

pub open spec fn hit_findings(
    defs: Definitions,
    rule: RuleView,
    root: Root,
    s: Search,
) -> Seq<FindingView> {
    s.hits.map_values(|h: HitView| hit_finding(defs, rule, root, s.order, h))
}

/// What the lint says of the first `k` roots.
pub open spec fn root_findings(defs: Definitions, s: ForbiddenView, k: int) -> Seq<FindingView>
    decreases k,
{
    if k <= 0 {
        Seq::empty()
    } else {
        let root = s.roots[k - 1];
        let rule = s.rules[root.rule as int];
        root_findings(defs, s, k - 1) + hit_findings(
            defs,
            rule,
            root,
            searched(defs, s.calls, rule.never, root.def),
        )
    }
}

/// Every root belongs to a rule.
pub open spec fn roots_valid(s: ForbiddenView) -> bool {
    forall|i: int| 0 <= i < s.roots.len() ==> (#[trigger] s.roots[i]).rule < s.rules.len()
}

// ---------------------------------------------------------------- what holds

/// Some call in `a` is to `b`.
pub open spec fn calls_it(calls: Calls, a: DefId, b: DefId) -> bool {
    exists|m: int| 0 <= m < edges_of(calls, a).len() && (#[trigger] edges_of(calls, a)[m]).0 == b
}

/// How many of the edges lead to the definition.
pub open spec fn edge_count(edges: Seq<(DefId, Span)>, def: DefId) -> nat
    decreases edges.len(),
{
    if edges.len() == 0 {
        0
    } else {
        edge_count(edges.drop_last(), def) + if edges.last().0 == def {
            1nat
        } else {
            0nat
        }
    }
}

/// How many call sites in the first `n` functions lead to the definition.
pub open spec fn sites_to(calls: Calls, order: Seq<(DefId, int)>, def: DefId, n: int) -> nat
    decreases n,
{
    if n <= 0 {
        0
    } else {
        sites_to(calls, order, def, n - 1) + edge_count(edges_of(calls, order[n - 1].0), def)
    }
}

/// The same, counting the first `k` edges of the function at `n` too.
spec fn sites_within(
    calls: Calls,
    order: Seq<(DefId, int)>,
    def: DefId,
    n: int,
    k: int,
) -> nat {
    sites_to(calls, order, def, n) + edge_count(edges_of(calls, order[n].0).take(k), def)
}

/// The function is in the order, come to from place `i` or before.
spec fn come_to(order: Seq<(DefId, int)>, def: DefId, i: int) -> bool {
    exists|j: int|
        0 <= j < order.len() && (#[trigger] order[j]).0 == def && (j == 0 || order[j].1 <= i)
}

/// The definition is a hit, first reached from place `i` or before.
spec fn hit_from(hits: Seq<HitView>, def: DefId, i: int) -> bool {
    exists|h: int| 0 <= h < hits.len() && (#[trigger] hits[h]).def == def && hits[h].from <= i
}

/// Edge `m` of the function at `i` has been followed, the walk standing
/// before edge `k` of the function at `n`.
spec fn followed(n: int, k: int, i: int, m: int) -> bool {
    i < n || (i == n && m < k)
}

spec fn order_ok(
    defs: Definitions,
    calls: Calls,
    root: DefId,
    order: Seq<(DefId, int)>,
    n: int,
) -> bool {
    &&& order.len() > 0
    &&& order[0] == (root, 0int)
    &&& forall|i: int, j: int|
        0 <= i < j < order.len() ==> (#[trigger] order[i]).0 != (#[trigger] order[j]).0
    &&& forall|i: int|
        1 <= i < order.len() ==> {
            &&& 0 <= (#[trigger] order[i]).1 < i
            &&& order[i].1 <= n
            &&& defs.local(order[i].0)
            &&& calls_it(calls, order[order[i].1].0, order[i].0)
        }
    &&& forall|i: int, j: int|
        1 <= i <= j < order.len() ==> (#[trigger] order[i]).1 <= (#[trigger] order[j]).1
}

spec fn closed_to(
    defs: Definitions,
    calls: Calls,
    order: Seq<(DefId, int)>,
    n: int,
    k: int,
) -> bool {
    forall|i: int, m: int|
        0 <= i < order.len() && followed(n, k, i, m) && 0 <= m < edges_of(calls, order[i].0).len()
            && defs.local((#[trigger] edges_of(calls, order[i].0)[m]).0) ==> come_to(
            order,
            edges_of(calls, order[i].0)[m].0,
            i,
        )
}

spec fn hits_ok(
    defs: Definitions,
    calls: Calls,
    never: Seq<Seq<char>>,
    s: Search,
    n: int,
    k: int,
) -> bool {
    &&& forall|h: int|
        0 <= h < s.hits.len() ==> {
            let x = #[trigger] s.hits[h];
            &&& banned(defs, never, x.def)
            &&& 0 <= x.from < s.order.len()
            &&& x.from <= n
            &&& edges_of(calls, s.order[x.from].0).contains((x.def, x.at))
            &&& x.sites == sites_within(calls, s.order, x.def, n, k)
        }
    &&& forall|g: int, h: int|
        0 <= g < h < s.hits.len() ==> (#[trigger] s.hits[g]).def != (#[trigger] s.hits[h]).def
    &&& forall|i: int, m: int|
        0 <= i < s.order.len() && followed(n, k, i, m) && 0 <= m < edges_of(
            calls,
            s.order[i].0,
        ).len() && banned(defs, never, (#[trigger] edges_of(calls, s.order[i].0)[m]).0)
            ==> hit_from(s.hits, edges_of(calls, s.order[i].0)[m].0, i)
}

spec fn walk_ok(
    defs: Definitions,
    calls: Calls,
    never: Seq<Seq<char>>,
    root: DefId,
    s: Search,
    n: int,
    k: int,
) -> bool {
    &&& order_ok(defs, calls, root, s.order, n)
    &&& closed_to(defs, calls, s.order, n, k)
    &&& hits_ok(defs, calls, never, s, n, k)
}

proof fn lemma_place(order: Seq<(DefId, int)>, def: DefId, k: int)
    requires
        0 <= k,
    ensures
        match place(order, def, k) {
            Some(i) => k <= i < order.len() && order[i].0 == def,
            None => forall|j: int| k <= j < order.len() ==> (#[trigger] order[j]).0 != def,
        },
    decreases order.len() - k,
{
    if k < order.len() && order[k].0 != def {
        lemma_place(order, def, k + 1);
    }
}

proof fn lemma_hit_place(hits: Seq<HitView>, def: DefId, k: int)
    requires
        0 <= k,
    ensures
        match hit_place(hits, def, k) {
            Some(i) => k <= i < hits.len() && hits[i].def == def,
            None => forall|j: int| k <= j < hits.len() ==> (#[trigger] hits[j]).def != def,
        },
    decreases hits.len() - k,
{
    if k < hits.len() && hits[k].def != def {
        lemma_hit_place(hits, def, k + 1);
    }
}

proof fn lemma_sites_prefix(
    calls: Calls,
    a: Seq<(DefId, int)>,
    b: Seq<(DefId, int)>,
    def: DefId,
    n: int,
)
    requires
        n <= a.len(),
        n <= b.len(),
        forall|i: int| 0 <= i < n ==> (#[trigger] a[i]).0 == b[i].0,
    ensures
        sites_to(calls, a, def, n) == sites_to(calls, b, def, n),
    decreases n,
{
    if n > 0 {
        assert(a[n - 1].0 == b[n - 1].0);
        lemma_sites_prefix(calls, a, b, def, n - 1);
    }
}

proof fn lemma_no_edges(edges: Seq<(DefId, Span)>, def: DefId)
    requires
        forall|m: int| 0 <= m < edges.len() ==> (#[trigger] edges[m]).0 != def,
    ensures
        edge_count(edges, def) == 0,
    decreases edges.len(),
{
    if edges.len() > 0 {
        assert(edges[edges.len() - 1].0 != def);
        assert forall|m: int| 0 <= m < edges.drop_last().len() implies (
        #[trigger] edges.drop_last()[m]).0 != def by {
            assert(edges[m].0 != def);
        }
        lemma_no_edges(edges.drop_last(), def);
    }
}

proof fn lemma_no_sites(calls: Calls, order: Seq<(DefId, int)>, def: DefId, n: int)
    requires
        n <= order.len(),
        forall|i: int, m: int|
            0 <= i < n && 0 <= m < edges_of(calls, order[i].0).len() ==> (#[trigger] edges_of(
                calls,
                order[i].0,
            )[m]).0 != def,
    ensures
        sites_to(calls, order, def, n) == 0,
    decreases n,
{
    if n > 0 {
        lemma_no_sites(calls, order, def, n - 1);
        let edges = edges_of(calls, order[n - 1].0);
        assert forall|m: int| 0 <= m < edges.len() implies (#[trigger] edges[m]).0 != def by {
            assert(edges_of(calls, order[n - 1].0)[m].0 != def);
        }
        lemma_no_edges(edges, def);
    }
}

/// Following one more edge keeps what holds of the walk.
#[verifier::spinoff_prover]
#[verifier::rlimit(40)]
proof fn lemma_step(
    defs: Definitions,
    calls: Calls,
    never: Seq<Seq<char>>,
    root: DefId,
    s: Search,
    n: int,
    k: int,
)
    requires
        walk_ok(defs, calls, never, root, s, n, k),
        0 <= n < s.order.len(),
        0 <= k < edges_of(calls, s.order[n].0).len(),
    ensures
        ({
            let e = edges_of(calls, s.order[n].0)[k];
            walk_ok(
                defs,
                calls,
                never,
                root,
                Search {
                    order: arrive(defs, s.order, n, e),
                    hits: hit(defs, never, s.hits, n, e),
                },
                n,
                k + 1,
            )
        }),
{
    let edges = edges_of(calls, s.order[n].0);
    let e = edges[k];
    let order = arrive(defs, s.order, n, e);
    let hits = hit(defs, never, s.hits, n, e);
    let t = Search { order, hits };
    lemma_place(s.order, e.0, 0);
    lemma_hit_place(s.hits, e.0, 0);
    assert forall|i: int| 0 <= i < s.order.len() implies #[trigger] order[i] == s.order[i] by {}
    assert(calls_it(calls, s.order[n].0, e.0)) by {
        assert(edges_of(calls, s.order[n].0)[k].0 == e.0);
    }
    assert(order_ok(defs, calls, root, order, n)) by {
        assert forall|i: int| 1 <= i < order.len() implies {
            &&& 0 <= (#[trigger] order[i]).1 < i
            &&& order[i].1 <= n
            &&& defs.local(order[i].0)
            &&& calls_it(calls, order[order[i].1].0, order[i].0)
        } by {
            if i < s.order.len() {
                assert(order[i] == s.order[i]);
                assert(order[s.order[i].1] == s.order[s.order[i].1]);
            } else {
                assert(order[n] == s.order[n]);
            }
        }
        assert forall|i: int, j: int| 0 <= i < j < order.len() implies (#[trigger] order[i]).0 != (
        #[trigger] order[j]).0 by {
            assert(order[i] == s.order[i]);
            if j < s.order.len() {
                assert(order[j] == s.order[j]);
            } else {
                assert(s.order[i].0 != e.0);
            }
        }
        assert forall|i: int, j: int| 1 <= i <= j < order.len() implies (#[trigger] order[i]).1
            <= (#[trigger] order[j]).1 by {
            if j < s.order.len() {
                assert(order[j] == s.order[j]);
                assert(order[i] == s.order[i]);
            } else if i < s.order.len() {
                assert(order[i] == s.order[i]);
            }
        }
    }
    assert(closed_to(defs, calls, order, n, k + 1)) by {
        assert forall|i: int, m: int|
            0 <= i < order.len() && followed(n, k + 1, i, m) && 0 <= m < edges_of(
                calls,
                order[i].0,
            ).len() && defs.local((#[trigger] edges_of(calls, order[i].0)[m]).0) implies come_to(
            order,
            edges_of(calls, order[i].0)[m].0,
            i,
        ) by {
            assert(order[i] == s.order[i]);
            let c = edges_of(calls, order[i].0)[m].0;
            if followed(n, k, i, m) {
                assert(edges_of(calls, s.order[i].0)[m].0 == c);
                assert(come_to(s.order, c, i));
                let j = choose|j: int|
                    0 <= j < s.order.len() && (#[trigger] s.order[j]).0 == c && (j == 0
                        || s.order[j].1 <= i);
                assert(order[j] == s.order[j]);
            } else {
                assert(i == n && m == k);
                assert(c == e.0);
                match place(s.order, e.0, 0) {
                    Some(j) => {
                        assert(order[j] == s.order[j]);
                        assert(order[j].0 == c && (j == 0 || order[j].1 <= i));
                    },
                    None => {
                        let j = s.order.len() as int;
                        assert(order[j] == (e.0, n));
                        assert(order[j].0 == c && order[j].1 <= i);
                    },
                }
            }
        }
    }
    assert(hits_ok(defs, calls, never, t, n, k + 1)) by {
        assert(edges.take(k + 1).drop_last() =~= edges.take(k));
        assert(edges.take(k + 1).last() == e);
        assert(order[n] == s.order[n]);
        assert forall|d: DefId| #[trigger]
            sites_within(calls, order, d, n, k + 1) == sites_within(calls, s.order, d, n, k) + (
            if d == e.0 {
                1nat
            } else {
                0nat
            }) by {
            lemma_sites_prefix(calls, order, s.order, d, n);
        }
        if banned(defs, never, e.0) && hit_place(s.hits, e.0, 0) is None {
            assert forall|i: int, m: int|
                0 <= i < n && 0 <= m < edges_of(calls, s.order[i].0).len() implies (
            #[trigger] edges_of(calls, s.order[i].0)[m]).0 != e.0 by {
                assert(followed(n, k, i, m));
                if edges_of(calls, s.order[i].0)[m].0 == e.0 {
                    assert(hit_from(s.hits, e.0, i));
                }
            }
            lemma_no_sites(calls, s.order, e.0, n);
            assert forall|m: int| 0 <= m < edges.take(k).len() implies (
            #[trigger] edges.take(k)[m]).0 != e.0 by {
                assert(followed(n, k, n, m));
                assert(edges_of(calls, s.order[n].0)[m] == edges.take(k)[m]);
                if edges_of(calls, s.order[n].0)[m].0 == e.0 {
                    assert(hit_from(s.hits, e.0, n));
                }
            }
            lemma_no_edges(edges.take(k), e.0);
            assert(sites_within(calls, s.order, e.0, n, k) == 0);
        }
        assert forall|h: int| 0 <= h < t.hits.len() implies {
            let x = #[trigger] t.hits[h];
            &&& banned(defs, never, x.def)
            &&& 0 <= x.from < t.order.len()
            &&& x.from <= n
            &&& edges_of(calls, t.order[x.from].0).contains((x.def, x.at))
            &&& x.sites == sites_within(calls, t.order, x.def, n, k + 1)
        } by {
            if h < s.hits.len() {
                let y = s.hits[h];
                assert(order[y.from] == s.order[y.from]);
                assert(t.hits[h].def == y.def && t.hits[h].from == y.from && t.hits[h].at == y.at);
                match hit_place(s.hits, e.0, 0) {
                    Some(i) => {
                        if h != i {
                            if h < i {
                                assert(s.hits[h].def != s.hits[i].def);
                            } else {
                                assert(s.hits[i].def != s.hits[h].def);
                            }
                        }
                    },
                    None => {
                        assert(s.hits[h].def != e.0);
                    },
                }
            } else {
                assert(edges[k] == e);
                assert(edges_of(calls, t.order[n].0).contains(e));
            }
        }
        assert forall|g: int, h: int| 0 <= g < h < t.hits.len() implies (#[trigger] t.hits[g]).def
            != (#[trigger] t.hits[h]).def by {
            assert(t.hits[g].def == s.hits[g].def);
            if h < s.hits.len() {
                assert(t.hits[h].def == s.hits[h].def);
                assert(s.hits[g].def != s.hits[h].def);
            } else {
                assert(s.hits[g].def != e.0);
            }
        }
        assert forall|i: int, m: int|
            0 <= i < t.order.len() && followed(n, k + 1, i, m) && 0 <= m < edges_of(
                calls,
                t.order[i].0,
            ).len() && banned(
                defs,
                never,
                (#[trigger] edges_of(calls, t.order[i].0)[m]).0,
            ) implies hit_from(t.hits, edges_of(calls, t.order[i].0)[m].0, i) by {
            assert(order[i] == s.order[i]);
            let c = edges_of(calls, t.order[i].0)[m].0;
            if followed(n, k, i, m) {
                assert(edges_of(calls, s.order[i].0)[m].0 == c);
                assert(hit_from(s.hits, c, i));
                let h = choose|h: int|
                    0 <= h < s.hits.len() && (#[trigger] s.hits[h]).def == c && s.hits[h].from <= i;
                assert(t.hits[h].def == c && t.hits[h].from <= i);
            } else {
                assert(i == n && m == k && c == e.0);
                match hit_place(s.hits, e.0, 0) {
                    Some(h) => {
                        assert(s.hits[h].from <= n);
                        assert(t.hits[h].def == c && t.hits[h].from <= i);
                    },
                    None => {
                        let h = s.hits.len() as int;
                        assert(t.hits[h].def == c && t.hits[h].from <= i);
                    },
                }
            }
        }
    }
}

/// Following the first `j` edges of the function at `n` keeps what holds.
proof fn lemma_expand(
    defs: Definitions,
    calls: Calls,
    never: Seq<Seq<char>>,
    root: DefId,
    s: Search,
    n: int,
    j: int,
)
    requires
        walk_ok(defs, calls, never, root, s, n, 0),
        0 <= n < s.order.len(),
        0 <= j <= edges_of(calls, s.order[n].0).len(),
    ensures
        ({
            let t = expand(defs, never, s, n, edges_of(calls, s.order[n].0), j);
            walk_ok(defs, calls, never, root, t, n, j) && t.order.len() >= s.order.len()
                && t.order[n] == s.order[n]
        }),
    decreases j,
{
    if j > 0 {
        lemma_expand(defs, calls, never, root, s, n, j - 1);
        let t = expand(defs, never, s, n, edges_of(calls, s.order[n].0), j - 1);
        lemma_step(defs, calls, never, root, t, n, j - 1);
    }
}

/// A function with all its edges followed is as good as passed.
proof fn lemma_pass(
    defs: Definitions,
    calls: Calls,
    never: Seq<Seq<char>>,
    root: DefId,
    s: Search,
    n: int,
)
    requires
        0 <= n < s.order.len(),
        walk_ok(
            defs,
            calls,
            never,
            root,
            s,
            n,
            edges_of(calls, s.order[n].0).len() as int,
        ),
    ensures
        walk_ok(defs, calls, never, root, s, n + 1, 0),
{
    let edges = edges_of(calls, s.order[n].0);
    let k = edges.len() as int;
    assert(edges.take(k) =~= edges);
    assert forall|d: DefId| #[trigger]
        sites_within(calls, s.order, d, n + 1, 0) == sites_within(calls, s.order, d, n, k) by {
        assert(edges_of(calls, s.order[n + 1].0).take(0).len() == 0);
    }
    assert forall|i: int, m: int|
        0 <= i < s.order.len() && followed(n + 1, 0, i, m) && 0 <= m < edges_of(
            calls,
            s.order[i].0,
        ).len() implies #[trigger] followed(n, k, i, m) by {}
    assert(closed_to(defs, calls, s.order, n + 1, 0)) by {
        assert forall|i: int, m: int|
            0 <= i < s.order.len() && followed(n + 1, 0, i, m) && 0 <= m < edges_of(
                calls,
                s.order[i].0,
            ).len() && defs.local((#[trigger] edges_of(calls, s.order[i].0)[m]).0) implies come_to(
            s.order,
            edges_of(calls, s.order[i].0)[m].0,
            i,
        ) by {
            assert(followed(n, k, i, m));
        }
    }
    assert(hits_ok(defs, calls, never, s, n + 1, 0)) by {
        assert forall|i: int, m: int|
            0 <= i < s.order.len() && followed(n + 1, 0, i, m) && 0 <= m < edges_of(
                calls,
                s.order[i].0,
            ).len() && banned(
                defs,
                never,
                (#[trigger] edges_of(calls, s.order[i].0)[m]).0,
            ) implies hit_from(s.hits, edges_of(calls, s.order[i].0)[m].0, i) by {
            assert(followed(n, k, i, m));
        }
    }
}

/// What holds of the walk at every stage.
proof fn lemma_search(
    defs: Definitions,
    calls: Calls,
    never: Seq<Seq<char>>,
    root: DefId,
    n: nat,
)
    ensures
        ({
            let s = search(defs, calls, never, root, n);
            let at = if n <= s.order.len() {
                n as int
            } else {
                s.order.len() as int
            };
            walk_ok(defs, calls, never, root, s, at, 0)
        }),
    decreases n,
{
    let s = search(defs, calls, never, root, n);
    if n == 0 {
        assert(walk_ok(defs, calls, never, root, s, 0, 0));
    } else {
        lemma_search(defs, calls, never, root, (n - 1) as nat);
        let b = search(defs, calls, never, root, (n - 1) as nat);
        if n - 1 < b.order.len() {
            let edges = edges_of(calls, b.order[n - 1].0);
            lemma_expand(defs, calls, never, root, b, n - 1, edges.len() as int);
            lemma_pass(defs, calls, never, root, s, n - 1);
        }
    }
}

/// Once every function of the order has been expanded the walk stands still.
proof fn lemma_search_rests(
    defs: Definitions,
    calls: Calls,
    never: Seq<Seq<char>>,
    root: DefId,
    n: nat,
    m: nat,
)
    requires
        n <= m,
        search(defs, calls, never, root, n).order.len() <= n,
    ensures
        search(defs, calls, never, root, m) == search(defs, calls, never, root, n),
    decreases m,
{
    if m > n {
        lemma_search_rests(defs, calls, never, root, n, (m - 1) as nat);
    }
}

proof fn lemma_callee_listed(calls: Calls, a: DefId, m: int)
    requires
        0 <= m < edges_of(calls, a).len(),
    ensures
        callees(calls).contains(edges_of(calls, a)[m].0),
    decreases calls.len(),
{
    let d = edges_of(calls, a)[m].0;
    crate::table::lemma_key_at(calls, a);
    let i = crate::table::key_at(calls, a);
    lemma_callee_at(calls, i, m);
}

proof fn lemma_callee_at(calls: Calls, i: int, m: int)
    requires
        0 <= i < calls.len(),
        0 <= m < calls[i].1.len(),
    ensures
        callees(calls).contains(calls[i].1[m].0),
    decreases calls.len(),
{
    let front = callees(calls.drop_last());
    let back = calls.last().1.map_values(|e: (DefId, Span)| e.0);
    let all = callees(calls);
    assert(all == front + back);
    if i == calls.len() - 1 {
        assert(back[m] == calls[i].1[m].0);
        assert(all[front.len() + m] == back[m]);
    } else {
        lemma_callee_at(calls.drop_last(), i, m);
        let j = choose|j: int| 0 <= j < front.len() && front[j] == calls[i].1[m].0;
        assert(all[j] == front[j]);
    }
}

/// The walk comes to no more functions than are called, and the root.
proof fn lemma_order_bounded(
    defs: Definitions,
    calls: Calls,
    root: DefId,
    order: Seq<(DefId, int)>,
    n: int,
)
    requires
        order_ok(defs, calls, root, order, n),
    ensures
        order.len() <= callees(calls).len() + 1,
{
    let universe = callees(calls).push(root);
    let ids = Seq::new(order.len(), |i: int| order[i].0);
    assert(ids.no_duplicates()) by {
        assert forall|i: int, j: int| 0 <= i < ids.len() && 0 <= j < ids.len() && i != j implies
            ids[i] != ids[j] by {
            if i < j {
                assert(order[i].0 != order[j].0);
            } else {
                assert(order[j].0 != order[i].0);
            }
        }
    }
    assert forall|x: DefId| ids.to_set().contains(x) implies universe.to_set().contains(x) by {
        let i = choose|i: int| 0 <= i < ids.len() && ids[i] == x;
        if i == 0 {
            assert(order[0] == (root, 0int));
            assert(universe[universe.len() - 1] == root);
        } else {
            assert(calls_it(calls, order[order[i].1].0, order[i].0));
            let a = order[order[i].1].0;
            let m = choose|m: int|
                0 <= m < edges_of(calls, a).len() && (#[trigger] edges_of(calls, a)[m]).0
                    == order[i].0;
            lemma_callee_listed(calls, a, m);
            let j = choose|j: int| 0 <= j < callees(calls).len() && callees(calls)[j] == x;
            assert(universe[j] == x);
        }
    }
    ids.unique_seq_to_set();
    universe.lemma_cardinality_of_set();
    vstd::seq_lib::seq_to_set_is_finite(universe);
    vstd::set_lib::lemma_len_subset(ids.to_set(), universe.to_set());
}

/// What holds of the walk run to exhaustion.
proof fn lemma_searched(defs: Definitions, calls: Calls, never: Seq<Seq<char>>, root: DefId)
    ensures
        ({
            let s = searched(defs, calls, never, root);
            walk_ok(defs, calls, never, root, s, s.order.len() as int, 0)
        }),
{
    let n = callees(calls).len() + 1;
    lemma_search(defs, calls, never, root, n);
    let s = searched(defs, calls, never, root);
    let at = if n <= s.order.len() {
        n as int
    } else {
        s.order.len() as int
    };
    lemma_order_bounded(defs, calls, root, s.order, at);
}

// ---------------------------------------------------------------- laws

/// Every arrow of the path is a call.
pub open spec fn is_call_path(calls: Calls, path: Seq<DefId>) -> bool {
    path.len() > 0 && forall|i: int|
        #![trigger path[i]]
        0 <= i < path.len() - 1 ==> calls_it(calls, path[i], path[i + 1])
}

/// Every function of the path after the first and before `k` is local.
pub open spec fn passes_local(defs: Definitions, path: Seq<DefId>, k: int) -> bool {
    forall|i: int| 1 <= i < k ==> defs.local(#[trigger] path[i])
}

proof fn lemma_path_to(
    defs: Definitions,
    calls: Calls,
    root: DefId,
    order: Seq<(DefId, int)>,
    n: int,
    i: int,
)
    requires
        order_ok(defs, calls, root, order, n),
        0 <= i < order.len(),
    ensures
        ({
            let p = path_to(order, i);
            p[0] == root && p.last() == order[i].0 && is_call_path(calls, p) && passes_local(
                defs,
                p,
                p.len() as int,
            )
        }),
    decreases i,
{
    let p = path_to(order, i);
    if i > 0 {
        let from = order[i].1;
        lemma_path_to(defs, calls, root, order, n, from);
        let q = path_to(order, from);
        assert(p == q.push(order[i].0));
        assert forall|j: int| #![trigger p[j]] 0 <= j < p.len() - 1 implies calls_it(
            calls,
            p[j],
            p[j + 1],
        ) by {
            assert(p[j] == q[j]);
            if j + 1 < q.len() {
                assert(p[j + 1] == q[j + 1]);
            } else {
                assert(q[j] == q.last());
            }
        }
        assert forall|j: int| 1 <= j < p.len() implies defs.local(#[trigger] p[j]) by {
            if j < q.len() {
                assert(p[j] == q[j]);
            }
        }
    }
}

/// The path printed for a banned definition exists: it starts at the root,
/// ends at that definition, and each of its arrows is a call.
pub proof fn lemma_witness_is_real(
    defs: Definitions,
    calls: Calls,
    never: Seq<Seq<char>>,
    root: DefId,
    h: int,
)
    requires
        0 <= h < searched(defs, calls, never, root).hits.len(),
    ensures
        ({
            let s = searched(defs, calls, never, root);
            let w = witness(s.order, s.hits[h]);
            w[0] == root && w.last() == s.hits[h].def && is_call_path(calls, w) && banned(
                defs,
                never,
                w.last(),
            )
        }),
{
    lemma_searched(defs, calls, never, root);
    let s = searched(defs, calls, never, root);
    let x = s.hits[h];
    let w = witness(s.order, x);
    if x.def != root {
        lemma_path_to(defs, calls, root, s.order, s.order.len() as int, x.from);
        let q = path_to(s.order, x.from);
        let a = s.order[x.from].0;
        assert(calls_it(calls, a, x.def)) by {
            let edges = edges_of(calls, a);
            let m = choose|m: int| 0 <= m < edges.len() && edges[m] == (x.def, x.at);
            assert(edges_of(calls, a)[m].0 == x.def);
        }
        assert forall|j: int| #![trigger w[j]] 0 <= j < w.len() - 1 implies calls_it(
            calls,
            w[j],
            w[j + 1],
        ) by {
            assert(w[j] == q[j]);
            if j + 1 < q.len() {
                assert(w[j + 1] == q[j + 1]);
            } else {
                assert(q[j] == q.last());
            }
        }
    }
}

proof fn lemma_depth_ascends(
    defs: Definitions,
    calls: Calls,
    root: DefId,
    order: Seq<(DefId, int)>,
    n: int,
    i: int,
    j: int,
)
    requires
        order_ok(defs, calls, root, order, n),
        0 <= i <= j < order.len(),
    ensures
        1 <= path_to(order, i).len() <= path_to(order, j).len(),
    decreases j,
{
    if j > 0 {
        let b = order[j].1;
        if i > 0 {
            assert(order[i].1 <= order[j].1);
            lemma_depth_ascends(defs, calls, root, order, n, order[i].1, b);
        } else {
            lemma_depth_ascends(defs, calls, root, order, n, 0, b);
        }
    }
}

/// The walk comes to the end of every path of calls through local functions,
/// by a path no longer.
proof fn lemma_comes_to(
    defs: Definitions,
    calls: Calls,
    never: Seq<Seq<char>>,
    root: DefId,
    path: Seq<DefId>,
) -> (j: int)
    requires
        is_call_path(calls, path),
        path[0] == root,
        passes_local(defs, path, path.len() as int),
    ensures
        ({
            let order = searched(defs, calls, never, root).order;
            0 <= j < order.len() && order[j].0 == path.last() && path_to(order, j).len()
                <= path.len()
        }),
    decreases path.len(),
{
    lemma_searched(defs, calls, never, root);
    let order = searched(defs, calls, never, root).order;
    let n = order.len() as int;
    if path.len() == 1 {
        0
    } else {
        let front = path.drop_last();
        assert(is_call_path(calls, front)) by {
            assert forall|i: int| #![trigger front[i]] 0 <= i < front.len() - 1 implies calls_it(
                calls,
                front[i],
                front[i + 1],
            ) by {
                assert(path[i] == front[i] && path[i + 1] == front[i + 1]);
            }
        }
        assert forall|i: int| 1 <= i < front.len() implies defs.local(#[trigger] front[i]) by {
            assert(path[i] == front[i]);
        }
        let k = lemma_comes_to(defs, calls, never, root, front);
        let a = order[k].0;
        assert(path[path.len() - 2] == a);
        assert(calls_it(calls, a, path.last()));
        let m = choose|m: int|
            0 <= m < edges_of(calls, a).len() && (#[trigger] edges_of(calls, a)[m]).0
                == path.last();
        assert(defs.local(path[path.len() - 1]));
        assert(followed(n, 0, k, m));
        assert(defs.local(edges_of(calls, order[k].0)[m].0));
        assert(come_to(order, path.last(), k));
        let j = choose|j: int|
            0 <= j < order.len() && (#[trigger] order[j]).0 == path.last() && (j == 0 || order[j].1
                <= k);
        if j > 0 {
            lemma_depth_ascends(defs, calls, root, order, n, order[j].1, k);
        }
        j
    }
}

/// Nothing is missed, and nothing shorter exists: whenever calls lead from
/// the root through local functions to a banned definition, that definition
/// is reported, by a path no longer than those calls.
pub proof fn lemma_shortest_path_found(
    defs: Definitions,
    calls: Calls,
    never: Seq<Seq<char>>,
    root: DefId,
    path: Seq<DefId>,
)
    requires
        path.len() >= 2,
        is_call_path(calls, path),
        path[0] == root,
        passes_local(defs, path, path.len() - 1),
        banned(defs, never, path.last()),
    ensures
        ({
            let s = searched(defs, calls, never, root);
            exists|h: int|
                0 <= h < s.hits.len() && (#[trigger] s.hits[h]).def == path.last() && witness(
                    s.order,
                    s.hits[h],
                ).len() <= path.len()
        }),
{
    lemma_searched(defs, calls, never, root);
    let s = searched(defs, calls, never, root);
    let n = s.order.len() as int;
    let front = path.drop_last();
    assert(is_call_path(calls, front)) by {
        assert forall|i: int| #![trigger front[i]] 0 <= i < front.len() - 1 implies calls_it(
            calls,
            front[i],
            front[i + 1],
        ) by {
            assert(path[i] == front[i] && path[i + 1] == front[i + 1]);
        }
    }
    assert forall|i: int| 1 <= i < front.len() implies defs.local(#[trigger] front[i]) by {
        assert(path[i] == front[i]);
    }
    let k = lemma_comes_to(defs, calls, never, root, front);
    let a = s.order[k].0;
    assert(path[path.len() - 2] == a);
    assert(calls_it(calls, a, path.last()));
    let m = choose|m: int|
        0 <= m < edges_of(calls, a).len() && (#[trigger] edges_of(calls, a)[m]).0 == path.last();
    assert(followed(n, 0, k, m));
    assert(banned(defs, never, edges_of(calls, s.order[k].0)[m].0));
    assert(hit_from(s.hits, path.last(), k));
    let h = choose|h: int|
        0 <= h < s.hits.len() && (#[trigger] s.hits[h]).def == path.last() && s.hits[h].from <= k;
    lemma_depth_ascends(defs, calls, root, s.order, n, s.hits[h].from, k);
    assert(s.hits[h].def == path.last() && witness(s.order, s.hits[h]).len() <= path.len());
}

/// Calls lead from the root through local functions to the function.
pub open spec fn reachable(defs: Definitions, calls: Calls, root: DefId, f: DefId) -> bool {
    exists|path: Seq<DefId>| #[trigger]
        is_call_path(calls, path) && path[0] == root && path.last() == f && passes_local(
            defs,
            path,
            path.len() as int,
        )
}

/// The walk visits exactly the functions reachable from the root, each once.
pub proof fn lemma_walk_is_what_is_reachable(
    defs: Definitions,
    calls: Calls,
    never: Seq<Seq<char>>,
    root: DefId,
)
    ensures
        ({
            let order = searched(defs, calls, never, root).order;
            &&& forall|f: DefId| #[trigger]
                reachable(defs, calls, root, f) <==> exists|i: int|
                    0 <= i < order.len() && (#[trigger] order[i]).0 == f
            &&& forall|i: int, j: int|
                0 <= i < j < order.len() ==> (#[trigger] order[i]).0 != (#[trigger] order[j]).0
        }),
{
    lemma_searched(defs, calls, never, root);
    let order = searched(defs, calls, never, root).order;
    assert forall|f: DefId| #[trigger]
        reachable(defs, calls, root, f) <==> exists|i: int|
            0 <= i < order.len() && (#[trigger] order[i]).0 == f by {
        if reachable(defs, calls, root, f) {
            let path = choose|path: Seq<DefId>| #[trigger]
                is_call_path(calls, path) && path[0] == root && path.last() == f && passes_local(
                    defs,
                    path,
                    path.len() as int,
                );
            let j = lemma_comes_to(defs, calls, never, root, path);
            assert(order[j].0 == f);
        }
        if exists|i: int| 0 <= i < order.len() && (#[trigger] order[i]).0 == f {
            let i = choose|i: int| 0 <= i < order.len() && (#[trigger] order[i]).0 == f;
            lemma_path_to(defs, calls, root, order, order.len() as int, i);
            assert(is_call_path(calls, path_to(order, i)));
        }
    }
}

/// A root has one finding for each banned definition it reaches, and that
/// finding counts every call site in the functions reached.
pub proof fn lemma_one_hit_per_definition(
    defs: Definitions,
    calls: Calls,
    never: Seq<Seq<char>>,
    root: DefId,
)
    ensures
        ({
            let s = searched(defs, calls, never, root);
            &&& forall|g: int, h: int|
                0 <= g < h < s.hits.len() ==> (#[trigger] s.hits[g]).def != (
                #[trigger] s.hits[h]).def
            &&& forall|h: int|
                0 <= h < s.hits.len() ==> (#[trigger] s.hits[h]).sites == sites_to(
                    calls,
                    s.order,
                    s.hits[h].def,
                    s.order.len() as int,
                )
        }),
{
    lemma_searched(defs, calls, never, root);
    let s = searched(defs, calls, never, root);
    let n = s.order.len() as int;
    assert forall|h: int| 0 <= h < s.hits.len() implies (#[trigger] s.hits[h]).sites == sites_to(
        calls,
        s.order,
        s.hits[h].def,
        n,
    ) by {
        assert(edges_of(calls, s.order[n].0).take(0).len() == 0);
        assert(s.hits[h].sites == sites_within(calls, s.order, s.hits[h].def, n, 0));
    }
}

// ---------------------------------------------------------------- running it

/// A banned definition reached.
#[derive(Clone, Copy, Debug)]
pub struct Hit {
    pub def: DefId,
    pub from: usize,
    pub at: Span,
    pub sites: u128,
}

impl View for Hit {
    type V = HitView;

    open spec fn view(&self) -> HitView {
        HitView { def: self.def, from: self.from as int, at: self.at, sites: self.sites as nat }
    }
}

pub open spec fn hit_views(v: Seq<Hit>) -> Seq<HitView> {
    v.map_values(|h: Hit| h@)
}

pub open spec fn order_views(v: Seq<(DefId, usize)>) -> Seq<(DefId, int)> {
    v.map_values(|n: (DefId, usize)| (n.0, n.1 as int))
}

fn find_place(order: &Vec<(DefId, usize)>, def: DefId) -> (r: bool)
    ensures
        r == (place(order_views(order@), def, 0) is Some),
{
    let ghost o = order_views(order@);
    let mut k: usize = 0;
    while k < order.len()
        invariant
            k <= order@.len(),
            o == order_views(order@),
            place(o, def, 0) == place(o, def, k as int),
        decreases order.len() - k,
    {
        assert(o[k as int].0 == order@[k as int].0);
        if order[k].0 == def {
            return true;
        }
        k = k + 1;
    }
    false
}

fn find_hit(hits: &Vec<Hit>, def: DefId) -> (r: Option<usize>)
    ensures
        match r {
            Some(i) => i < hits@.len() && hit_place(hit_views(hits@), def, 0) == Some(i as int),
            None => hit_place(hit_views(hits@), def, 0) is None,
        },
{
    let ghost v = hit_views(hits@);
    let mut k: usize = 0;
    while k < hits.len()
        invariant
            k <= hits@.len(),
            v == hit_views(hits@),
            hit_place(v, def, 0) == hit_place(v, def, k as int),
        decreases hits.len() - k,
    {
        assert(v[k as int].def == hits@[k as int].def);
        if hits[k].def == def {
            return Some(k);
        }
        k = k + 1;
    }
    None
}

fn write_path(defs: &Definitions, order: &Vec<(DefId, usize)>, i: usize) -> (r: Vec<String>)
    requires
        i < order@.len(),
    ensures
        texts(r@) == path_texts(*defs, path_to(order_views(order@), i as int)),
    decreases i,
{
    let ghost o = order_views(order@);
    assert(o[i as int] == (order@[i as int].0, order@[i as int].1 as int));
    assert(o[0].0 == order@[0].0);
    if i == 0 || order[i].1 >= i {
        let mut out: Vec<String> = Vec::new();
        out.push(String::from_str(defs.path_of(order[0].0)));
        assert(texts(out@) =~= path_texts(*defs, seq![o[0].0]));
        return out;
    }
    let mut out = write_path(defs, order, order[i].1);
    let ghost before = texts(out@);
    out.push(String::from_str(defs.path_of(order[i].0)));
    assert(texts(out@) =~= before.push(defs.path_text(o[i as int].0)));
    assert(texts(out@) =~= path_texts(*defs, path_to(o, i as int)));
    out
}

fn write_more(sites: u128) -> (r: String)
    ensures
        r@ == more_text(sites as nat),
{
    if sites <= 1 {
        String::from_str("")
    } else if sites == 2 {
        String::from_str(" (1 more call site reaches it)")
    } else {
        let mut s = String::from_str(" (");
        s.append(number(sites - 1).as_str());
        s.append(" more call sites reach it)");
        s
    }
}

impl ForbiddenReach {
    pub fn new(config: &MordantConfig) -> (r: Self)
        ensures
            r@ == (ForbiddenView {
                rules: rule_views(config.forbidden_reach@),
                calls: Seq::empty(),
                roots: Seq::empty(),
            }),
            roots_valid(r@),
    {
        let ghost want = rule_views(config.forbidden_reach@);
        let mut rules: Vec<ReachRule> = Vec::new();
        let mut i: usize = 0;
        while i < config.forbidden_reach.len()
            invariant
                i <= config.forbidden_reach@.len(),
                want == rule_views(config.forbidden_reach@),
                rule_views(rules@) == want.take(i as int),
            decreases config.forbidden_reach.len() - i,
        {
            let ghost before = rules@;
            rules.push(config.forbidden_reach[i].copied());
            assert(rule_views(rules@) =~= rule_views(before).push(want[i as int]));
            i = i + 1;
            assert(rule_views(rules@) =~= want.take(i as int));
        }
        assert(rule_views(rules@) =~= want);
        let r = ForbiddenReach { rules, calls: Vec::new(), roots: Vec::new() };
        assert(r@.calls =~= Seq::<(DefId, Seq<(DefId, Span)>)>::empty());
        r
    }

    /// Visits a function.
    pub fn check_fn(
        &mut self,
        defs: &Definitions,
        def: DefId,
        is_closure: bool,
        body: &Expr,
        span: Span,
    )
        requires
            roots_valid(old(self)@),
        ensures
            final(self)@ == after_fn(*defs, old(self)@, def, is_closure, *body, span),
            roots_valid(final(self)@),
    {
        if self.rules.len() == 0 || is_closure {
            return;
        }
        let ghost before = self@;
        let es = walked(body, true);
        let ghost all = walk(*body, true);
        let mut edges: Vec<(DefId, Span)> = Vec::new();
        let mut i: usize = 0;
        assert(edges@ =~= edges_in(*defs, all.take(0)));
        while i < es.len()
            invariant
                i <= es@.len(),
                targets(es@) == all,
                edges@ == edges_in(*defs, all.take(i as int)),
            decreases es.len() - i,
        {
            assert(all.take(i + 1).drop_last() =~= all.take(i as int));
            assert(all[i as int] == *es@[i as int]);
            match index_edge(defs, es[i]) {
                Some(d) => {
                    edges.push((d, es[i].span));
                },
                None => {},
            }
            i = i + 1;
        }
        assert(all.take(i as int) =~= all);
        let ghost found = edges@;
        self.add_calls(def, edges);
        let names = def_path_names(defs, def);
        let ghost start = self@.roots;
        let ghost rules = self@.rules;
        let mut k: usize = 0;
        assert(self.roots@ =~= start + roots_for(*defs, rules, def, span, 0));
        while k < self.rules.len()
            invariant
                k <= self.rules@.len(),
                rules == self@.rules,
                rules == before.rules,
                self@.calls == put(before.calls, def, found),
                (names.0@, names.1@) == path_spellings(*defs, def),
                self.roots@ == start + roots_for(*defs, rules, def, span, k as int),
                roots_valid(self@),
            decreases self.rules.len() - k,
        {
            let from = self.rules[k].from.as_str();
            assert(rules[k as int].from == from@);
            if matches_pattern(names.0.as_str(), from) || matches_pattern(names.1.as_str(), from) {
                let ghost was = self@;
                let root = Root { rule: k, def, span };
                self.roots.push(root);
                assert(self.roots@ =~= start + roots_for(*defs, rules, def, span, k + 1));
                assert forall|i: int| 0 <= i < self@.roots.len() implies (
                #[trigger] self@.roots[i]).rule < self@.rules.len() by {
                    if i < was.roots.len() {
                        assert(self@.roots[i] == was.roots[i]);
                        assert(was.roots[i].rule < was.rules.len());
                    }
                }
            }
            k = k + 1;
        }
        assert(self@ =~= after_fn(*defs, before, def, is_closure, *body, span));
    }

    fn add_calls(&mut self, def: DefId, edges: Vec<(DefId, Span)>)
        ensures
            final(self)@ == (ForbiddenView {
                calls: put(old(self)@.calls, def, edges@),
                ..old(self)@
            }),
    {
        let ghost before = self@;
        let ghost was = self.calls@;
        proof {
            lemma_key_kept(was, def);
        }
        put_key(&mut self.calls, def, edges);
        proof {
            let i = crate::table::key_at(was, def);
            crate::table::lemma_key_at(was, def);
            if i < was.len() {
                assert(self.calls@ == was.update(i, (def, edges)));
                assert(call_views(self.calls@) =~= call_views(was).update(i, (def, edges@)));
            } else {
                assert(self.calls@ == was.push((def, edges)));
                assert(call_views(self.calls@) =~= call_views(was).push((def, edges@)));
            }
        }
        assert(self@.calls =~= put(before.calls, def, edges@));
        assert(self@ =~= (ForbiddenView { calls: put(before.calls, def, edges@), ..before }));
    }

    fn edges_from(&self, def: DefId) -> (r: Option<&Vec<(DefId, Span)>>)
        ensures
            match r {
                Some(v) => v@ == edges_of(self@.calls, def),
                None => edges_of(self@.calls, def).len() == 0,
            },
    {
        proof {
            lemma_key_kept(self.calls@, def);
        }
        match find_key(&self.calls, &def) {
            Some(i) => {
                assert(self@.calls[i as int].1 == self.calls@[i as int].1@);
                Some(&self.calls[i].1)
            },
            None => None,
        }
    }

    /// Walks from a root to exhaustion.
    fn run(&self, defs: &Definitions, never: &Vec<String>, root: DefId) -> (r: (
        Vec<(DefId, usize)>,
        Vec<Hit>,
    ))
        ensures
            ({
                let s = searched(*defs, self@.calls, texts(never@), root);
                order_views(r.0@) == s.order && hit_views(r.1@) == s.hits
            }),
    {
        let ghost calls = self@.calls;
        let ghost ps = texts(never@);
        let ghost bound = callees(calls).len() + 1;
        let mut order: Vec<(DefId, usize)> = Vec::new();
        order.push((root, 0));
        let mut hits: Vec<Hit> = Vec::new();
        let mut head: usize = 0;
        assert(order_views(order@) =~= seq![(root, 0int)]);
        assert(hit_views(hits@) =~= Seq::<HitView>::empty());
        while head < order.len()
            invariant
                calls == self@.calls,
                ps == texts(never@),
                bound == callees(calls).len() + 1,
                head <= order@.len(),
                order_views(order@) == search(*defs, calls, ps, root, head as nat).order,
                hit_views(hits@) == search(*defs, calls, ps, root, head as nat).hits,
                forall|h: int|
                    0 <= h < hits@.len() ==> (#[trigger] hits@[h]).sites <= head
                        * 0x1_0000_0000_0000_0000,
            decreases bound - head,
        {
            let ghost s = search(*defs, calls, ps, root, head as nat);
            proof {
                lemma_search(*defs, calls, ps, root, head as nat);
                lemma_order_bounded(*defs, calls, root, s.order, head as int);
                assert(s.order.len() == order@.len());
                assert(s.order[head as int].0 == order@[head as int].0);
            }
            let cur = order[head].0;
            let ghost edges = edges_of(calls, cur);
            match self.edges_from(cur) {
                Some(es) => {
                    let mut k: usize = 0;
                    while k < es.len()
                        invariant
                            k <= es@.len(),
                            es@ == edges,
                            head < order@.len(),
                            ps == texts(never@),
                            s == search(*defs, calls, ps, root, head as nat),
                            order_views(order@) == expand(
                                *defs,
                                ps,
                                s,
                                head as int,
                                edges,
                                k as int,
                            ).order,
                            hit_views(hits@) == expand(
                                *defs,
                                ps,
                                s,
                                head as int,
                                edges,
                                k as int,
                            ).hits,
                            forall|h: int|
                                0 <= h < hits@.len() ==> (#[trigger] hits@[h]).sites <= head
                                    * 0x1_0000_0000_0000_0000 + k,
                        decreases es.len() - k,
                    {
                        let (callee, at) = es[k];
                        let ghost t = expand(*defs, ps, s, head as int, edges, k as int);
                        if is_banned(defs, never, callee) {
                            match find_hit(&hits, callee) {
                                Some(i) => {
                                    let h: Hit = hits[i];
                                    assert(hits@[i as int].sites <= head * 0x1_0000_0000_0000_0000
                                        + k);
                                    let ghost was = hits@;
                                    hits.set(i, Hit { sites: h.sites + 1, ..h });
                                    assert(hit_views(hits@) =~= hit(
                                        *defs,
                                        ps,
                                        t.hits,
                                        head as int,
                                        edges[k as int],
                                    ));
                                },
                                None => {
                                    let ghost was = hits@;
                                    hits.push(Hit { def: callee, from: head, at, sites: 1 });
                                    assert(hit_views(hits@) =~= hit(
                                        *defs,
                                        ps,
                                        t.hits,
                                        head as int,
                                        edges[k as int],
                                    ));
                                },
                            }
                        }
                        if defs.is_local(callee) && !find_place(&order, callee) {
                            let ghost was = order@;
                            order.push((callee, head));
                            assert(order_views(order@) =~= order_views(was).push(
                                (callee, head as int),
                            ));
                        }
                        k = k + 1;
                    }
                },
                None => {},
            }
            head = head + 1;
        }
        proof {
            lemma_search(*defs, calls, ps, root, head as nat);
            let s = search(*defs, calls, ps, root, head as nat);
            assert(s.order.len() == order@.len());
            lemma_order_bounded(*defs, calls, root, s.order, head as int);
            lemma_search_rests(*defs, calls, ps, root, head as nat, bound);
        }
        (order, hits)
    }

    /// What the lint says of the crate.
    pub fn check_crate_post(&self, defs: &Definitions) -> (r: Vec<Finding>)
        requires
            roots_valid(self@),
        ensures
            views(r@) == root_findings(*defs, self@, self@.roots.len() as int),
    {
        let mut out: Vec<Finding> = Vec::new();
        let mut i: usize = 0;
        assert(views(out@) =~= Seq::<FindingView>::empty());
        while i < self.roots.len()
            invariant
                i <= self.roots@.len(),
                roots_valid(self@),
                views(out@) == root_findings(*defs, self@, i as int),
            decreases self.roots.len() - i,
        {
            let root: Root = self.roots[i];
            assert(self@.roots[i as int].rule < self@.rules.len());
            let rule = &self.rules[root.rule];
            assert(self@.rules[root.rule as int] == rule@);
            let (order, hits) = self.run(defs, &rule.never, root.def);
            let ghost s = searched(*defs, self@.calls, rule@.never, root.def);
            let ghost start = views(out@);
            let ghost want = hit_findings(*defs, rule@, root, s);
            proof {
                lemma_searched(*defs, self@.calls, rule@.never, root.def);
                assert(s.order.len() == order@.len());
                assert(s.hits.len() == hits@.len());
                assert forall|h: int| 0 <= h < hits@.len() implies (#[trigger] hits@[h]).from
                    < order@.len() by {
                    assert(s.hits[h] == hits@[h]@);
                }
            }
            let mut k: usize = 0;
            assert(views(out@) =~= start + want.take(0));
            while k < hits.len()
                invariant
                    k <= hits@.len(),
                    s.hits == hit_views(hits@),
                    s.order == order_views(order@),
                    order@.len() > 0,
                    s.order[0].0 == root.def,
                    want == hit_findings(*defs, rule@, root, s),
                    forall|h: int|
                        0 <= h < hits@.len() ==> (#[trigger] hits@[h]).from < order@.len(),
                    views(out@) == start + want.take(k as int),
                decreases hits.len() - k,
            {
                let h: Hit = hits[k];
                let ghost x = s.hits[k as int];
                assert(x == h@);
                assert(order@[0].0 == s.order[0].0);
                assert(hits@[k as int].from < order@.len());
                let mut names: Vec<String> = if h.def == root.def {
                    Vec::new()
                } else {
                    write_path(defs, &order, h.from)
                };
                let ghost before = texts(names@);
                names.push(String::from_str(defs.path_of(h.def)));
                proof {
                    assert(texts(names@) =~= before.push(defs.path_text(h.def)));
                    if h.def == root.def {
                        assert(texts(names@) =~= path_texts(*defs, seq![h.def]));
                    } else {
                        assert(texts(names@) =~= path_texts(
                            *defs,
                            path_to(s.order, h.from as int).push(h.def),
                        ));
                    }
                    assert(texts(names@) == path_texts(*defs, witness(s.order, x)));
                }
                let mut msg = String::from_str("`");
                msg.append(defs.path_of(root.def));
                msg.append("` can reach `");
                msg.append(defs.path_of(h.def));
                msg.append("`, which the `forbidden-reach` config bans for it. Path: ");
                msg.append(join(&names, " -> ").as_str());
                msg.append(write_more(h.sites).as_str());
                let mut note = String::from_str("the last call in that path, to `");
                note.append(defs.path_of(h.def));
                note.append("`");
                let mut help = String::from_str(
                    "break the path (each arrow is a real call in this crate), or relax the `forbidden-reach` rule for `",
                );
                help.append(rule.from.as_str());
                help.append("` if the call is fine");
                emit_with_note(
                    &mut out,
                    Lint::ForbiddenReach,
                    root.span,
                    msg,
                    h.at,
                    note.as_str(),
                    help.as_str(),
                );
                assert(want.take(k + 1) =~= want.take(k as int).push(want[k as int]));
                k = k + 1;
                assert(views(out@) =~= start + want.take(k as int));
            }
            assert(want.take(k as int) =~= want);
            i = i + 1;
        }
        out
    }
}

proof fn lemma_key_kept(calls: Seq<(DefId, Vec<(DefId, Span)>)>, def: DefId)
    ensures
        crate::table::key_at(call_views(calls), def) == crate::table::key_at(calls, def),
        call_views(calls).len() == calls.len(),
{
    crate::table::lemma_key_at(calls, def);
    let i = crate::table::key_at(calls, def);
    let v = call_views(calls);
    assert forall|j: int| 0 <= j < i implies (#[trigger] v[j]).0 != def by {
        assert(calls[j].0 != def);
    }
    crate::table::lemma_key_at_is(v, def, i);
}

/// The expression is a call of the definition: of a function by its path, of
/// a method, or of an overloaded index.
pub open spec fn invokes(e: Expr, d: DefId) -> bool {
    match e.kind {
        ExprKind::Call(f, _) => f.kind matches ExprKind::Path(p) && (p.res
            matches crate::hir::Res::Def(_, x) && x == d),
        ExprKind::MethodCall(_, _, _) => e.method == Some(d),
        ExprKind::Index(_, _) => e.method == Some(d),
        _ => false,
    }
}

proof fn lemma_edge_listed(defs: Definitions, es: Seq<Expr>, i: int, d: DefId)
    requires
        0 <= i < es.len(),
        edge_of(defs, es[i]) == Some(d),
    ensures
        edges_in(defs, es).contains((d, es[i].span)),
    decreases es.len(),
{
    let before = edges_in(defs, es.drop_last());
    let all = edges_in(defs, es);
    if i == es.len() - 1 {
        assert(all[all.len() - 1] == (d, es[i].span));
    } else {
        assert(es.drop_last()[i] == es[i]);
        lemma_edge_listed(defs, es.drop_last(), i, d);
        let k = choose|k: int| 0 <= k < before.len() && before[k] == (d, es[i].span);
        assert(all[k] == (d, es[i].span));
    }
}

proof fn lemma_edges_recorded(calls: Calls, def: DefId, edges: Seq<(DefId, Span)>)
    ensures
        edges_of(put(calls, def, edges), def) == edges,
        forall|other: DefId|
            other != def ==> #[trigger] edges_of(put(calls, def, edges), other) == edges_of(
                calls,
                other,
            ),
{
    crate::table::lemma_put_and_get(calls, def, edges);
}

/// Every call written anywhere in a function, however deep and in whatever
/// closure, is an edge of that function, at the place of the call.
pub proof fn lemma_every_call_is_an_edge(
    defs: Definitions,
    s: ForbiddenView,
    def: DefId,
    span: Span,
    path: Seq<Expr>,
    d: DefId,
)
    requires
        s.rules.len() > 0,
        crate::hir::nested(path),
        invokes(path.last(), d),
    ensures
        edges_of(after_fn(defs, s, def, false, path[0], span).calls, def).contains(
            (d, path.last().span),
        ),
        calls_it(after_fn(defs, s, def, false, path[0], span).calls, def, d),
{
    let body = path[0];
    let e = path.last();
    crate::hir::lemma_walk_misses_nothing(path, true);
    let es = walk(body, true);
    let i = choose|i: int| 0 <= i < es.len() && es[i] == e;
    assert(edge_of(defs, e) == Some(d));
    lemma_edge_listed(defs, es, i, d);
    lemma_edges_recorded(s.calls, def, edges_in(defs, es));
    let edges = edges_in(defs, es);
    let m = choose|m: int| 0 <= m < edges.len() && edges[m] == (d, e.span);
    assert(edges_of(after_fn(defs, s, def, false, body, span).calls, def)[m].0 == d);
}

/// Built-in indexing anywhere in a function is an edge to the bounds check.
pub proof fn lemma_every_index_checks_bounds(
    defs: Definitions,
    s: ForbiddenView,
    def: DefId,
    span: Span,
    path: Seq<Expr>,
    check: DefId,
)
    requires
        s.rules.len() > 0,
        crate::hir::nested(path),
        path.last().kind is Index,
        path.last().method is None,
        defs.known(check) == Known::PanicBoundsCheck,
        forall|other: DefId|
            other.0 < check.0 ==> #[trigger] defs.known(other) != Known::PanicBoundsCheck,
    ensures
        edges_of(after_fn(defs, s, def, false, path[0], span).calls, def).contains(
            (check, path.last().span),
        ),
{
    let body = path[0];
    let e = path.last();
    crate::hir::lemma_walk_misses_nothing(path, true);
    let es = walk(body, true);
    let i = choose|i: int| 0 <= i < es.len() && es[i] == e;
    crate::defs::lemma_first_known(defs, Known::PanicBoundsCheck, check);
    assert(edge_of(defs, e) == Some(check));
    lemma_edge_listed(defs, es, i, check);
    lemma_edges_recorded(s.calls, def, edges_in(defs, es));
}

/// A pattern names a path that is it, or that ends in it behind a `::`, and
/// no other.
pub proof fn lemma_pattern_is_a_path_suffix(name: Seq<char>, pattern: Seq<char>)
    ensures
        pattern_names(name, pattern) <==> name == pattern || exists|head: Seq<char>|
            name == #[trigger] (head + ("::"@ + pattern)),
{
    crate::text::lemma_suffix(name, "::"@ + pattern);
}

/// A definition is banned by an entry that ends its path, with its crate's
/// name in front or without.
pub proof fn lemma_listed_suffix_bans(
    defs: Definitions,
    never: Seq<Seq<char>>,
    def: DefId,
    i: int,
    head: Seq<char>,
)
    requires
        0 <= i < never.len(),
        crate::hir_shapes::bracketless(defs.path_text(def)),
        crate::hir_shapes::no_empty_segment(defs.path_text(def)),
        ({
            let path = defs.path_text(def);
            let long = defs.crate_text(def) + "::"@ + path;
            path == never[i] || long == never[i] || path == head + ("::"@ + never[i]) || long
                == head + ("::"@ + never[i])
        }),
    ensures
        banned(defs, never, def),
{
    let path = defs.path_text(def);
    let long = defs.crate_text(def) + "::"@ + path;
    crate::hir_shapes::lemma_plain_path_kept(path);
    lemma_pattern_is_a_path_suffix(path, never[i]);
    lemma_pattern_is_a_path_suffix(long, never[i]);
    assert(def_named(defs, def, never[i]));
}

proof fn lemma_root_listed(
    defs: Definitions,
    rules: Seq<RuleView>,
    def: DefId,
    span: Span,
    k: int,
    i: int,
)
    requires
        0 <= i < k <= rules.len(),
        rules.len() <= usize::MAX,
        def_named(defs, def, rules[i].from),
    ensures
        roots_for(defs, rules, def, span, k).contains(Root { rule: i as usize, def, span }),
    decreases k,
{
    let all = roots_for(defs, rules, def, span, k);
    if i == k - 1 {
        assert(all[all.len() - 1] == (Root { rule: i as usize, def, span }));
    } else {
        lemma_root_listed(defs, rules, def, span, k - 1, i);
        let before = roots_for(defs, rules, def, span, k - 1);
        let j = choose|j: int|
            0 <= j < before.len() && before[j] == (Root { rule: i as usize, def, span });
        assert(all[j] == before[j]);
    }
}

/// A function whose path a rule names is a root of that rule from the moment
/// it is visited, and stays one.
pub proof fn lemma_named_function_is_a_root(
    defs: Definitions,
    s: ForbiddenView,
    def: DefId,
    body: Expr,
    span: Span,
    i: int,
)
    requires
        0 <= i < s.rules.len() <= usize::MAX,
        crate::hir_shapes::bracketless(defs.path_text(def)),
        crate::hir_shapes::no_empty_segment(defs.path_text(def)),
        defs.path_text(def) == s.rules[i].from || defs.crate_text(def) + "::"@ + defs.path_text(def)
            == s.rules[i].from,
    ensures
        after_fn(defs, s, def, false, body, span).roots.contains(
            Root { rule: i as usize, def, span },
        ),
        forall|r: Root|
            s.roots.contains(r) ==> #[trigger] after_fn(
                defs,
                s,
                def,
                false,
                body,
                span,
            ).roots.contains(r),
{
    crate::hir_shapes::lemma_plain_path_kept(defs.path_text(def));
    lemma_pattern_is_a_path_suffix(defs.path_text(def), s.rules[i].from);
    lemma_root_listed(defs, s.rules, def, span, s.rules.len() as int, i);
    let more = roots_for(defs, s.rules, def, span, s.rules.len() as int);
    let all = s.roots + more;
    let root = Root { rule: i as usize, def, span };
    let j = choose|j: int| 0 <= j < more.len() && more[j] == root;
    assert(all[s.roots.len() + j] == root);
    assert forall|r: Root| s.roots.contains(r) implies #[trigger] all.contains(r) by {
        let k = choose|k: int| 0 <= k < s.roots.len() && s.roots[k] == r;
        assert(all[k] == r);
    }
}

proof fn lemma_root_reported(defs: Definitions, s: ForbiddenView, k: int, r: int, h: int)
    requires
        0 <= r < k <= s.roots.len(),
        ({
            let rule = s.rules[s.roots[r].rule as int];
            0 <= h < searched(defs, s.calls, rule.never, s.roots[r].def).hits.len()
        }),
    ensures
        ({
            let rule = s.rules[s.roots[r].rule as int];
            let found = searched(defs, s.calls, rule.never, s.roots[r].def);
            root_findings(defs, s, k).contains(
                hit_finding(defs, rule, s.roots[r], found.order, found.hits[h]),
            )
        }),
    decreases k,
{
    let root = s.roots[k - 1];
    let rule = s.rules[root.rule as int];
    let before = root_findings(defs, s, k - 1);
    let here = searched(defs, s.calls, rule.never, root.def);
    let mine = hit_findings(defs, rule, root, here);
    let all = before + mine;
    if r == k - 1 {
        assert(all[before.len() + h] == mine[h]);
    } else {
        lemma_root_reported(defs, s, k - 1, r, h);
        let other = s.rules[s.roots[r].rule as int];
        let found = searched(defs, s.calls, other.never, s.roots[r].def);
        let f = hit_finding(defs, other, s.roots[r], found.order, found.hits[h]);
        let j = choose|j: int| 0 <= j < before.len() && before[j] == f;
        assert(all[j] == f);
    }
}

/// Whatever a root can reach that its rule bans is reported on the root, by
/// the name of the root and of what it reaches.
pub proof fn lemma_reached_ban_is_reported(
    defs: Definitions,
    s: ForbiddenView,
    r: int,
    path: Seq<DefId>,
)
    requires
        0 <= r < s.roots.len(),
        path.len() >= 2,
        is_call_path(s.calls, path),
        path[0] == s.roots[r].def,
        passes_local(defs, path, path.len() - 1),
        banned(defs, s.rules[s.roots[r].rule as int].never, path.last()),
    ensures
        exists|i: int|
            0 <= i < root_findings(defs, s, s.roots.len() as int).len() && ({
                let f = #[trigger] root_findings(defs, s, s.roots.len() as int)[i];
                f.lint == Lint::ForbiddenReach && f.at == s.roots[r].span
                    && crate::text::has_prefix(
                    f.message,
                    "`"@ + defs.path_text(s.roots[r].def) + "` can reach `"@ + defs.path_text(
                        path.last(),
                    ) + "`, which the `forbidden-reach` config bans for it. Path: "@,
                )
            }),
{
    let root = s.roots[r];
    let rule = s.rules[root.rule as int];
    lemma_shortest_path_found(defs, s.calls, rule.never, root.def, path);
    let found = searched(defs, s.calls, rule.never, root.def);
    let h = choose|h: int|
        0 <= h < found.hits.len() && (#[trigger] found.hits[h]).def == path.last() && witness(
            found.order,
            found.hits[h],
        ).len() <= path.len();
    lemma_root_reported(defs, s, s.roots.len() as int, r, h);
    let f = hit_finding(defs, rule, root, found.order, found.hits[h]);
    let all = root_findings(defs, s, s.roots.len() as int);
    let i = choose|i: int| 0 <= i < all.len() && all[i] == f;
    let start = "`"@ + defs.path_text(root.def) + "` can reach `"@ + defs.path_text(path.last())
        + "`, which the `forbidden-reach` config bans for it. Path: "@;
    let tail = joined(path_texts(defs, witness(found.order, found.hits[h])), " -> "@) + more_text(
        found.hits[h].sites,
    );
    assert(f.message =~= start + tail);
    crate::text::lemma_prefix(f.message, start);
    assert(all[i] == f);
}

/// What no entry ends, with the crate's name or without, is not banned.
pub proof fn lemma_unlisted_is_not_banned(defs: Definitions, never: Seq<Seq<char>>, def: DefId)
    requires
        crate::hir_shapes::bracketless(defs.path_text(def)),
        crate::hir_shapes::no_empty_segment(defs.path_text(def)),
        forall|i: int, head: Seq<char>|
            0 <= i < never.len() ==> ({
                let path = defs.path_text(def);
                let long = defs.crate_text(def) + "::"@ + path;
                path != never[i] && long != never[i] && path != #[trigger] (head + ("::"@
                    + never[i])) && long != head + ("::"@ + never[i])
            }),
    ensures
        !banned(defs, never, def),
{
    let path = defs.path_text(def);
    let long = defs.crate_text(def) + "::"@ + path;
    crate::hir_shapes::lemma_plain_path_kept(path);
    if banned(defs, never, def) {
        let i = choose|i: int| 0 <= i < never.len() && def_named(defs, def, #[trigger] never[i]);
        lemma_pattern_is_a_path_suffix(path, never[i]);
        lemma_pattern_is_a_path_suffix(long, never[i]);
        let none = Seq::<char>::empty();
        assert(path != none + ("::"@ + never[i]));
        if pattern_names(path, never[i]) {
            let head = choose|head: Seq<char>| path == #[trigger] (head + ("::"@ + never[i]));
        } else {
            let head = choose|head: Seq<char>| long == #[trigger] (head + ("::"@ + never[i]));
            assert(path != head + ("::"@ + never[i]));
        }
    }
}

/// A finding tells how many other sites reach the same thing, and says nothing
/// where there are none.
pub proof fn lemma_other_sites_are_counted(sites: nat)
    ensures
        sites <= 1 ==> more_text(sites).len() == 0,
        sites == 2 ==> more_text(sites) == " (1 more call site reaches it)"@,
        sites > 2 ==> more_text(sites) == " ("@ + decimal((sites - 1) as nat)
            + " more call sites reach it)"@,
{
    reveal_strlit("");
}

} // verus!
