//! Bool fields that are never assigned separately: every write to one sits in
//! the same block as a write to the other, across at least two functions.
//!
//! One lone write to either field anywhere disproves the pairing.

use crate::adt_facts::{private_local_struct, private_struct_behind, struct_field, struct_field_at};
use crate::defs::{Definitions, FieldDef};
use crate::groups::{
    collect_structs, group_fields, group_views, groups_of, lemma_group_is_never_apart, never_apart,
    structs_written, Group, Write,
};
use crate::hir::{block_around, enclosing_block, Expr, ExprKind, Parent};
use crate::hir_shapes::{assigned_field, written_field};
use crate::ids::{DefId, HirId, Symbol};
use crate::report::{emit, finding, list_names, listed_names, views, Finding, FindingView, Lint};
use crate::table::{add_new, with_added};
use crate::text::{decimal, number, texts};
use crate::ty::Ty;
use vstd::prelude::*;
use vstd::string::*;

verus! {

/// A body and a block in it.
pub type BlockSite = (DefId, HirId);

#[derive(Debug)]
pub struct ParallelBools {
    /// The struct and field assigned, and where.
    pub writes: Vec<Write<BlockSite>>,
}

/// How many of the fields are bools.
pub open spec fn bool_count(fields: Seq<FieldDef>) -> nat
    decreases fields.len(),
{
    if fields.len() == 0 {
        0
    } else {
        bool_count(fields.drop_last()) + if fields.last().ty is Bool {
            1nat
        } else {
            0nat
        }
    }
}

/// The private local struct behind the type, if it has two bool fields.
pub open spec fn with_two_bools(defs: Definitions, ty: Ty) -> Option<DefId> {
    match private_struct_behind(defs, ty) {
        Some(did) => if bool_count(defs.fields(did)) >= 2 {
            Some(did)
        } else {
            None
        },
        None => None,
    }
}

fn relevant_struct(defs: &Definitions, ty: &Ty) -> (r: Option<DefId>)
    ensures
        r == with_two_bools(*defs, *ty),
{
    let did = match private_local_struct(defs, ty) {
        Some(d) => d,
        None => {
            return None;
        },
    };
    match defs.fields_of(did) {
        Some(fields) => {
            let ghost fs = fields@;
            let mut n: usize = 0;
            let mut i: usize = 0;
            while i < fields.len()
                invariant
                    i <= fields@.len(),
                    fs == fields@,
                    n <= i,
                    n == bool_count(fs.take(i as int)),
                decreases fields.len() - i,
            {
                assert(fs.take(i + 1).drop_last() =~= fs.take(i as int));
                if fields[i].ty.is_bool() {
                    n = n + 1;
                }
                i = i + 1;
            }
            assert(fs.take(i as int) =~= fs);
            if n >= 2 {
                Some(did)
            } else {
                None
            }
        },
        None => None,
    }
}

/// The bool field of such a struct that a place is, through any `Deref`
/// container.
pub open spec fn flag_at(defs: Definitions, target: Expr) -> Option<(DefId, Symbol)> {
    match written_field(target) {
        Some((base, name)) => match with_two_bools(defs, base.adjusted) {
            Some(did) => if struct_field_at(defs, did, name) matches Some(f) && f.ty is Bool {
                Some((did, name))
            } else {
                None
            },
            None => None,
        },
        None => None,
    }
}

/// The writes seen once an expression in `owner` has been visited.
pub open spec fn after_expr(
    defs: Definitions,
    ws: Seq<Write<BlockSite>>,
    owner: DefId,
    e: Expr,
    parents: Seq<Parent>,
) -> Seq<Write<BlockSite>> {
    let target = match e.kind {
        ExprKind::Assign(t, _) => Some(*t),
        ExprKind::AssignOp(t, _) => Some(*t),
        _ => None,
    };
    match target {
        Some(t) => match (flag_at(defs, t), enclosing_block(parents)) {
            (Some(f), Some(block)) => ws.push((f, (owner, block))),
            _ => ws,
        },
        None => ws,
    }
}

/// The bodies of the first `k` sites, each once.
pub open spec fn bodies(sites: Seq<BlockSite>, k: int) -> Seq<DefId>
    decreases k,
{
    if k <= 0 {
        Seq::empty()
    } else {
        with_added(bodies(sites, k - 1), sites[k - 1].0)
    }
}

/// Two fields, two sites, two functions.
pub open spec fn in_parallel(g: Group<BlockSite>) -> bool {
    g.members.len() >= 2 && g.sites.len() >= 2 && bodies(g.sites, g.sites.len() as int).len() >= 2
}

pub open spec fn symbol_texts(defs: Definitions, s: Seq<Symbol>) -> Seq<Seq<char>> {
    s.map_values(|x: Symbol| defs.text(x))
}

pub fn texts_of_symbols(defs: &Definitions, s: &Vec<Symbol>) -> (r: Vec<String>)
    ensures
        texts(r@) == symbol_texts(*defs, s@),
{
    let ghost want = symbol_texts(*defs, s@);
    let mut out: Vec<String> = Vec::new();
    let mut i: usize = 0;
    while i < s.len()
        invariant
            i <= s@.len(),
            want == symbol_texts(*defs, s@),
            texts(out@) == want.take(i as int),
        decreases s.len() - i,
    {
        let ghost before = out@;
        out.push(String::from_str(defs.text_of(s[i])));
        assert(texts(out@) =~= texts(before).push(want[i as int]));
        i = i + 1;
        assert(texts(out@) =~= want.take(i as int));
    }
    assert(texts(out@) =~= want);
    out
}

pub open spec fn group_finding(
    defs: Definitions,
    did: DefId,
    g: Group<BlockSite>,
) -> FindingView {
    finding(
        Lint::ParallelBools,
        defs.span(did),
        "the bool fields "@ + listed_names(symbol_texts(defs, g.members)) + " of `"@
            + defs.path_text(did) + "` are only ever assigned together ("@ + decimal(g.sites.len())
            + " sites in "@ + decimal(bodies(g.sites, g.sites.len() as int).len())
            + " functions)"@,
        "together these fields encode one state; an enum makes the unpaired combinations unrepresentable"@,
    )
}

/// What is said of the first `k` groups of a struct.
pub open spec fn group_findings(
    defs: Definitions,
    did: DefId,
    gs: Seq<Group<BlockSite>>,
    k: int,
) -> Seq<FindingView>
    decreases k,
{
    if k <= 0 {
        Seq::empty()
    } else {
        let before = group_findings(defs, did, gs, k - 1);
        if in_parallel(gs[k - 1]) {
            before.push(group_finding(defs, did, gs[k - 1]))
        } else {
            before
        }
    }
}

/// What is said of the first `k` structs.
pub open spec fn struct_findings(
    defs: Definitions,
    ws: Seq<Write<BlockSite>>,
    structs: Seq<DefId>,
    k: int,
) -> Seq<FindingView>
    decreases k,
{
    if k <= 0 {
        Seq::empty()
    } else {
        let gs = groups_of(defs, ws, structs[k - 1]);
        struct_findings(defs, ws, structs, k - 1) + group_findings(
            defs,
            structs[k - 1],
            gs,
            gs.len() as int,
        )
    }
}

/// What the lint says of the crate.
pub open spec fn parallel_findings(defs: Definitions, ws: Seq<Write<BlockSite>>) -> Seq<
    FindingView,
> {
    let structs = structs_written(ws, ws.len() as int);
    struct_findings(defs, ws, structs, structs.len() as int)
}

fn collect_bodies(sites: &Vec<BlockSite>) -> (r: Vec<DefId>)
    ensures
        r@ == bodies(sites@, sites@.len() as int),
{
    let mut out: Vec<DefId> = Vec::new();
    let mut i: usize = 0;
    while i < sites.len()
        invariant
            i <= sites@.len(),
            out@ == bodies(sites@, i as int),
        decreases sites.len() - i,
    {
        add_new(&mut out, sites[i].0);
        i = i + 1;
    }
    out
}

impl ParallelBools {
    pub fn new() -> (r: Self)
        ensures
            r.writes@.len() == 0,
    {
        ParallelBools { writes: Vec::new() }
    }

    /// Visits an expression in `owner`.
    pub fn check_expr(
        &mut self,
        defs: &Definitions,
        owner: DefId,
        e: &Expr,
        parents: &Vec<Parent>,
    )
        ensures
            final(self).writes@ == after_expr(*defs, old(self).writes@, owner, *e, parents@),
    {
        let target = match &e.kind {
            ExprKind::Assign(t, _) => t,
            ExprKind::AssignOp(t, _) => t,
            _ => {
                return;
            },
        };
        let (base, name) = match assigned_field(target) {
            Some(p) => p,
            None => {
                return;
            },
        };
        let did = match relevant_struct(defs, &base.adjusted) {
            Some(d) => d,
            None => {
                return;
            },
        };
        let is_flag = match struct_field(defs, did, name) {
            Some(f) => f.ty.is_bool(),
            None => false,
        };
        if !is_flag {
            return;
        }
        match block_around(parents) {
            Some(block) => {
                self.writes.push(((did, name), (owner, block)));
            },
            None => {},
        }
    }

    /// What the lint says of the crate.
    pub fn check_crate_post(&self, defs: &Definitions) -> (r: Vec<Finding>)
        ensures
            views(r@) == parallel_findings(*defs, self.writes@),
    {
        let structs = collect_structs(&self.writes);
        let mut out: Vec<Finding> = Vec::new();
        let mut i: usize = 0;
        assert(views(out@) =~= Seq::<FindingView>::empty());
        while i < structs.len()
            invariant
                i <= structs@.len(),
                views(out@) == struct_findings(*defs, self.writes@, structs@, i as int),
            decreases structs.len() - i,
        {
            let did = structs[i];
            let gs = group_fields(defs, &self.writes, did);
            let ghost all = groups_of(*defs, self.writes@, did);
            let ghost start = views(out@);
            let mut k: usize = 0;
            assert(views(out@) =~= start + group_findings(*defs, did, all, 0));
            while k < gs.len()
                invariant
                    k <= gs@.len(),
                    group_views(gs@) == all,
                    views(out@) == start + group_findings(*defs, did, all, k as int),
                decreases gs.len() - k,
            {
                let g = &gs[k];
                assert(all[k as int] == g@);
                let in_bodies = collect_bodies(&g.sites);
                if g.members.len() >= 2 && g.sites.len() >= 2 && in_bodies.len() >= 2 {
                    let names = texts_of_symbols(defs, &g.members);
                    let mut msg = String::from_str("the bool fields ");
                    msg.append(list_names(&names).as_str());
                    msg.append(" of `");
                    msg.append(defs.path_of(did));
                    msg.append("` are only ever assigned together (");
                    msg.append(number(g.sites.len() as u128).as_str());
                    msg.append(" sites in ");
                    msg.append(number(in_bodies.len() as u128).as_str());
                    msg.append(" functions)");
                    emit(
                        &mut out,
                        Lint::ParallelBools,
                        defs.span_of(did),
                        msg,
                        "together these fields encode one state; an enum makes the unpaired combinations unrepresentable",
                    );
                }
                k = k + 1;
                assert(views(out@) =~= start + group_findings(*defs, did, all, k as int));
            }
            assert(all.len() == gs@.len());
            i = i + 1;
        }
        out
    }
}

/// The finding is of fields that are never assigned apart.
pub open spec fn reported_pair(
    defs: Definitions,
    ws: Seq<Write<BlockSite>>,
    did: DefId,
    g: Group<BlockSite>,
    f: FindingView,
) -> bool {
    never_apart(ws, did, g.members) && in_parallel(g) && f == group_finding(defs, did, g)
}

proof fn lemma_group_reported(
    defs: Definitions,
    ws: Seq<Write<BlockSite>>,
    did: DefId,
    gs: Seq<Group<BlockSite>>,
    k: int,
    f: FindingView,
)
    requires
        gs == groups_of(defs, ws, did),
        0 <= k <= gs.len(),
        group_findings(defs, did, gs, k).contains(f),
    ensures
        exists|g: Group<BlockSite>| #[trigger] reported_pair(defs, ws, did, g, f),
    decreases k,
{
    if k > 0 {
        let all = group_findings(defs, did, gs, k);
        let before = group_findings(defs, did, gs, k - 1);
        let i = choose|i: int| 0 <= i < all.len() && all[i] == f;
        if i < before.len() {
            assert(before[i] == f);
            assert(before.contains(f));
            lemma_group_reported(defs, ws, did, gs, k - 1, f);
        } else {
            let g = gs[k - 1];
            assert(gs.contains(g));
            lemma_group_is_never_apart(defs, ws, did, g);
            assert(reported_pair(defs, ws, did, g, f));
        }
    }
}

proof fn lemma_struct_reported(
    defs: Definitions,
    ws: Seq<Write<BlockSite>>,
    structs: Seq<DefId>,
    k: int,
    f: FindingView,
)
    requires
        struct_findings(defs, ws, structs, k).contains(f),
    ensures
        exists|did: DefId, g: Group<BlockSite>| #[trigger] reported_pair(defs, ws, did, g, f),
    decreases k,
{
    if k > 0 {
        let before = struct_findings(defs, ws, structs, k - 1);
        let did = structs[k - 1];
        let gs = groups_of(defs, ws, did);
        let here = group_findings(defs, did, gs, gs.len() as int);
        let all = before + here;
        let i = choose|i: int| 0 <= i < all.len() && all[i] == f;
        if i < before.len() {
            assert(before[i] == f);
            assert(before.contains(f));
            lemma_struct_reported(defs, ws, structs, k - 1, f);
        } else {
            assert(here[i - before.len()] == f);
            assert(here.contains(f));
            lemma_group_reported(defs, ws, did, gs, gs.len() as int, f);
        }
    }
}

/// If even one lone write to a field exists, the lint stays silent about it:
/// every finding is of fields that no site in the crate assigns separately, at
/// two sites or more in two functions or more.
pub proof fn lemma_reported_flags_are_never_apart(
    defs: Definitions,
    ws: Seq<Write<BlockSite>>,
    f: FindingView,
)
    requires
        parallel_findings(defs, ws).contains(f),
    ensures
        exists|did: DefId, g: Group<BlockSite>| #[trigger] reported_pair(defs, ws, did, g, f),
{
    let structs = structs_written(ws, ws.len() as int);
    lemma_struct_reported(defs, ws, structs, structs.len() as int, f);
}

/// How often a flag is among the fields: at least twice where two positions
/// hold one.
proof fn lemma_two_flags(fields: Seq<FieldDef>)
    ensures
        bool_count(fields) >= 1 <==> exists|i: int|
            0 <= i < fields.len() && (#[trigger] fields[i]).ty is Bool,
        bool_count(fields) >= 2 <==> exists|i: int, j: int|
            0 <= i < j < fields.len() && (#[trigger] fields[i]).ty is Bool && (
            #[trigger] fields[j]).ty is Bool,
    decreases fields.len(),
{
    if fields.len() > 0 {
        let front = fields.drop_last();
        lemma_two_flags(front);
        let n = fields.len() - 1;
        assert(fields[n] == fields.last());
        if bool_count(front) >= 1 {
            let i = choose|i: int| 0 <= i < front.len() && (#[trigger] front[i]).ty is Bool;
            assert(fields[i].ty is Bool);
            if fields.last().ty is Bool {
                assert(fields[i].ty is Bool && fields[n].ty is Bool);
            }
        }
        if bool_count(front) >= 2 {
            let (i, j) = choose|i: int, j: int|
                0 <= i < j < front.len() && (#[trigger] front[i]).ty is Bool && (
                #[trigger] front[j]).ty is Bool;
            assert(fields[i].ty is Bool && fields[j].ty is Bool);
        }
        if exists|i: int| 0 <= i < fields.len() && (#[trigger] fields[i]).ty is Bool {
            let i = choose|i: int| 0 <= i < fields.len() && (#[trigger] fields[i]).ty is Bool;
            if i < n {
                assert(front[i].ty is Bool);
            }
        }
        if exists|i: int, j: int|
            0 <= i < j < fields.len() && (#[trigger] fields[i]).ty is Bool && (
            #[trigger] fields[j]).ty is Bool {
            let (i, j) = choose|i: int, j: int|
                0 <= i < j < fields.len() && (#[trigger] fields[i]).ty is Bool && (
                #[trigger] fields[j]).ty is Bool;
            assert(front[i].ty is Bool);
            if j < n {
                assert(front[j].ty is Bool);
            }
        }
    }
}

/// An assignment to one of several flags of a private struct of the crate is
/// on record, with the function and the block it stands in.
pub proof fn lemma_flag_write_is_recorded(
    defs: Definitions,
    ws: Seq<Write<BlockSite>>,
    owner: DefId,
    e: Expr,
    place: Expr,
    base: Expr,
    name: Symbol,
    did: DefId,
    parents: Seq<Parent>,
    block: HirId,
    i: int,
    j: int,
)
    requires
        place.kind == ExprKind::Field(Box::new(base), name),
        crate::ty::peeled(base.adjusted) matches Ty::Adt(d, _) && d == did,
        defs.at(did) matches Some(d) && d.is_local && !d.is_exported && (d.adt matches Some(a)
            && a.kind == crate::defs::AdtKind::Struct),
        0 <= i < j < defs.fields(did).len(),
        defs.fields(did)[i].ty is Bool,
        defs.fields(did)[j].ty is Bool,
        struct_field_at(defs, did, name) matches Some(f) && f.ty is Bool,
        enclosing_block(parents) == Some(block),
    ensures
        (e.kind matches ExprKind::Assign(t, _) && *t == place) || (e.kind matches ExprKind::AssignOp(
            t,
            _,
        ) && *t == place) ==> after_expr(defs, ws, owner, e, parents) == ws.push(
            ((did, name), (owner, block)),
        ),
        !(e.kind is Assign) && !(e.kind is AssignOp) ==> after_expr(defs, ws, owner, e, parents)
            == ws,
{
    lemma_two_flags(defs.fields(did));
    crate::hir_shapes::lemma_write_reaches_the_field(place, place, base, name);
    crate::adt_facts::lemma_private_struct(defs, base.adjusted, did, defs.at(did)->Some_0);
}

proof fn lemma_body_listed(sites: Seq<BlockSite>, k: int, i: int)
    requires
        0 <= i < k <= sites.len(),
    ensures
        bodies(sites, k).contains(sites[i].0),
    decreases k,
{
    crate::table::lemma_added(bodies(sites, k - 1), sites[k - 1].0);
    if i < k - 1 {
        lemma_body_listed(sites, k - 1, i);
    }
}

proof fn lemma_group_said(defs: Definitions, did: DefId, gs: Seq<Group<BlockSite>>, k: int, m: int)
    requires
        0 <= m < k <= gs.len(),
        in_parallel(gs[m]),
    ensures
        group_findings(defs, did, gs, k).contains(group_finding(defs, did, gs[m])),
    decreases k,
{
    let x = group_finding(defs, did, gs[m]);
    let all = group_findings(defs, did, gs, k);
    let before = group_findings(defs, did, gs, k - 1);
    if m == k - 1 {
        assert(all[all.len() - 1] == x);
    } else {
        lemma_group_said(defs, did, gs, k - 1, m);
        let i = choose|i: int| 0 <= i < before.len() && before[i] == x;
        assert(all[i] == x);
    }
}

proof fn lemma_struct_said(
    defs: Definitions,
    ws: Seq<Write<BlockSite>>,
    structs: Seq<DefId>,
    k: int,
    m: int,
    x: FindingView,
)
    requires
        0 <= m < k <= structs.len(),
        ({
            let gs = groups_of(defs, ws, structs[m]);
            group_findings(defs, structs[m], gs, gs.len() as int).contains(x)
        }),
    ensures
        struct_findings(defs, ws, structs, k).contains(x),
    decreases k,
{
    let before = struct_findings(defs, ws, structs, k - 1);
    let gs = groups_of(defs, ws, structs[k - 1]);
    let last = group_findings(defs, structs[k - 1], gs, gs.len() as int);
    let all = struct_findings(defs, ws, structs, k);
    assert(all == before + last);
    if m == k - 1 {
        let i = choose|i: int| 0 <= i < last.len() && last[i] == x;
        assert(all[before.len() + i] == x);
    } else {
        lemma_struct_said(defs, ws, structs, k - 1, m, x);
        let i = choose|i: int| 0 <= i < before.len() && before[i] == x;
        assert(all[i] == x);
    }
}

/// Two flags that are only ever assigned in the same blocks, by two functions
/// or more, are reported at their struct.
pub proof fn lemma_flags_assigned_together_are_reported(
    defs: Definitions,
    ws: Seq<Write<BlockSite>>,
    did: DefId,
    a: Symbol,
    b: Symbol,
    here: BlockSite,
    there: BlockSite,
)
    requires
        a != b,
        here.0 != there.0,
        ws.contains(((did, a), here)),
        ws.contains(((did, a), there)),
        forall|s: BlockSite| ws.contains(((did, a), s)) <==> #[trigger] ws.contains(((did, b), s)),
    ensures
        exists|i: int|
            0 <= i < parallel_findings(defs, ws).len() && (#[trigger] parallel_findings(
                defs,
                ws,
            )[i]).at == defs.span(did) && parallel_findings(defs, ws)[i].lint
                == Lint::ParallelBools,
{
    assert(ws.contains(((did, b), here)));
    let g = crate::groups::lemma_paired_fields_meet(
        defs,
        ws,
        did,
        ((did, a), here),
        ((did, b), here),
    );
    crate::groups::lemma_two_members(g.members, a, b);
    crate::groups::lemma_sites_of_group(defs, ws, did, g, a, here);
    crate::groups::lemma_sites_of_group(defs, ws, did, g, a, there);
    crate::groups::lemma_two_members(g.sites, here, there);
    let n = g.sites.len() as int;
    let p = choose|i: int| 0 <= i < n && g.sites[i] == here;
    let q = choose|i: int| 0 <= i < n && g.sites[i] == there;
    lemma_body_listed(g.sites, n, p);
    lemma_body_listed(g.sites, n, q);
    crate::groups::lemma_two_members(bodies(g.sites, n), here.0, there.0);
    let gs = groups_of(defs, ws, did);
    let m = choose|m: int| 0 <= m < gs.len() && gs[m] == g;
    lemma_group_said(defs, did, gs, gs.len() as int, m);
    let structs = structs_written(ws, ws.len() as int);
    let w = choose|i: int| 0 <= i < ws.len() && ws[i] == ((did, a), here);
    crate::groups::lemma_struct_is_written(ws, ws.len() as int, w);
    let t = choose|t: int| 0 <= t < structs.len() && structs[t] == did;
    let x = group_finding(defs, did, g);
    lemma_struct_said(defs, ws, structs, structs.len() as int, t, x);
    let i = choose|i: int|
        0 <= i < parallel_findings(defs, ws).len() && parallel_findings(defs, ws)[i] == x;
    assert(parallel_findings(defs, ws)[i].lint == Lint::ParallelBools);
}

/// Flags that a single function assigns are no pattern.
pub proof fn lemma_one_function_is_quiet(sites: Seq<BlockSite>, k: int, owner: DefId)
    requires
        0 <= k <= sites.len(),
        forall|i: int| 0 <= i < sites.len() ==> (#[trigger] sites[i]).0 == owner,
    ensures
        bodies(sites, k).len() <= 1,
        forall|i: int| 0 <= i < bodies(sites, k).len() ==> #[trigger] bodies(sites, k)[i] == owner,
        !in_parallel(Group { members: Seq::empty(), sites }),
    decreases k,
{
    if k > 0 {
        lemma_one_function_is_quiet(sites, k - 1, owner);
        let before = bodies(sites, k - 1);
        assert(sites[k - 1].0 == owner);
        if before.len() > 0 {
            assert(before[0] == owner);
            assert(before.contains(owner));
        }
    }
}

/// A write to a field that is no flag, to a struct with one flag or that is
/// exported, or outside any block, is on no record.
pub proof fn lemma_other_writes_are_let_be(
    defs: Definitions,
    ws: Seq<Write<BlockSite>>,
    owner: DefId,
    e: Expr,
    place: Expr,
    base: Expr,
    name: Symbol,
    did: DefId,
    parents: Seq<Parent>,
)
    requires
        e.kind matches ExprKind::Assign(t, _) && *t == place,
        place.kind == ExprKind::Field(Box::new(base), name),
        crate::ty::peeled(base.adjusted) matches Ty::Adt(d, _) && d == did,
    ensures
        (struct_field_at(defs, did, name) matches Some(f) && !(f.ty is Bool)) ==> after_expr(
            defs,
            ws,
            owner,
            e,
            parents,
        ) == ws,
        defs.exported(did) || !defs.local(did) || !defs.is_struct(did) ==> after_expr(
            defs,
            ws,
            owner,
            e,
            parents,
        ) == ws,
        bool_count(defs.fields(did)) < 2 ==> after_expr(defs, ws, owner, e, parents) == ws,
        enclosing_block(parents) is None ==> after_expr(defs, ws, owner, e, parents) == ws,
{
    crate::hir_shapes::lemma_write_reaches_the_field(place, place, base, name);
}

} // verus!
