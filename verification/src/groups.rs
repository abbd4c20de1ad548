//! The fields of a struct grouped by the sites that write them.

use crate::defs::Definitions;
use crate::ids::{DefId, Symbol};
use crate::ordered::{lemma_in_order_ascends, texts_ascend};
use crate::report::{in_order, text_at_most, text_le, text_slot};
use crate::table::{add_new, is_in, lemma_added, with_added, Same};
use vstd::prelude::*;

verus! {

/// A write: the struct, the field, and the site.
pub type Write<S> = ((DefId, Symbol), S);

/// The sites that write the field, each once.
pub open spec fn sites_of<S>(ws: Seq<Write<S>>, did: DefId, field: Symbol) -> Seq<S>
    decreases ws.len(),
{
    if ws.len() == 0 {
        Seq::empty()
    } else {
        let before = sites_of(ws.drop_last(), did, field);
        if ws.last().0 == (did, field) {
            with_added(before, ws.last().1)
        } else {
            before
        }
    }
}

/// Two lists hold the same sites.
pub open spec fn same_sites<S>(a: Seq<S>, b: Seq<S>) -> bool {
    (forall|i: int| 0 <= i < a.len() ==> b.contains(#[trigger] a[i])) && (forall|i: int|
        0 <= i < b.len() ==> a.contains(#[trigger] b[i]))
}

/// The struct's fields that the first `k` writes write, each once.
pub open spec fn fields_written<S>(ws: Seq<Write<S>>, did: DefId, k: int) -> Seq<Symbol>
    decreases k,
{
    if k <= 0 {
        Seq::empty()
    } else if ws[k - 1].0.0 == did {
        with_added(fields_written(ws, did, k - 1), ws[k - 1].0.1)
    } else {
        fields_written(ws, did, k - 1)
    }
}

/// The structs the first `k` writes write to, each once.
pub open spec fn structs_written<S>(ws: Seq<Write<S>>, k: int) -> Seq<DefId>
    decreases k,
{
    if k <= 0 {
        Seq::empty()
    } else {
        with_added(structs_written(ws, k - 1), ws[k - 1].0.0)
    }
}

/// Where a name goes among names in order: behind those it does not precede.
pub open spec fn name_slot(defs: Definitions, s: Seq<Symbol>, x: Symbol) -> int
    decreases s.len(),
{
    if s.len() == 0 {
        0
    } else if text_le(defs.text(s.last()), defs.text(x)) {
        s.len() as int
    } else {
        name_slot(defs, s.drop_last(), x)
    }
}

/// The names in alphabetical order.
pub open spec fn by_name(defs: Definitions, s: Seq<Symbol>) -> Seq<Symbol>
    decreases s.len(),
{
    if s.len() == 0 {
        Seq::empty()
    } else {
        let rest = by_name(defs, s.drop_last());
        rest.insert(name_slot(defs, rest, s.last()), s.last())
    }
}

proof fn lemma_name_slot(defs: Definitions, s: Seq<Symbol>, x: Symbol)
    ensures
        name_slot(defs, s, x) == text_slot(s.map_values(|y: Symbol| defs.text(y)), defs.text(x)),
        0 <= name_slot(defs, s, x) <= s.len(),
    decreases s.len(),
{
    let f = |y: Symbol| defs.text(y);
    if s.len() > 0 {
        lemma_name_slot(defs, s.drop_last(), x);
        assert(s.map_values(f).drop_last() =~= s.drop_last().map_values(f));
    }
}

/// Names in order are the same names, as often each, and their texts ascend.
pub proof fn lemma_by_name(defs: Definitions, s: Seq<Symbol>)
    ensures
        by_name(defs, s).to_multiset() == s.to_multiset(),
        texts_ascend(by_name(defs, s).map_values(|y: Symbol| defs.text(y))),
{
    lemma_by_name_same(defs, s);
    lemma_by_name_texts(defs, s);
    lemma_in_order_ascends(s.map_values(|y: Symbol| defs.text(y)));
}

proof fn lemma_by_name_same(defs: Definitions, s: Seq<Symbol>)
    ensures
        by_name(defs, s).to_multiset() == s.to_multiset(),
    decreases s.len(),
{
    if s.len() > 0 {
        let rest = by_name(defs, s.drop_last());
        let x = s.last();
        lemma_by_name_same(defs, s.drop_last());
        lemma_name_slot(defs, rest, x);
        vstd::seq_lib::to_multiset_insert(rest, name_slot(defs, rest, x), x);
        vstd::seq_lib::to_multiset_build(s.drop_last(), x);
        assert(s =~= s.drop_last().push(x));
    } else {
        assert(by_name(defs, s) =~= s);
    }
}

proof fn lemma_by_name_texts(defs: Definitions, s: Seq<Symbol>)
    ensures
        by_name(defs, s).map_values(|y: Symbol| defs.text(y)) == in_order(
            s.map_values(|y: Symbol| defs.text(y)),
        ),
    decreases s.len(),
{
    let f = |y: Symbol| defs.text(y);
    if s.len() > 0 {
        let rest = by_name(defs, s.drop_last());
        let x = s.last();
        lemma_by_name_texts(defs, s.drop_last());
        lemma_name_slot(defs, rest, x);
        assert(s.map_values(f).drop_last() =~= s.drop_last().map_values(f));
        let k = name_slot(defs, rest, x);
        assert(rest.insert(k, x).map_values(f) =~= rest.map_values(f).insert(k, defs.text(x)));
    } else {
        assert(by_name(defs, s).map_values(f) =~= in_order(s.map_values(f)));
    }
}

pub fn sort_by_name(defs: &Definitions, v: &Vec<Symbol>) -> (r: Vec<Symbol>)
    ensures
        r@ == by_name(*defs, v@),
{
    let mut out: Vec<Symbol> = Vec::new();
    let mut i: usize = 0;
    assert(out@ =~= by_name(*defs, v@.take(0)));
    while i < v.len()
        invariant
            i <= v@.len(),
            out@ == by_name(*defs, v@.take(i as int)),
        decreases v.len() - i,
    {
        assert(v@.take(i + 1).drop_last() =~= v@.take(i as int));
        let x: Symbol = v[i];
        let mut at: usize = out.len();
        assert(out@.take(at as int) =~= out@);
        while at > 0 && !text_at_most(defs.text_of(out[at - 1]), defs.text_of(x))
            invariant
                at <= out@.len(),
                name_slot(*defs, out@, x) == name_slot(*defs, out@.take(at as int), x),
            decreases at,
        {
            assert(out@.take(at as int).drop_last() =~= out@.take(at - 1));
            at = at - 1;
        }
        assert(name_slot(*defs, out@, x) == at);
        out.insert(at, x);
        i = i + 1;
    }
    assert(v@.take(i as int) =~= v@);
    out
}

/// Those of the first `k` fields that the same sites write.
pub open spec fn members<S>(
    ws: Seq<Write<S>>,
    did: DefId,
    fields: Seq<Symbol>,
    sites: Seq<S>,
    k: int,
) -> Seq<Symbol>
    decreases k,
{
    if k <= 0 {
        Seq::empty()
    } else {
        let before = members(ws, did, fields, sites, k - 1);
        if same_sites(sites, sites_of(ws, did, fields[k - 1])) {
            before.push(fields[k - 1])
        } else {
            before
        }
    }
}

/// Some field before the `k`th is written by the same sites.
pub open spec fn led<S>(ws: Seq<Write<S>>, did: DefId, fields: Seq<Symbol>, k: int) -> bool {
    exists|j: int|
        0 <= j < k && same_sites(
            sites_of(ws, did, #[trigger] fields[j]),
            sites_of(ws, did, fields[k]),
        )
}

/// Fields that the same sites write, and the sites.
pub struct Group<S> {
    pub members: Seq<Symbol>,
    pub sites: Seq<S>,
}

/// The groups the first `k` fields lead.
pub open spec fn groups_led<S>(
    ws: Seq<Write<S>>,
    did: DefId,
    fields: Seq<Symbol>,
    k: int,
) -> Seq<Group<S>>
    decreases k,
{
    if k <= 0 {
        Seq::empty()
    } else {
        let before = groups_led(ws, did, fields, k - 1);
        if led(ws, did, fields, k - 1) {
            before
        } else {
            let sites = sites_of(ws, did, fields[k - 1]);
            before.push(
                Group {
                    members: members(ws, did, fields, sites, fields.len() as int),
                    sites,
                },
            )
        }
    }
}

/// A struct's written fields, grouped by the sites that write them, in
/// alphabetical order.
pub open spec fn groups_of<S>(defs: Definitions, ws: Seq<Write<S>>, did: DefId) -> Seq<Group<S>> {
    let fields = by_name(defs, fields_written(ws, did, ws.len() as int));
    groups_led(ws, did, fields, fields.len() as int)
}

pub fn collect_sites<S: Same + Copy>(ws: &Vec<Write<S>>, did: DefId, field: Symbol) -> (r: Vec<S>)
    ensures
        r@ == sites_of(ws@, did, field),
{
    let ghost log = ws@;
    let mut out: Vec<S> = Vec::new();
    let mut i: usize = 0;
    while i < ws.len()
        invariant
            i <= ws@.len(),
            log == ws@,
            out@ == sites_of(log.take(i as int), did, field),
        decreases ws.len() - i,
    {
        assert(log.take(i + 1).drop_last() =~= log.take(i as int));
        if ws[i].0.0 == did && ws[i].0.1 == field {
            let s: S = ws[i].1;
            add_new(&mut out, s);
        }
        i = i + 1;
    }
    assert(log.take(i as int) =~= log);
    out
}

fn all_in<S: Same>(a: &Vec<S>, b: &Vec<S>) -> (r: bool)
    ensures
        r == (forall|i: int| 0 <= i < a@.len() ==> b@.contains(#[trigger] a@[i])),
{
    let mut i: usize = 0;
    while i < a.len()
        invariant
            i <= a@.len(),
            forall|j: int| 0 <= j < i ==> b@.contains(#[trigger] a@[j]),
        decreases a.len() - i,
    {
        if !is_in(b, &a[i]) {
            assert(!b@.contains(a@[i as int]));
            return false;
        }
        i = i + 1;
    }
    true
}

fn are_same<S: Same>(a: &Vec<S>, b: &Vec<S>) -> (r: bool)
    ensures
        r == same_sites(a@, b@),
{
    all_in(a, b) && all_in(b, a)
}

pub fn collect_structs<S>(ws: &Vec<Write<S>>) -> (r: Vec<DefId>)
    ensures
        r@ == structs_written(ws@, ws@.len() as int),
{
    let mut out: Vec<DefId> = Vec::new();
    let mut i: usize = 0;
    while i < ws.len()
        invariant
            i <= ws@.len(),
            out@ == structs_written(ws@, i as int),
        decreases ws.len() - i,
    {
        add_new(&mut out, ws[i].0.0);
        i = i + 1;
    }
    out
}

/// A group at run time.
pub struct FieldGroup<S> {
    pub members: Vec<Symbol>,
    pub sites: Vec<S>,
}

impl<S> View for FieldGroup<S> {
    type V = Group<S>;

    open spec fn view(&self) -> Group<S> {
        Group { members: self.members@, sites: self.sites@ }
    }
}

pub open spec fn group_views<S>(v: Seq<FieldGroup<S>>) -> Seq<Group<S>> {
    v.map_values(|g: FieldGroup<S>| g@)
}

pub fn group_fields<S: Same + Copy>(
    defs: &Definitions,
    ws: &Vec<Write<S>>,
    did: DefId,
) -> (r: Vec<FieldGroup<S>>)
    ensures
        group_views(r@) == groups_of(*defs, ws@, did),
{
    let ghost log = ws@;
    let mut written: Vec<Symbol> = Vec::new();
    let mut i: usize = 0;
    while i < ws.len()
        invariant
            i <= ws@.len(),
            log == ws@,
            written@ == fields_written(log, did, i as int),
        decreases ws.len() - i,
    {
        if ws[i].0.0 == did {
            add_new(&mut written, ws[i].0.1);
        }
        i = i + 1;
    }
    let fields = sort_by_name(defs, &written);
    let mut out: Vec<FieldGroup<S>> = Vec::new();
    let mut k: usize = 0;
    assert(group_views(out@) =~= Seq::<Group<S>>::empty());
    while k < fields.len()
        invariant
            k <= fields@.len(),
            log == ws@,
            group_views(out@) == groups_led(log, did, fields@, k as int),
        decreases fields.len() - k,
    {
        let sites = collect_sites(ws, did, fields[k]);
        let mut follows = false;
        let mut j: usize = 0;
        while j < k
            invariant
                j <= k,
                k < fields@.len(),
                log == ws@,
                sites@ == sites_of(log, did, fields@[k as int]),
                follows == exists|m: int|
                    0 <= m < j && same_sites(
                        sites_of(log, did, #[trigger] fields@[m]),
                        sites_of(log, did, fields@[k as int]),
                    ),
            decreases k - j,
        {
            let other = collect_sites(ws, did, fields[j]);
            if are_same(&other, &sites) {
                assert(same_sites(
                    sites_of(log, did, fields@[j as int]),
                    sites_of(log, did, fields@[k as int]),
                ));
                follows = true;
            }
            j = j + 1;
        }
        if !follows {
            let mut ms: Vec<Symbol> = Vec::new();
            let mut m: usize = 0;
            while m < fields.len()
                invariant
                    m <= fields@.len(),
                    log == ws@,
                    ms@ == members(log, did, fields@, sites@, m as int),
                decreases fields.len() - m,
            {
                let other = collect_sites(ws, did, fields[m]);
                if are_same(&sites, &other) {
                    ms.push(fields[m]);
                }
                m = m + 1;
            }
            let g = FieldGroup { members: ms, sites };
            let ghost before = out@;
            let ghost gv = g@;
            out.push(g);
            assert(group_views(out@) =~= group_views(before).push(gv));
        }
        k = k + 1;
    }
    out
}

/// Every member of a group is written at exactly the group's sites.
pub proof fn lemma_members_share_sites<S>(
    ws: Seq<Write<S>>,
    did: DefId,
    fields: Seq<Symbol>,
    sites: Seq<S>,
    k: int,
    f: Symbol,
)
    requires
        members(ws, did, fields, sites, k).contains(f),
    ensures
        same_sites(sites, sites_of(ws, did, f)),
    decreases k,
{
    if k > 0 {
        let all = members(ws, did, fields, sites, k);
        let before = members(ws, did, fields, sites, k - 1);
        let i = choose|i: int| 0 <= i < all.len() && all[i] == f;
        if i < before.len() {
            assert(before[i] == f);
            assert(before.contains(f));
            lemma_members_share_sites(ws, did, fields, sites, k - 1, f);
        }
    }
}

/// A site writes a field iff it was seen writing it.
pub proof fn lemma_sites_of<S>(ws: Seq<Write<S>>, did: DefId, f: Symbol, s: S)
    ensures
        sites_of(ws, did, f).contains(s) <==> ws.contains(((did, f), s)),
    decreases ws.len(),
{
    if ws.len() > 0 {
        let front = ws.drop_last();
        lemma_sites_of(front, did, f, s);
        assert(ws =~= front.push(ws.last()));
        assert(ws[ws.len() - 1] == ws.last());
        if front.contains(((did, f), s)) {
            let i = choose|i: int| 0 <= i < front.len() && front[i] == ((did, f), s);
            assert(ws[i] == ((did, f), s));
        }
        if ws.contains(((did, f), s)) {
            let i = choose|i: int| 0 <= i < ws.len() && ws[i] == ((did, f), s);
            if i < front.len() {
                assert(front[i] == ((did, f), s));
            }
        }
        lemma_added(sites_of(front, did, f), ws.last().1);
    }
}

proof fn lemma_group_led<S>(
    ws: Seq<Write<S>>,
    did: DefId,
    fields: Seq<Symbol>,
    k: int,
    g: Group<S>,
)
    requires
        groups_led(ws, did, fields, k).contains(g),
    ensures
        g.members == members(ws, did, fields, g.sites, fields.len() as int),
    decreases k,
{
    if k > 0 {
        let all = groups_led(ws, did, fields, k);
        let before = groups_led(ws, did, fields, k - 1);
        let i = choose|i: int| 0 <= i < all.len() && all[i] == g;
        if i < before.len() {
            assert(before[i] == g);
            assert(before.contains(g));
            lemma_group_led(ws, did, fields, k - 1, g);
        }
    }
}

/// One lone write to a field anywhere keeps it out of every group with a field
/// not written there: the members of a group are written side by side at every
/// site.
pub proof fn lemma_no_lone_write<S>(
    defs: Definitions,
    ws: Seq<Write<S>>,
    did: DefId,
    g: Group<S>,
    a: Symbol,
    b: Symbol,
    s: S,
)
    requires
        groups_of(defs, ws, did).contains(g),
        g.members.contains(a),
        g.members.contains(b),
        ws.contains(((did, a), s)),
    ensures
        ws.contains(((did, b), s)),
{
    let fields = by_name(defs, fields_written(ws, did, ws.len() as int));
    lemma_group_led(ws, did, fields, fields.len() as int, g);
    lemma_members_share_sites(ws, did, fields, g.sites, fields.len() as int, a);
    lemma_members_share_sites(ws, did, fields, g.sites, fields.len() as int, b);
    lemma_sites_of(ws, did, a, s);
    lemma_sites_of(ws, did, b, s);
    let at_a = sites_of(ws, did, a);
    let i = choose|i: int| 0 <= i < at_a.len() && at_a[i] == s;
    assert(g.sites.contains(at_a[i]));
    let j = choose|j: int| 0 <= j < g.sites.len() && g.sites[j] == s;
    assert(sites_of(ws, did, b).contains(g.sites[j]));
}

proof fn lemma_member<S>(
    ws: Seq<Write<S>>,
    did: DefId,
    fields: Seq<Symbol>,
    sites: Seq<S>,
    k: int,
    i: int,
)
    requires
        0 <= i < k <= fields.len(),
        same_sites(sites, sites_of(ws, did, fields[i])),
    ensures
        members(ws, did, fields, sites, k).contains(fields[i]),
    decreases k,
{
    let all = members(ws, did, fields, sites, k);
    let before = members(ws, did, fields, sites, k - 1);
    if i == k - 1 {
        assert(all[all.len() - 1] == fields[i]);
    } else {
        lemma_member(ws, did, fields, sites, k - 1, i);
        let j = choose|j: int| 0 <= j < before.len() && before[j] == fields[i];
        assert(all[j] == fields[i]);
    }
}

proof fn lemma_same_sites_joins<S>(a: Seq<S>, b: Seq<S>, c: Seq<S>)
    requires
        same_sites(a, b),
        same_sites(b, c),
    ensures
        same_sites(a, c),
{
    assert forall|i: int| 0 <= i < a.len() implies c.contains(#[trigger] a[i]) by {
        assert(b.contains(a[i]));
        let j = choose|j: int| 0 <= j < b.len() && b[j] == a[i];
        assert(c.contains(b[j]));
    }
    assert forall|i: int| 0 <= i < c.len() implies a.contains(#[trigger] c[i]) by {
        assert(b.contains(c[i]));
        let j = choose|j: int| 0 <= j < b.len() && b[j] == c[i];
        assert(a.contains(b[j]));
    }
}

proof fn lemma_led_by<S>(ws: Seq<Write<S>>, did: DefId, fields: Seq<Symbol>, i: int) -> (k: int)
    requires
        0 <= i < fields.len(),
    ensures
        0 <= k <= i,
        !led(ws, did, fields, k),
        same_sites(sites_of(ws, did, fields[k]), sites_of(ws, did, fields[i])),
    decreases i,
{
    if led(ws, did, fields, i) {
        let j = choose|j: int|
            0 <= j < i && same_sites(
                sites_of(ws, did, #[trigger] fields[j]),
                sites_of(ws, did, fields[i]),
            );
        let k = lemma_led_by(ws, did, fields, j);
        lemma_same_sites_joins(
            sites_of(ws, did, fields[k]),
            sites_of(ws, did, fields[j]),
            sites_of(ws, did, fields[i]),
        );
        k
    } else {
        i
    }
}

proof fn lemma_leads<S>(ws: Seq<Write<S>>, did: DefId, fields: Seq<Symbol>, n: int, k: int) -> (g:
    Group<S>)
    requires
        0 <= k < n <= fields.len(),
        !led(ws, did, fields, k),
    ensures
        groups_led(ws, did, fields, n).contains(g),
        g.sites == sites_of(ws, did, fields[k]),
        g.members == members(ws, did, fields, g.sites, fields.len() as int),
    decreases n,
{
    let all = groups_led(ws, did, fields, n);
    let before = groups_led(ws, did, fields, n - 1);
    if k == n - 1 {
        let sites = sites_of(ws, did, fields[k]);
        let g = Group { members: members(ws, did, fields, sites, fields.len() as int), sites };
        assert(all[all.len() - 1] == g);
        g
    } else {
        let g = lemma_leads(ws, did, fields, n - 1, k);
        let j = choose|j: int| 0 <= j < before.len() && before[j] == g;
        assert(all[j] == g);
        g
    }
}

proof fn lemma_field_written<S>(ws: Seq<Write<S>>, did: DefId, k: int, i: int)
    requires
        0 <= i < k <= ws.len(),
        ws[i].0.0 == did,
    ensures
        fields_written(ws, did, k).contains(ws[i].0.1),
    decreases k,
{
    lemma_added(fields_written(ws, did, k - 1), ws[k - 1].0.1);
    if i < k - 1 {
        lemma_field_written(ws, did, k - 1, i);
    }
}

proof fn lemma_written_position<S>(
    defs: Definitions,
    ws: Seq<Write<S>>,
    did: DefId,
    w: Write<S>,
) -> (i: int)
    requires
        ws.contains(w),
        w.0.0 == did,
    ensures
        ({
            let fields = by_name(defs, fields_written(ws, did, ws.len() as int));
            0 <= i < fields.len() && fields[i] == w.0.1
        }),
{
    let written = fields_written(ws, did, ws.len() as int);
    let fields = by_name(defs, written);
    let n = choose|n: int| 0 <= n < ws.len() && ws[n] == w;
    lemma_field_written(ws, did, ws.len() as int, n);
    lemma_by_name(defs, written);
    written.to_multiset_ensures();
    fields.to_multiset_ensures();
    assert(written.to_multiset().count(w.0.1) > 0);
    assert(fields.contains(w.0.1));
    choose|i: int| 0 <= i < fields.len() && fields[i] == w.0.1
}

/// Fields that are only ever written side by side are found: some group holds
/// both.
pub proof fn lemma_paired_fields_meet<S>(
    defs: Definitions,
    ws: Seq<Write<S>>,
    did: DefId,
    a: Write<S>,
    b: Write<S>,
) -> (g: Group<S>)
    requires
        ws.contains(a),
        ws.contains(b),
        a.0.0 == did,
        b.0.0 == did,
        forall|s: S|
            ws.contains(((did, a.0.1), s)) <==> #[trigger] ws.contains(((did, b.0.1), s)),
    ensures
        groups_of(defs, ws, did).contains(g),
        g.members.contains(a.0.1),
        g.members.contains(b.0.1),
{
    let fields = by_name(defs, fields_written(ws, did, ws.len() as int));
    let i = lemma_written_position(defs, ws, did, a);
    let j = lemma_written_position(defs, ws, did, b);
    let k = lemma_led_by(ws, did, fields, i);
    let g = lemma_leads(ws, did, fields, fields.len() as int, k);
    let at_a = sites_of(ws, did, a.0.1);
    let at_b = sites_of(ws, did, b.0.1);
    assert(same_sites(at_a, at_b)) by {
        assert forall|m: int| 0 <= m < at_a.len() implies at_b.contains(#[trigger] at_a[m]) by {
            lemma_sites_of(ws, did, a.0.1, at_a[m]);
            lemma_sites_of(ws, did, b.0.1, at_a[m]);
            assert(ws.contains(((did, b.0.1), at_a[m])));
        }
        assert forall|m: int| 0 <= m < at_b.len() implies at_a.contains(#[trigger] at_b[m]) by {
            lemma_sites_of(ws, did, a.0.1, at_b[m]);
            lemma_sites_of(ws, did, b.0.1, at_b[m]);
            assert(ws.contains(((did, b.0.1), at_b[m])));
        }
    }
    lemma_same_sites_joins(g.sites, at_a, at_b);
    lemma_member(ws, did, fields, g.sites, fields.len() as int, i);
    lemma_member(ws, did, fields, g.sites, fields.len() as int, j);
    g
}

/// No site writes one of the fields without the others.
pub open spec fn never_apart<S>(ws: Seq<Write<S>>, did: DefId, ms: Seq<Symbol>) -> bool {
    forall|a: Symbol, b: Symbol, s: S|
        ms.contains(a) && ms.contains(b) && #[trigger] ws.contains(((did, a), s))
            ==> #[trigger] ws.contains(((did, b), s))
}

/// The members of a group are never written apart.
pub proof fn lemma_group_is_never_apart<S>(
    defs: Definitions,
    ws: Seq<Write<S>>,
    did: DefId,
    g: Group<S>,
)
    requires
        groups_of(defs, ws, did).contains(g),
    ensures
        never_apart(ws, did, g.members),
{
    assert forall|a: Symbol, b: Symbol, s: S|
        g.members.contains(a) && g.members.contains(b) && #[trigger] ws.contains(
            ((did, a), s),
        ) implies #[trigger] ws.contains(((did, b), s)) by {
        lemma_no_lone_write(defs, ws, did, g, a, b, s);
    }
}

/// A group's sites are those at which any one of its members is written.
pub proof fn lemma_sites_of_group<S>(
    defs: Definitions,
    ws: Seq<Write<S>>,
    did: DefId,
    g: Group<S>,
    a: Symbol,
    s: S,
)
    requires
        groups_of(defs, ws, did).contains(g),
        g.members.contains(a),
    ensures
        g.sites.contains(s) <==> ws.contains(((did, a), s)),
{
    let fields = by_name(defs, fields_written(ws, did, ws.len() as int));
    lemma_group_led(ws, did, fields, fields.len() as int, g);
    lemma_members_share_sites(ws, did, fields, g.sites, fields.len() as int, a);
    lemma_sites_of(ws, did, a, s);
    let at_a = sites_of(ws, did, a);
    if at_a.contains(s) {
        let i = choose|i: int| 0 <= i < at_a.len() && at_a[i] == s;
        assert(g.sites.contains(at_a[i]));
    }
    if g.sites.contains(s) {
        let i = choose|i: int| 0 <= i < g.sites.len() && g.sites[i] == s;
        assert(at_a.contains(g.sites[i]));
    }
}

/// Every struct that is written to is looked at.
pub proof fn lemma_struct_is_written<S>(ws: Seq<Write<S>>, k: int, i: int)
    requires
        0 <= i < k <= ws.len(),
    ensures
        structs_written(ws, k).contains(ws[i].0.0),
    decreases k,
{
    crate::table::lemma_added(structs_written(ws, k - 1), ws[k - 1].0.0);
    if i < k - 1 {
        lemma_struct_is_written(ws, k - 1, i);
    }
}

/// Two different things in a list make it two long.
pub proof fn lemma_two_members<T>(s: Seq<T>, a: T, b: T)
    requires
        s.contains(a),
        s.contains(b),
        a != b,
    ensures
        s.len() >= 2,
{
    let i = choose|i: int| 0 <= i < s.len() && s[i] == a;
    let j = choose|j: int| 0 <= j < s.len() && s[j] == b;
    assert(i != j);
}

} // verus!
