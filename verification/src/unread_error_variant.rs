//! A crate-private enum variant that is constructed somewhere but never named
//! by a pattern outside the enum's own trait impls. Trait impls have to match
//! every variant to exist, so they prove nothing; a pattern anywhere else,
//! the enum's own inherent methods included, is the crate reading the
//! structure.

use crate::adt_facts::{ancestors, impl_adt, impl_self_adt, lineage};
use crate::defs::{DefKind, Definitions};
use crate::enum_facts::{
    ctor_res, head_res, parent_def, parent_of, res_of_ctor, res_of_head, res_variant,
    variant_of_res,
};
use crate::hir::{Expr, Pat, Res};
use crate::ids::{DefId, Span};
use crate::report::{emit, finding, views, Finding, FindingView, Lint};
use crate::table::{add_new, find_key, has_key, is_in, lemma_added, with_added};
use vstd::prelude::*;
use vstd::string::*;

verus! {

#[derive(Debug)]
pub struct UnreadErrorVariant {
    /// Each variant with its enum and its first construction.
    pub constructed: Vec<(DefId, (DefId, Span))>,
    /// Enums, and variants of theirs that a counting pattern names.
    pub named: Vec<(DefId, DefId)>,
}

#[verifier::ext_equal]
pub struct UnreadView {
    pub constructed: Seq<(DefId, (DefId, Span))>,
    pub named: Seq<(DefId, DefId)>,
}

impl View for UnreadErrorVariant {
    type V = UnreadView;

    open spec fn view(&self) -> UnreadView {
        UnreadView { constructed: self.constructed@, named: self.named@ }
    }
}

/// The crate-private local enum a path's variant belongs to, and the variant.
pub open spec fn private_variant(defs: Definitions, res: Res) -> Option<(DefId, DefId)> {
    match res_variant(defs, res) {
        Some(v) => match parent_of(defs, v) {
            Some(e) => if defs.local(e) && !defs.exported(e) {
                Some((e, v))
            } else {
                None
            },
            None => None,
        },
        None => None,
    }
}

pub fn variant_of_private_enum(defs: &Definitions, res: Res) -> (r: Option<(DefId, DefId)>)
    ensures
        r == private_variant(*defs, res),
{
    match variant_of_res(defs, res) {
        Some(v) => match parent_def(defs, v) {
            Some(e) => if defs.is_local(e) && !defs.is_exported(e) {
                Some((e, v))
            } else {
                None
            },
            None => None,
        },
        None => None,
    }
}

/// The definition is a trait impl of the enum.
pub open spec fn trait_impl_of(defs: Definitions, id: DefId, enum_did: DefId) -> bool {
    defs.kind(id) == DefKind::Impl(true) && impl_adt(defs, id) == Some(enum_did)
}

/// Code in `owner` stands in a trait impl of the enum.
pub open spec fn in_own_trait_impl(defs: Definitions, owner: DefId, enum_did: DefId) -> bool {
    exists|i: int|
        0 <= i < lineage(defs, owner).len() && trait_impl_of(
            defs,
            #[trigger] lineage(defs, owner)[i],
            enum_did,
        )
}

pub fn inside_own_trait_impl(defs: &Definitions, owner: DefId, enum_did: DefId) -> (r: bool)
    ensures
        r == in_own_trait_impl(*defs, owner, enum_did),
{
    let ids = ancestors(defs, owner);
    let mut i: usize = 0;
    while i < ids.len()
        invariant
            i <= ids@.len(),
            ids@ == lineage(*defs, owner),
            forall|j: int| 0 <= j < i ==> !trait_impl_of(*defs, #[trigger] ids@[j], enum_did),
        decreases ids.len() - i,
    {
        let of_trait = match defs.kind_of(ids[i]) {
            DefKind::Impl(t) => t,
            _ => false,
        };
        let own = match impl_self_adt(defs, ids[i]) {
            Some(d) => d == enum_did,
            None => false,
        };
        if of_trait && own {
            assert(trait_impl_of(*defs, lineage(*defs, owner)[i as int], enum_did));
            return true;
        }
        i = i + 1;
    }
    false
}

/// What is known once an expression has been visited.
pub open spec fn after_expr(defs: Definitions, s: UnreadView, e: Expr) -> UnreadView {
    match ctor_res(e) {
        Some(res) => match private_variant(defs, res) {
            Some((en, v)) => if has_key(s.constructed, v) {
                s
            } else {
                UnreadView { constructed: s.constructed.push((v, (en, e.span))), ..s }
            },
            None => s,
        },
        None => s,
    }
}

/// What is known once a pattern in `owner` has been visited.
pub open spec fn after_pat(defs: Definitions, s: UnreadView, owner: DefId, p: Pat) -> UnreadView {
    match head_res(p) {
        Some(res) => match private_variant(defs, res) {
            Some((en, v)) => if in_own_trait_impl(defs, owner, en) {
                s
            } else {
                UnreadView { named: with_added(s.named, (en, v)), ..s }
            },
            None => s,
        },
        None => s,
    }
}

/// Some variant of the enum is distinguished by a counting pattern.
pub open spec fn distinguished(named: Seq<(DefId, DefId)>, enum_did: DefId) -> bool {
    exists|i: int| 0 <= i < named.len() && (#[trigger] named[i]).0 == enum_did
}

fn is_distinguished(named: &Vec<(DefId, DefId)>, enum_did: DefId) -> (r: bool)
    ensures
        r == distinguished(named@, enum_did),
{
    let mut i: usize = 0;
    while i < named.len()
        invariant
            i <= named@.len(),
            forall|j: int| 0 <= j < i ==> (#[trigger] named@[j]).0 != enum_did,
        decreases named.len() - i,
    {
        if named[i].0 == enum_did {
            assert(named@[i as int].0 == enum_did);
            return true;
        }
        i = i + 1;
    }
    false
}

/// The variant is never read. Where no variant of the enum is distinguished
/// by a pattern, matching is not how the enum is consumed, and that proves
/// nothing.
pub open spec fn never_read(s: UnreadView, variant: DefId, enum_did: DefId) -> bool {
    distinguished(s.named, enum_did) && !s.named.contains((enum_did, variant))
}

pub open spec fn variant_finding(
    defs: Definitions,
    variant: DefId,
    enum_did: DefId,
    span: Span,
) -> FindingView {
    finding(
        Lint::UnreadErrorVariant,
        span,
        "`"@ + defs.path_text(variant) + "` is constructed here, but no pattern outside `"@
            + defs.name_text(enum_did) + "`'s trait impls ever names it"@,
        "the variant's structure is never read; handle it distinctly or collapse it into another variant"@,
    )
}

/// What the lint says of the first `k` variants constructed.
pub open spec fn unread_findings(defs: Definitions, s: UnreadView, k: int) -> Seq<FindingView>
    decreases k,
{
    if k <= 0 {
        Seq::empty()
    } else {
        let before = unread_findings(defs, s, k - 1);
        let (v, (en, span)) = s.constructed[k - 1];
        if never_read(s, v, en) {
            before.push(variant_finding(defs, v, en, span))
        } else {
            before
        }
    }
}

impl UnreadErrorVariant {
    pub fn new() -> (r: Self)
        ensures
            r@ == (UnreadView { constructed: Seq::empty(), named: Seq::empty() }),
    {
        UnreadErrorVariant { constructed: Vec::new(), named: Vec::new() }
    }

    /// Visits an expression.
    pub fn check_expr(&mut self, defs: &Definitions, e: &Expr)
        ensures
            final(self)@ == after_expr(*defs, old(self)@, *e),
    {
        let ghost before = self@;
        match res_of_ctor(e) {
            Some(res) => match variant_of_private_enum(defs, res) {
                Some((en, v)) => {
                    if find_key(&self.constructed, &v).is_none() {
                        self.constructed.push((v, (en, e.span)));
                        assert(self@ =~= after_expr(*defs, before, *e));
                    }
                },
                None => {},
            },
            None => {},
        }
    }

    /// Visits a pattern in `owner`.
    pub fn check_pat(&mut self, defs: &Definitions, owner: DefId, p: &Pat)
        ensures
            final(self)@ == after_pat(*defs, old(self)@, owner, *p),
    {
        let ghost before = self@;
        match res_of_head(p) {
            Some(res) => match variant_of_private_enum(defs, res) {
                Some((en, v)) => {
                    if !inside_own_trait_impl(defs, owner, en) {
                        add_new(&mut self.named, (en, v));
                        assert(self@ =~= after_pat(*defs, before, owner, *p));
                    }
                },
                None => {},
            },
            None => {},
        }
    }

    /// What the lint says of the crate.
    pub fn check_crate_post(&self, defs: &Definitions) -> (r: Vec<Finding>)
        ensures
            views(r@) == unread_findings(*defs, self@, self@.constructed.len() as int),
    {
        let mut out: Vec<Finding> = Vec::new();
        let mut k: usize = 0;
        assert(views(out@) =~= Seq::<FindingView>::empty());
        while k < self.constructed.len()
            invariant
                k <= self.constructed@.len(),
                views(out@) == unread_findings(*defs, self@, k as int),
            decreases self.constructed.len() - k,
        {
            let (v, (en, span)) = self.constructed[k];
            if is_distinguished(&self.named, en) && !is_in(&self.named, &(en, v)) {
                let mut msg = String::from_str("`");
                msg.append(defs.path_of(v));
                msg.append("` is constructed here, but no pattern outside `");
                msg.append(defs.name_of(en));
                msg.append("`'s trait impls ever names it");
                emit(
                    &mut out,
                    Lint::UnreadErrorVariant,
                    span,
                    msg,
                    "the variant's structure is never read; handle it distinctly or collapse it into another variant",
                );
            }
            k = k + 1;
        }
        out
    }
}

/// A pattern in one of the enum's own trait impls changes nothing.
pub proof fn lemma_own_trait_impl_proves_nothing(
    defs: Definitions,
    s: UnreadView,
    owner: DefId,
    p: Pat,
    enum_did: DefId,
    variant: DefId,
)
    requires
        head_res(p) matches Some(res) && private_variant(defs, res) == Some((enum_did, variant)),
        in_own_trait_impl(defs, owner, enum_did),
    ensures
        after_pat(defs, s, owner, p) == s,
{
}

/// Where no pattern names any variant of an enum, nothing is said of its
/// variants: matching is not how it is consumed.
pub proof fn lemma_unmatched_enum_is_quiet(s: UnreadView, variant: DefId, enum_did: DefId)
    requires
        forall|i: int| 0 <= i < s.named.len() ==> (#[trigger] s.named[i]).0 != enum_did,
    ensures
        !never_read(s, variant, enum_did),
{
}

/// A variant that a counting pattern names is never reported, whatever is
/// visited before or after.
pub proof fn lemma_named_variant_is_quiet(
    defs: Definitions,
    s: UnreadView,
    owner: DefId,
    p: Pat,
    enum_did: DefId,
    variant: DefId,
)
    requires
        head_res(p) matches Some(res) && private_variant(defs, res) == Some((enum_did, variant)),
        !in_own_trait_impl(defs, owner, enum_did),
    ensures
        !never_read(after_pat(defs, s, owner, p), variant, enum_did),
        forall|q: Pat, o: DefId|
            s.named.contains((enum_did, variant)) ==> #[trigger] after_pat(
                defs,
                s,
                o,
                q,
            ).named.contains((enum_did, variant)),
{
    lemma_added(s.named, (enum_did, variant));
    assert forall|q: Pat, o: DefId| s.named.contains((enum_did, variant)) implies #[trigger] after_pat(
        defs,
        s,
        o,
        q,
    ).named.contains((enum_did, variant)) by {
        match head_res(q) {
            Some(res) => match private_variant(defs, res) {
                Some(p) => lemma_added(s.named, p),
                None => {},
            },
            None => {},
        }
    }
}

/// A literal of a variant of an enum that is the crate's own and not exported
/// is on record with its first place.
pub proof fn lemma_first_construction_is_kept(
    defs: Definitions,
    s: UnreadView,
    e: Expr,
    en: DefId,
    v: DefId,
)
    requires
        (e.kind matches crate::hir::ExprKind::Path(p) && crate::enum_facts::names_variant(defs, p.res, v)) || (
        e.kind matches crate::hir::ExprKind::Struct(p, _, _) && crate::enum_facts::names_variant(
            defs,
            p.res,
            v,
        )) || (e.kind matches crate::hir::ExprKind::Call(f, _) && (f.kind matches crate::hir::ExprKind::Path(p)
            && crate::enum_facts::names_variant(defs, p.res, v))),
        parent_of(defs, v) == Some(en),
    ensures
        defs.local(en) && !defs.exported(en) ==> ({
            let t = after_expr(defs, s, e);
            &&& has_key(t.constructed, v)
            &&& !has_key(s.constructed, v) ==> t.constructed == s.constructed.push(
                (v, (en, e.span)),
            )
            &&& has_key(s.constructed, v) ==> t == s
        }),
        !defs.local(en) || defs.exported(en) ==> after_expr(defs, s, e) == s,
{
    match ctor_res(e) {
        Some(res) => {
            crate::enum_facts::lemma_variant_named(defs, res, v);
        },
        None => {},
    }
    let t = s.constructed.push((v, (en, e.span)));
    assert(t[s.constructed.len() as int].0 == v);
    crate::table::lemma_first_entry(t, s.constructed.len() as int);
}

/// A pattern headed by such a variant names it, wherever it stands but in a
/// trait impl of the enum's own.
pub proof fn lemma_pattern_names_the_variant(
    defs: Definitions,
    s: UnreadView,
    chain: Seq<DefId>,
    p: Pat,
    en: DefId,
    v: DefId,
)
    requires
        (p.kind matches crate::hir::PatKind::Path(q) && crate::enum_facts::names_variant(defs, q.res, v)) || (
        p.kind matches crate::hir::PatKind::TupleStruct(q, _) && crate::enum_facts::names_variant(
            defs,
            q.res,
            v,
        )) || (p.kind matches crate::hir::PatKind::Struct(q, _) && crate::enum_facts::names_variant(
            defs,
            q.res,
            v,
        )),
        parent_of(defs, v) == Some(en),
        defs.local(en),
        !defs.exported(en),
        0 < chain.len() <= defs.defs@.len(),
        forall|i: int|
            #![trigger chain[i]]
            0 <= i < chain.len() - 1 ==> parent_of(defs, chain[i]) == Some(chain[i + 1]),
    ensures
        (defs.kind(chain.last()) == DefKind::Impl(true) && (defs.at(chain.last()) matches Some(d)
            && (d.self_ty matches Some(crate::ty::Ty::Adt(x, _)) && x == en))) ==> after_pat(
            defs,
            s,
            chain[0],
            p,
        ) == s,
        (forall|id: DefId|
            #![trigger defs.kind(id)]
            defs.kind(id) == DefKind::Impl(true) ==> impl_adt(defs, id) != Some(en)) ==> after_pat(
            defs,
            s,
            chain[0],
            p,
        ).named.contains((en, v)),
{
    match head_res(p) {
        Some(res) => {
            crate::enum_facts::lemma_variant_named(defs, res, v);
        },
        None => {},
    }
    crate::table::lemma_added(s.named, (en, v));
    crate::adt_facts::lemma_lineage_holds(defs, chain, defs.defs@.len());
    let ids = lineage(defs, chain[0]);
    let k = choose|k: int| 0 <= k < ids.len() && ids[k] == chain.last();
    if trait_impl_of(defs, chain.last(), en) {
        assert(trait_impl_of(defs, ids[k], en));
    }
}

/// A variant that is built, of an enum that some pattern tells apart, and that
/// no pattern names, is reported where it is first built.
pub proof fn lemma_unread_variant_is_reported(
    defs: Definitions,
    s: UnreadView,
    k: int,
    j: int,
    n: int,
)
    requires
        0 <= j < k <= s.constructed.len(),
        0 <= n < s.named.len(),
        s.named[n].0 == s.constructed[j].1.0,
        forall|i: int|
            0 <= i < s.named.len() ==> #[trigger] s.named[i] != (
                s.constructed[j].1.0,
                s.constructed[j].0,
            ),
    ensures
        exists|i: int|
            0 <= i < unread_findings(defs, s, k).len() && (#[trigger] unread_findings(
                defs,
                s,
                k,
            )[i]).at == s.constructed[j].1.1 && unread_findings(defs, s, k)[i].lint
                == Lint::UnreadErrorVariant,
    decreases k,
{
    let all = unread_findings(defs, s, k);
    let before = unread_findings(defs, s, k - 1);
    let (v, (en, span)) = s.constructed[j];
    if j == k - 1 {
        assert(never_read(s, v, en));
        let m = all.len() - 1;
        assert(all[m].at == span && all[m].lint == Lint::UnreadErrorVariant);
    } else {
        lemma_unread_variant_is_reported(defs, s, k - 1, j, n);
        let i = choose|i: int|
            0 <= i < before.len() && (#[trigger] before[i]).at == span && before[i].lint
                == Lint::UnreadErrorVariant;
        assert(all[i] == before[i]);
        assert(all[i].lint == Lint::UnreadErrorVariant);
    }
}

} // verus!
