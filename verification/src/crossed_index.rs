//! An index whose name claims one kind (`source_index`, `pkg_id`) landing on a
//! place the same function otherwise indexes by names of another kind, when
//! the function also shows the crossing name indexing a table named after it.
//!
//! The claim is read off names only, never types: silent when either name
//! carries no kind suffix, when the two prefixes share or abbreviate a word,
//! when the place is itself named after the crossing kind, and when the
//! crossing name has no table of its own that the other name leaves alone.

use crate::defs::Definitions;
use crate::hir::{targets, walk, walked, Expr, ExprKind, Res, UnOp};
use crate::hir_shapes::{spelled_name, value_name};
use crate::ids::{DefId, HirId, Span, Symbol};
use crate::report::{
    by_position, emit_with_note, noted, sort_by_position, views, Finding, FindingView, Lint,
};
use crate::text::{
    char_texts, chars_of, decimal, has_suffix, number, pieces, same, same_chars, slice_of,
    split_char, string_of, strip_suffix, without_suffix,
};
use vstd::prelude::*;
use vstd::string::*;

verus! {

// ---------------------------------------------------------------- names

/// The index kind a name claims: the non-empty prefix before `_index`,
/// `_idx`, `_id` or `_i`.
pub open spec fn kind_claimed(name: Seq<char>) -> Option<Seq<char>> {
    let prefix = match without_suffix(name, "_index"@) {
        Some(p) => Some(p),
        None => match without_suffix(name, "_idx"@) {
            Some(p) => Some(p),
            None => match without_suffix(name, "_id"@) {
                Some(p) => Some(p),
                None => without_suffix(name, "_i"@),
            },
        },
    };
    match prefix {
        Some(p) => if p.len() > 0 {
            Some(p)
        } else {
            None
        },
        None => None,
    }
}

pub fn claimed_kind(name: &str) -> (r: Option<String>)
    ensures
        match r {
            Some(k) => kind_claimed(name@) == Some(k@),
            None => kind_claimed(name@) is None,
        },
{
    let chars = chars_of(name);
    let prefix = match strip_suffix(&chars, "_index") {
        Some(p) => Some(p),
        None => match strip_suffix(&chars, "_idx") {
            Some(p) => Some(p),
            None => match strip_suffix(&chars, "_id") {
                Some(p) => Some(p),
                None => strip_suffix(&chars, "_i"),
            },
        },
    };
    match prefix {
        Some(p) => if p.len() > 0 {
            Some(string_of(&p))
        } else {
            None
        },
        None => None,
    }
}

/// The letters of `short` occur in `long` in order.
pub open spec fn in_sequence(short: Seq<char>, long: Seq<char>) -> bool
    decreases long.len(),
{
    if short.len() == 0 {
        true
    } else if long.len() == 0 {
        false
    } else if short[0] == long[0] {
        in_sequence(short.drop_first(), long.drop_first())
    } else {
        in_sequence(short, long.drop_first())
    }
}

/// `short` spells `long`: equal, or its letters in order from the same
/// initial, three letters at least.
pub open spec fn spells(short: Seq<char>, long: Seq<char>) -> bool {
    short == long || (3 <= short.len() <= long.len() && short[0] == long[0] && in_sequence(
        short,
        long,
    ))
}

pub fn abbreviates(short: &Vec<char>, long: &Vec<char>) -> (r: bool)
    ensures
        r == spells(short@, long@),
{
    if same_chars(short, long) {
        return true;
    }
    if short.len() < 3 || short.len() > long.len() || short[0] != long[0] {
        return false;
    }
    let mut i: usize = 0;
    let mut j: usize = 0;
    assert(short@.skip(0) =~= short@ && long@.skip(0) =~= long@);
    while i < short.len() && j < long.len()
        invariant
            i <= short@.len(),
            j <= long@.len(),
            in_sequence(short@, long@) == in_sequence(short@.skip(i as int), long@.skip(j as int)),
        decreases long.len() - j,
    {
        assert(short@.skip(i as int).drop_first() =~= short@.skip(i + 1));
        assert(long@.skip(j as int).drop_first() =~= long@.skip(j + 1));
        if short[i] == long[j] {
            i = i + 1;
        }
        j = j + 1;
    }
    i == short.len()
}

/// `entries` to `entry`, `hashes` to `hash`, `parts` to `part`; anything else
/// unchanged.
pub open spec fn singular_of(word: Seq<char>) -> Seq<char> {
    match without_suffix(word, "ies"@) {
        Some(stem) => stem.push('y'),
        None => if has_suffix(word, "shes"@) || has_suffix(word, "ches"@) || has_suffix(
            word,
            "xes"@,
        ) || has_suffix(word, "sses"@) {
            word.take(word.len() - 2)
        } else {
            match without_suffix(word, "s"@) {
                Some(stem) => if has_suffix(stem, "s"@) {
                    word
                } else {
                    stem
                },
                None => word,
            }
        },
    }
}

fn ends(word: &Vec<char>, tail: &str) -> (r: bool)
    ensures
        r == has_suffix(word@, tail@),
{
    strip_suffix(word, tail).is_some()
}

pub fn singular(word: Vec<char>) -> (r: Vec<char>)
    ensures
        r@ == singular_of(word@),
{
    match strip_suffix(&word, "ies") {
        Some(stem) => {
            let mut whole = stem;
            whole.push('y');
            return whole;
        },
        None => {},
    }
    if ends(&word, "shes") || ends(&word, "ches") || ends(&word, "xes") || ends(&word, "sses") {
        proof {
            reveal_strlit("shes");
            reveal_strlit("ches");
            reveal_strlit("xes");
            reveal_strlit("sses");
        }
        let stem = slice_of(&word, 0, word.len() - 2);
        assert(stem@ =~= word@.take(word@.len() - 2));
        return stem;
    }
    match strip_suffix(&word, "s") {
        Some(stem) => {
            if !ends(&stem, "s") {
                return stem;
            }
        },
        None => {},
    }
    word
}

/// What a word in `ies` may be the plural of besides its `singular_of`:
/// `ties` of `tie`.
pub open spec fn other_singular(word: Seq<char>) -> Option<Seq<char>> {
    match without_suffix(word, "ies"@) {
        Some(stem) => Some(stem.push('i').push('e')),
        None => None,
    }
}

/// A word, plurals aside.
pub open spec fn forms(word: Seq<char>) -> Seq<Seq<char>> {
    match other_singular(word) {
        Some(w) => seq![singular_of(word), w],
        None => seq![singular_of(word)],
    }
}

/// The forms of the words, in order.
pub open spec fn all_forms(parts: Seq<Seq<char>>) -> Seq<Seq<char>>
    decreases parts.len(),
{
    if parts.len() == 0 {
        Seq::empty()
    } else {
        all_forms(parts.drop_last()) + forms(parts.last())
    }
}

/// The words of a name, plurals aside.
pub open spec fn words(name: Seq<char>) -> Seq<Seq<char>> {
    all_forms(pieces(name, '_'))
}

fn words_of(name: &str) -> (r: Vec<Vec<char>>)
    ensures
        char_texts(r@) == words(name@),
{
    let parts = split_char(name, '_');
    let ghost all = pieces(name@, '_');
    let mut out: Vec<Vec<char>> = Vec::new();
    let mut i: usize = 0;
    assert(char_texts(out@) =~= all_forms(all.take(0)));
    while i < parts.len()
        invariant
            i <= parts@.len(),
            char_texts(parts@) == all,
            char_texts(out@) == all_forms(all.take(i as int)),
        decreases parts.len() - i,
    {
        let ghost before = char_texts(out@);
        let ghost word = all[i as int];
        assert(word == parts@[i as int]@);
        assert(all.take(i + 1).drop_last() =~= all.take(i as int));
        let w = singular(slice_of(&parts[i], 0, parts[i].len()));
        assert(word.subrange(0, word.len() as int) =~= word);
        out.push(w);
        assert(char_texts(out@) =~= before.push(singular_of(word)));
        match strip_suffix(&parts[i], "ies") {
            Some(stem) => {
                let mut whole = stem;
                whole.push('i');
                whole.push('e');
                let ghost form = whole@;
                out.push(whole);
                assert(char_texts(out@) =~= before.push(singular_of(word)).push(form));
            },
            None => {},
        }
        assert(char_texts(out@) =~= before + forms(word));
        i = i + 1;
    }
    assert(all.take(i as int) =~= all);
    out
}

/// One word spells the other.
pub open spec fn alike(x: Seq<char>, y: Seq<char>) -> bool {
    spells(x, y) || spells(y, x)
}

/// Two `_`-separated names name one kind when any word of one is, or
/// abbreviates, a word of the other, plurals aside.
pub open spec fn one_kind(a: Seq<char>, b: Seq<char>) -> bool {
    exists|i: int, j: int|
        0 <= i < words(a).len() && 0 <= j < words(b).len() && #[trigger] alike(
            words(a)[i],
            words(b)[j],
        )
}

pub fn same_kind(a: &str, b: &str) -> (r: bool)
    ensures
        r == one_kind(a@, b@),
{
    let xs = words_of(a);
    let ys = words_of(b);
    let ghost p = words(a@);
    let ghost q = words(b@);
    let mut i: usize = 0;
    while i < xs.len()
        invariant
            i <= xs@.len(),
            char_texts(xs@) == p,
            char_texts(ys@) == q,
            p == words(a@),
            q == words(b@),
            forall|k: int, l: int|
                0 <= k < i && 0 <= l < q.len() ==> !#[trigger] alike(p[k], q[l]),
        decreases xs.len() - i,
    {
        let mut j: usize = 0;
        while j < ys.len()
            invariant
                i < xs@.len(),
                j <= ys@.len(),
                char_texts(xs@) == p,
                char_texts(ys@) == q,
                p == words(a@),
                q == words(b@),
                forall|l: int| 0 <= l < j ==> !#[trigger] alike(p[i as int], q[l]),
            decreases ys.len() - j,
        {
            assert(p[i as int] == xs@[i as int]@ && q[j as int] == ys@[j as int]@);
            if abbreviates(&xs[i], &ys[j]) || abbreviates(&ys[j], &xs[i]) {
                assert(alike(p[i as int], q[j as int]));
                assert(p.len() == xs@.len() && q.len() == ys@.len());
                return true;
            }
            j = j + 1;
        }
        assert(q.len() == ys@.len());
        i = i + 1;
    }
    assert(p.len() == xs@.len());
    false
}

/// Naming one kind goes both ways.
pub proof fn lemma_one_kind_symmetric(a: Seq<char>, b: Seq<char>)
    ensures
        one_kind(a, b) == one_kind(b, a),
{
    if one_kind(a, b) {
        let (i, j) = choose|i: int, j: int|
            0 <= i < words(a).len() && 0 <= j < words(b).len() && #[trigger] alike(
                words(a)[i],
                words(b)[j],
            );
        assert(alike(words(b)[j], words(a)[i]));
    }
    if one_kind(b, a) {
        let (i, j) = choose|i: int, j: int|
            0 <= i < words(b).len() && 0 <= j < words(a).len() && #[trigger] alike(
                words(b)[i],
                words(a)[j],
            );
        assert(alike(words(a)[j], words(b)[i]));
    }
}

// ---------------------------------------------------------------- places

/// Zero-argument methods that expose the receiver's own elements rather than
/// select a different table.
pub open spec fn is_view(name: Seq<char>) -> bool {
    name == "as_slice"@ || name == "as_mut_slice"@ || name == "slice"@ || name == "slice_mut"@
        || name == "as_ref"@ || name == "as_mut"@ || name == "borrow"@ || name == "borrow_mut"@
        || name == "deref"@ || name == "deref_mut"@ || name == "iter"@ || name == "iter_mut"@
        || name == "unwrap"@
}

fn exposes(name: &str) -> (r: bool)
    ensures
        r == is_view(name@),
{
    same(name, "as_slice") || same(name, "as_mut_slice") || same(name, "slice") || same(
        name,
        "slice_mut",
    ) || same(name, "as_ref") || same(name, "as_mut") || same(name, "borrow") || same(
        name,
        "borrow_mut",
    ) || same(name, "deref") || same(name, "deref_mut") || same(name, "iter") || same(
        name,
        "iter_mut",
    ) || same(name, "unwrap")
}

/// What stands at the root of a place.
#[derive(Clone, Copy, Debug, PartialEq, Eq, Structural)]
pub enum Root {
    Local(HirId),
    Item(DefId),
}

/// Where an index lands: the root, what follows it, the root's name, and every
/// name along it.
#[derive(Debug)]
pub struct Place {
    pub root: Root,
    pub tail: String,
    pub name: Symbol,
    pub names: Vec<Symbol>,
}

pub struct PlaceView {
    pub root: Root,
    pub tail: Seq<char>,
    pub name: Symbol,
    pub names: Seq<Symbol>,
}

impl View for Place {
    type V = PlaceView;

    open spec fn view(&self) -> PlaceView {
        PlaceView { root: self.root, tail: self.tail@, name: self.name, names: self.names@ }
    }
}

pub open spec fn root_of(res: Res) -> Option<Root> {
    match res {
        Res::Local(id) => Some(Root::Local(id)),
        Res::Def(_, d) => Some(Root::Item(d)),
        Res::Other => None,
    }
}

/// The place an expression denotes: a local or item at the root, then fields,
/// zero-argument accessors and earlier indices. Borrows, derefs and
/// temporaries are transparent.
pub open spec fn denoted(defs: Definitions, e: Expr) -> Option<PlaceView>
    decreases e,
{
    match e.kind {
        ExprKind::AddrOf(_, _, inner) => denoted(defs, *inner),
        ExprKind::Unary(UnOp::Deref, inner) => denoted(defs, *inner),
        ExprKind::DropTemps(inner) => denoted(defs, *inner),
        ExprKind::Field(inner, name) => match denoted(defs, *inner) {
            Some(p) => Some(
                PlaceView {
                    tail: p.tail + "."@ + defs.text(name),
                    names: p.names.push(name),
                    ..p
                },
            ),
            None => None,
        },
        ExprKind::Index(inner, _) => match denoted(defs, *inner) {
            Some(p) => Some(PlaceView { tail: p.tail + "[..]"@, ..p }),
            None => None,
        },
        ExprKind::MethodCall(name, recv, args) => if args@.len() == 0 {
            match denoted(defs, *recv) {
                Some(p) => if is_view(defs.text(name)) {
                    Some(p)
                } else {
                    Some(
                        PlaceView {
                            tail: p.tail + "."@ + defs.text(name) + "()"@,
                            names: p.names.push(name),
                            ..p
                        },
                    )
                },
                None => None,
            }
        } else {
            None
        },
        ExprKind::Path(p) => match root_of(p.res) {
            Some(root) => if p.segments@.len() > 0 {
                Some(
                    PlaceView {
                        root,
                        tail: ""@,
                        name: p.segments@.last(),
                        names: seq![p.segments@.last()],
                    },
                )
            } else {
                None
            },
            None => None,
        },
        _ => None,
    }
}

pub fn place_of(defs: &Definitions, e: &Expr) -> (r: Option<Place>)
    ensures
        match r {
            Some(p) => denoted(*defs, *e) == Some(p@),
            None => denoted(*defs, *e) is None,
        },
    decreases e,
{
    match &e.kind {
        ExprKind::AddrOf(_, _, inner) => place_of(defs, inner),
        ExprKind::Unary(UnOp::Deref, inner) => place_of(defs, inner),
        ExprKind::DropTemps(inner) => place_of(defs, inner),
        ExprKind::Field(inner, name) => match place_of(defs, inner) {
            Some(p) => {
                let mut tail = p.tail;
                tail.append(".");
                tail.append(defs.text_of(*name));
                let mut names = p.names;
                names.push(*name);
                Some(Place { root: p.root, tail, name: p.name, names })
            },
            None => None,
        },
        ExprKind::Index(inner, _) => match place_of(defs, inner) {
            Some(p) => {
                let mut tail = p.tail;
                tail.append("[..]");
                Some(Place { root: p.root, tail, name: p.name, names: p.names })
            },
            None => None,
        },
        ExprKind::MethodCall(name, recv, args) => {
            if args.len() != 0 {
                return None;
            }
            match place_of(defs, recv) {
                Some(p) => {
                    if exposes(defs.text_of(*name)) {
                        return Some(p);
                    }
                    let mut tail = p.tail;
                    tail.append(".");
                    tail.append(defs.text_of(*name));
                    tail.append("()");
                    let mut names = p.names;
                    names.push(*name);
                    Some(Place { root: p.root, tail, name: p.name, names })
                },
                None => None,
            }
        },
        ExprKind::Path(p) => {
            let root = match p.res {
                Res::Local(id) => Root::Local(id),
                Res::Def(_, d) => Root::Item(d),
                Res::Other => {
                    return None;
                },
            };
            if p.segments.len() == 0 {
                return None;
            }
            let name = p.segments[p.segments.len() - 1];
            let mut names: Vec<Symbol> = Vec::new();
            names.push(name);
            assert(names@ =~= seq![name]);
            Some(Place { root, tail: String::from_str(""), name, names })
        },
        _ => None,
    }
}

/// The place as it reads in the source.
pub open spec fn shown(defs: Definitions, p: PlaceView) -> Seq<char> {
    defs.text(p.name) + p.tail
}

/// Some name along the place is the table of the kind.
pub open spec fn named_after(defs: Definitions, p: PlaceView, kind: Seq<char>) -> bool {
    exists|i: int| 0 <= i < p.names.len() && one_kind(defs.text(#[trigger] p.names[i]), kind)
}

fn is_named_after(defs: &Definitions, p: &Place, kind: &str) -> (r: bool)
    ensures
        r == named_after(*defs, p@, kind@),
{
    let mut i: usize = 0;
    while i < p.names.len()
        invariant
            i <= p.names@.len(),
            forall|j: int|
                0 <= j < i ==> !one_kind(defs.text(#[trigger] p.names@[j]), kind@),
        decreases p.names.len() - i,
    {
        if same_kind(defs.text_of(p.names[i]), kind) {
            assert(one_kind(defs.text(p@.names[i as int]), kind@));
            return true;
        }
        i = i + 1;
    }
    false
}

/// `base[idx]`, `base.get(idx)` and its relatives.
pub open spec fn indexing(defs: Definitions, e: Expr) -> Option<(Expr, Expr)> {
    match e.kind {
        ExprKind::Index(base, idx) => Some((*base, *idx)),
        ExprKind::MethodCall(name, recv, args) => if args@.len() == 1 && (defs.text(name)
            == "get"@ || defs.text(name) == "get_mut"@ || defs.text(name) == "get_unchecked"@
            || defs.text(name) == "get_unchecked_mut"@) {
            Some((*recv, args@[0]))
        } else {
            None
        },
        _ => None,
    }
}

fn index_parts<'a>(defs: &Definitions, e: &'a Expr) -> (r: Option<(&'a Expr, &'a Expr)>)
    ensures
        match r {
            Some(p) => indexing(*defs, *e) == Some((*p.0, *p.1)),
            None => indexing(*defs, *e) is None,
        },
{
    match &e.kind {
        ExprKind::Index(base, idx) => Some((&**base, &**idx)),
        ExprKind::MethodCall(name, recv, args) => if args.len() == 1 && (defs.reads(
            *name,
            "get",
        ) || defs.reads(*name, "get_mut") || defs.reads(*name, "get_unchecked") || defs.reads(
            *name,
            "get_unchecked_mut",
        )) {
            Some((&**recv, &args[0]))
        } else {
            None
        },
        _ => None,
    }
}

// ---------------------------------------------------------------- sites

/// An index by a name that claims a kind.
#[derive(Debug)]
pub struct Site {
    pub place: usize,
    pub kind: String,
    pub name: Symbol,
    pub span: Span,
}

pub struct SiteView {
    pub place: int,
    pub kind: Seq<char>,
    pub name: Symbol,
    pub span: Span,
}

impl View for Site {
    type V = SiteView;

    open spec fn view(&self) -> SiteView {
        SiteView {
            place: self.place as int,
            kind: self.kind@,
            name: self.name,
            span: self.span,
        }
    }
}

/// The places a body indexes, each once, and the sites that index them.
pub struct Sites {
    pub places: Seq<PlaceView>,
    pub sites: Seq<SiteView>,
}

/// The place's number, from `k` on.
pub open spec fn number_of(places: Seq<PlaceView>, p: PlaceView, k: int) -> Option<int>
    decreases places.len() - k,
{
    if k >= places.len() {
        None
    } else if places[k].root == p.root && places[k].tail == p.tail {
        Some(k)
    } else {
        number_of(places, p, k + 1)
    }
}

/// With one more expression.
pub open spec fn with_site(defs: Definitions, s: Sites, e: Expr) -> Sites {
    match indexing(defs, e) {
        Some((base, idx)) => match (spelled_name(idx), denoted(defs, base)) {
            (Some(name), Some(place)) => match kind_claimed(defs.text(name)) {
                Some(kind) => if e.origin.from_expansion {
                    s
                } else {
                    match number_of(s.places, place, 0) {
                        Some(n) => Sites {
                            sites: s.sites.push(
                                SiteView { place: n, kind, name, span: e.span },
                            ),
                            ..s
                        },
                        None => Sites {
                            places: s.places.push(place),
                            sites: s.sites.push(
                                SiteView {
                                    place: s.places.len() as int,
                                    kind,
                                    name,
                                    span: e.span,
                                },
                            ),
                        },
                    }
                },
                None => s,
            },
            _ => s,
        },
        None => s,
    }
}

/// The sites among the first `k` expressions.
pub open spec fn sites_in(defs: Definitions, es: Seq<Expr>, k: int) -> Sites
    decreases k,
{
    if k <= 0 {
        Sites { places: Seq::empty(), sites: Seq::empty() }
    } else {
        with_site(defs, sites_in(defs, es, k - 1), es[k - 1])
    }
}

/// The site indexes the place by the kind.
pub open spec fn is_at(s: SiteView, place: int, kind: Seq<char>) -> bool {
    s.place == place && s.kind == kind
}

/// How often the kind indexes the place.
pub open spec fn uses(sites: Seq<SiteView>, place: int, kind: Seq<char>) -> nat
    decreases sites.len(),
{
    if sites.len() == 0 {
        0
    } else {
        uses(sites.drop_last(), place, kind) + if is_at(sites.last(), place, kind) {
            1nat
        } else {
            0nat
        }
    }
}

/// The first site from `k` on at which the kind indexes the place.
pub open spec fn first_use(
    sites: Seq<SiteView>,
    place: int,
    kind: Seq<char>,
    k: int,
) -> Option<int>
    decreases sites.len() - k,
{
    if k >= sites.len() {
        None
    } else if is_at(sites[k], place, kind) {
        Some(k)
    } else {
        first_use(sites, place, kind, k + 1)
    }
}

/// The first site of one kind on a place comes before that of another: the
/// more used kind first, then the one introduced earlier.
pub open spec fn ranks_before(sites: Seq<SiteView>, i: int, j: int) -> bool {
    let m = uses(sites, sites[i].place, sites[i].kind);
    let n = uses(sites, sites[j].place, sites[j].kind);
    m > n || (m == n && (sites[i].span.lo < sites[j].span.lo || (sites[i].span.lo
        == sites[j].span.lo && i < j)))
}

/// The lowest-numbered place from `p` on that is the kind's own table and that
/// the other kind never indexes.
pub open spec fn home(
    defs: Definitions,
    s: Sites,
    kind: Seq<char>,
    other: Seq<char>,
    p: int,
) -> Option<int>
    decreases s.places.len() - p,
{
    if p >= s.places.len() {
        None
    } else if first_use(s.sites, p, kind, 0) is Some && first_use(s.sites, p, other, 0) is None
        && named_after(defs, s.places[p], kind) {
        Some(p)
    } else {
        home(defs, s, kind, other, p + 1)
    }
}

/// Site `j` is the first of a kind that claims the place of the kind whose
/// first site is `i`.
pub open spec fn rivals(defs: Definitions, s: Sites, i: int, j: int) -> bool {
    &&& s.sites[j].place == s.sites[i].place
    &&& first_use(s.sites, s.sites[j].place, s.sites[j].kind, 0) == Some(j)
    &&& ranks_before(s.sites, j, i)
    &&& !one_kind(s.sites[j].kind, s.sites[i].kind)
    &&& home(defs, s, s.sites[i].kind, s.sites[j].kind, 0) is Some
}

/// The best-ranked rival among the first `k` sites.
pub open spec fn rival(defs: Definitions, s: Sites, i: int, k: int) -> Option<int>
    decreases k,
{
    if k <= 0 {
        None
    } else {
        let before = rival(defs, s, i, k - 1);
        if rivals(defs, s, i, k - 1) {
            match before {
                Some(b) => if ranks_before(s.sites, k - 1, b) {
                    Some(k - 1)
                } else {
                    Some(b)
                },
                None => Some(k - 1),
            }
        } else {
            before
        }
    }
}

pub open spec fn crossing_message(
    defs: Definitions,
    s: Sites,
    i: int,
    major: int,
    at_home: int,
) -> Seq<char> {
    let site = s.sites[i];
    let n = uses(s.sites, s.sites[major].place, s.sites[major].kind);
    "`"@ + shown(defs, s.places[site.place]) + "` is indexed by `"@ + defs.text(site.name)
        + "` here but by `"@ + defs.text(s.sites[major].name)
        + "` elsewhere in this function ("@ + decimal(n) + " site"@ + (if n == 1 {
        ""@
    } else {
        "s"@
    }) + "), while `"@ + defs.text(site.name) + "` is what indexes `"@ + shown(
        defs,
        s.places[at_home],
    )
        + "`: the names claim different index kinds and both are plain integers, so the crossing compiles"@
}

/// What the lint says of a site.
pub open spec fn site_finding(defs: Definitions, s: Sites, i: int) -> Option<FindingView> {
    let site = s.sites[i];
    match first_use(s.sites, site.place, site.kind, 0) {
        Some(f) => if named_after(defs, s.places[site.place], site.kind) {
            None
        } else {
            match rival(defs, s, f, s.sites.len() as int) {
                Some(major) => Some(
                    noted(
                        Lint::CrossedIndex,
                        site.span,
                        crossing_message(
                            defs,
                            s,
                            i,
                            major,
                            home(defs, s, site.kind, s.sites[major].kind, 0)->Some_0,
                        ),
                        s.sites[major].span,
                        "indexed by the other kind here"@,
                        "an index newtype per table, with `Index` implemented only for its own, turns the crossing into a type error"@,
                    ),
                ),
                None => None,
            }
        },
        None => None,
    }
}

pub open spec fn site_findings(defs: Definitions, s: Sites, k: int) -> Seq<FindingView>
    decreases k,
{
    if k <= 0 {
        Seq::empty()
    } else {
        let before = site_findings(defs, s, k - 1);
        match site_finding(defs, s, k - 1) {
            Some(f) => before.push(f),
            None => before,
        }
    }
}

/// What the lint says of a body, in source order.
pub open spec fn crossings(defs: Definitions, body: Expr) -> Seq<FindingView> {
    let es = walk(body, false);
    let s = sites_in(defs, es, es.len() as int);
    by_position(site_findings(defs, s, s.sites.len() as int))
}

// ---------------------------------------------------------------- running it

pub open spec fn place_views(v: Seq<Place>) -> Seq<PlaceView> {
    v.map_values(|p: Place| p@)
}

pub open spec fn site_views(v: Seq<Site>) -> Seq<SiteView> {
    v.map_values(|s: Site| s@)
}

/// Sites refer to places there are.
spec fn places_exist(s: Sites) -> bool {
    forall|i: int| 0 <= i < s.sites.len() ==> 0 <= (#[trigger] s.sites[i]).place < s.places.len()
}

fn find_number(places: &Vec<Place>, p: &Place) -> (r: Option<usize>)
    ensures
        match r {
            Some(k) => k < places@.len() && number_of(place_views(places@), p@, 0) == Some(
                k as int,
            ),
            None => number_of(place_views(places@), p@, 0) is None,
        },
{
    let ghost v = place_views(places@);
    let mut k: usize = 0;
    while k < places.len()
        invariant
            k <= places@.len(),
            v == place_views(places@),
            number_of(v, p@, 0) == number_of(v, p@, k as int),
        decreases places.len() - k,
    {
        assert(v[k as int] == places@[k as int]@);
        if places[k].root == p.root && same(places[k].tail.as_str(), p.tail.as_str()) {
            return Some(k);
        }
        k = k + 1;
    }
    None
}

fn count_uses(sites: &Vec<Site>, place: usize, kind: &str) -> (r: usize)
    ensures
        r == uses(site_views(sites@), place as int, kind@),
{
    let ghost v = site_views(sites@);
    let mut n: usize = 0;
    let mut i: usize = 0;
    while i < sites.len()
        invariant
            i <= sites@.len(),
            v == site_views(sites@),
            n <= i,
            n == uses(v.take(i as int), place as int, kind@),
        decreases sites.len() - i,
    {
        assert(v.take(i + 1).drop_last() =~= v.take(i as int));
        assert(v[i as int] == sites@[i as int]@);
        if sites[i].place == place && same(sites[i].kind.as_str(), kind) {
            n = n + 1;
        }
        i = i + 1;
    }
    assert(v.take(i as int) =~= v);
    n
}

fn find_use(sites: &Vec<Site>, place: usize, kind: &str) -> (r: Option<usize>)
    ensures
        match r {
            Some(k) => k < sites@.len() && first_use(
                site_views(sites@),
                place as int,
                kind@,
                0,
            ) == Some(k as int),
            None => first_use(site_views(sites@), place as int, kind@, 0) is None,
        },
{
    let ghost v = site_views(sites@);
    let mut k: usize = 0;
    while k < sites.len()
        invariant
            k <= sites@.len(),
            v == site_views(sites@),
            first_use(v, place as int, kind@, 0) == first_use(v, place as int, kind@, k as int),
        decreases sites.len() - k,
    {
        assert(v[k as int] == sites@[k as int]@);
        if sites[k].place == place && same(sites[k].kind.as_str(), kind) {
            return Some(k);
        }
        k = k + 1;
    }
    None
}

fn comes_before(sites: &Vec<Site>, i: usize, j: usize) -> (r: bool)
    requires
        i < sites@.len(),
        j < sites@.len(),
    ensures
        r == ranks_before(site_views(sites@), i as int, j as int),
{
    let ghost v = site_views(sites@);
    assert(v[i as int] == sites@[i as int]@ && v[j as int] == sites@[j as int]@);
    let m: usize = count_uses(sites, sites[i].place, sites[i].kind.as_str());
    let n: usize = count_uses(sites, sites[j].place, sites[j].kind.as_str());
    let a: u32 = sites[i].span.lo;
    let b: u32 = sites[j].span.lo;
    m > n || (m == n && (a < b || (a == b && i < j)))
}

fn find_home(
    defs: &Definitions,
    places: &Vec<Place>,
    sites: &Vec<Site>,
    kind: &str,
    other: &str,
) -> (r: Option<usize>)
    ensures
        ({
            let s = Sites { places: place_views(places@), sites: site_views(sites@) };
            match r {
                Some(p) => p < places@.len() && home(*defs, s, kind@, other@, 0) == Some(p as int),
                None => home(*defs, s, kind@, other@, 0) is None,
            }
        }),
{
    let ghost s = Sites { places: place_views(places@), sites: site_views(sites@) };
    let mut p: usize = 0;
    while p < places.len()
        invariant
            p <= places@.len(),
            s == (Sites { places: place_views(places@), sites: site_views(sites@) }),
            home(*defs, s, kind@, other@, 0) == home(*defs, s, kind@, other@, p as int),
        decreases places.len() - p,
    {
        assert(s.places[p as int] == places@[p as int]@);
        if find_use(sites, p, kind).is_some() && find_use(sites, p, other).is_none()
            && is_named_after(defs, &places[p], kind) {
            return Some(p);
        }
        p = p + 1;
    }
    None
}

fn find_rival(
    defs: &Definitions,
    places: &Vec<Place>,
    sites: &Vec<Site>,
    i: usize,
) -> (r: Option<usize>)
    requires
        i < sites@.len(),
    ensures
        ({
            let s = Sites { places: place_views(places@), sites: site_views(sites@) };
            match r {
                Some(k) => k < sites@.len() && rival(*defs, s, i as int, sites@.len() as int)
                    == Some(k as int) && home(*defs, s, s.sites[i as int].kind, s.sites[k as int].kind, 0)
                    is Some,
                None => rival(*defs, s, i as int, sites@.len() as int) is None,
            }
        }),
{
    let ghost s = Sites { places: place_views(places@), sites: site_views(sites@) };
    let mut best: Option<usize> = None;
    let mut k: usize = 0;
    while k < sites.len()
        invariant
            k <= sites@.len(),
            i < sites@.len(),
            s == (Sites { places: place_views(places@), sites: site_views(sites@) }),
            match best {
                Some(b) => b < k && rival(*defs, s, i as int, k as int) == Some(b as int) && home(
                    *defs,
                    s,
                    s.sites[i as int].kind,
                    s.sites[b as int].kind,
                    0,
                ) is Some,
                None => rival(*defs, s, i as int, k as int) is None,
            },
        decreases sites.len() - k,
    {
        assert(s.sites[k as int] == sites@[k as int]@);
        assert(s.sites[i as int] == sites@[i as int]@);
        let first = match find_use(sites, sites[k].place, sites[k].kind.as_str()) {
            Some(f) => f == k,
            None => false,
        };
        if sites[k].place == sites[i].place && first && comes_before(sites, k, i) && !same_kind(
            sites[k].kind.as_str(),
            sites[i].kind.as_str(),
        ) && find_home(
            defs,
            places,
            sites,
            sites[i].kind.as_str(),
            sites[k].kind.as_str(),
        ).is_some() {
            assert(rivals(*defs, s, i as int, k as int));
            match best {
                Some(b) => {
                    if comes_before(sites, k, b) {
                        best = Some(k);
                    }
                },
                None => {
                    best = Some(k);
                },
            }
        } else {
            assert(!rivals(*defs, s, i as int, k as int));
        }
        k = k + 1;
    }
    best
}

fn add_finding(
    defs: &Definitions,
    places: &Vec<Place>,
    sites: &Vec<Site>,
    i: usize,
    out: &mut Vec<Finding>,
)
    requires
        i < sites@.len(),
        places_exist((Sites { places: place_views(places@), sites: site_views(sites@) })),
    ensures
        ({
            let s = Sites { places: place_views(places@), sites: site_views(sites@) };
            match site_finding(*defs, s, i as int) {
                Some(f) => views(final(out)@) == views(old(out)@).push(f),
                None => views(final(out)@) == views(old(out)@),
            }
        }),
{
    let ghost s = Sites { places: place_views(places@), sites: site_views(sites@) };
    let site = &sites[i];
    assert(s.sites[i as int] == site@);
    assert(s.sites[i as int].place < s.places.len());
    assert(s.places[site.place as int] == places@[site.place as int]@);
    let kind = site.kind.as_str();
    let first: usize = match find_use(sites, site.place, kind) {
        Some(f) => f,
        None => {
            return;
        },
    };
    if is_named_after(defs, &places[site.place], kind) {
        return;
    }
    let major: usize = match find_rival(defs, places, sites, first) {
        Some(m) => m,
        None => {
            return;
        },
    };
    proof {
        lemma_first_use_is(s.sites, site.place as int, kind@, 0);
        assert(s.sites[first as int].kind == kind@);
        assert(s.sites[major as int] == sites@[major as int]@);
    }
    let other = &sites[major];
    let at_home: usize = match find_home(defs, places, sites, kind, other.kind.as_str()) {
        Some(p) => p,
        None => {
            return;
        },
    };
    assert(s.places[at_home as int] == places@[at_home as int]@);
    let n: usize = count_uses(sites, other.place, other.kind.as_str());
    let mut here = String::from_str(defs.text_of(places[site.place].name));
    here.append(places[site.place].tail.as_str());
    let mut there = String::from_str(defs.text_of(places[at_home].name));
    there.append(places[at_home].tail.as_str());
    let mut msg = String::from_str("`");
    msg.append(here.as_str());
    msg.append("` is indexed by `");
    msg.append(defs.text_of(site.name));
    msg.append("` here but by `");
    msg.append(defs.text_of(other.name));
    msg.append("` elsewhere in this function (");
    msg.append(number(n as u128).as_str());
    msg.append(" site");
    msg.append(
        if n == 1 {
            ""
        } else {
            "s"
        },
    );
    msg.append("), while `");
    msg.append(defs.text_of(site.name));
    msg.append("` is what indexes `");
    msg.append(there.as_str());
    msg.append(
        "`: the names claim different index kinds and both are plain integers, so the crossing compiles",
    );
    emit_with_note(
        out,
        Lint::CrossedIndex,
        site.span,
        msg,
        other.span,
        "indexed by the other kind here",
        "an index newtype per table, with `Index` implemented only for its own, turns the crossing into a type error",
    );
}

proof fn lemma_first_use_is(sites: Seq<SiteView>, place: int, kind: Seq<char>, k: int)
    requires
        0 <= k,
    ensures
        first_use(sites, place, kind, k) matches Some(f) ==> k <= f < sites.len() && is_at(
            sites[f],
            place,
            kind,
        ),
    decreases sites.len() - k,
{
    if k < sites.len() && !is_at(sites[k], place, kind) {
        lemma_first_use_is(sites, place, kind, k + 1);
    }
}

/// What the lint says of a body, in source order.
pub fn check_body(defs: &Definitions, body: &Expr) -> (r: Vec<Finding>)
    ensures
        views(r@) == crossings(*defs, *body),
{
    let es = walked(body, false);
    let ghost all = walk(*body, false);
    let mut places: Vec<Place> = Vec::new();
    let mut sites: Vec<Site> = Vec::new();
    let mut i: usize = 0;
    assert(place_views(places@) =~= Seq::<PlaceView>::empty());
    assert(site_views(sites@) =~= Seq::<SiteView>::empty());
    while i < es.len()
        invariant
            i <= es@.len(),
            targets(es@) == all,
            place_views(places@) == sites_in(*defs, all, i as int).places,
            site_views(sites@) == sites_in(*defs, all, i as int).sites,
            places_exist(sites_in(*defs, all, i as int)),
        decreases es.len() - i,
    {
        let e = es[i];
        assert(all[i as int] == *e);
        let ghost before = sites_in(*defs, all, i as int);
        let ghost after = sites_in(*defs, all, i + 1);
        if !e.origin.from_expansion {
            match index_parts(defs, e) {
                Some((base, idx)) => {
                    match (value_name(idx), place_of(defs, base)) {
                        (Some(name), Some(place)) => {
                            match claimed_kind(defs.text_of(name)) {
                                Some(kind) => {
                                    let ghost k = kind@;
                                    let ghost pv = place@;
                                    let ghost was_places = places@;
                                    let ghost was_sites = sites@;
                                    assert(before.places.len() == places@.len());
                                    let n: usize = match find_number(&places, &place) {
                                        Some(n) => n,
                                        None => {
                                            let n: usize = places.len();
                                            places.push(place);
                                            assert(place_views(places@) =~= place_views(
                                                was_places,
                                            ).push(pv));
                                            n
                                        },
                                    };
                                    let site = Site { place: n, kind, name, span: e.span };
                                    let ghost sv = site@;
                                    sites.push(site);
                                    assert(site_views(sites@) =~= site_views(was_sites).push(sv));
                                    assert forall|j: int| 0 <= j < after.sites.len() implies 0 <= (
                                    #[trigger] after.sites[j]).place < after.places.len() by {
                                        if j < before.sites.len() {
                                            assert(after.sites[j] == before.sites[j]);
                                        }
                                    }
                                },
                                None => {},
                            }
                        },
                        _ => {},
                    }
                },
                None => {},
            }
        }
        i = i + 1;
    }
    assert(es@.len() == all.len());
    let ghost s = sites_in(*defs, all, all.len() as int);
    let mut out: Vec<Finding> = Vec::new();
    let mut k: usize = 0;
    assert(views(out@) =~= Seq::<FindingView>::empty());
    while k < sites.len()
        invariant
            k <= sites@.len(),
            s.places == place_views(places@),
            s.sites == site_views(sites@),
            places_exist(s),
            views(out@) == site_findings(*defs, s, k as int),
        decreases sites.len() - k,
    {
        add_finding(defs, &places, &sites, k, &mut out);
        k = k + 1;
    }
    assert(s.sites.len() == sites@.len());
    sort_by_position(out)
}

/// A place that only one kind indexes has no crossing.
pub proof fn lemma_one_kind_never_crosses(defs: Definitions, s: Sites, i: int)
    requires
        0 <= i < s.sites.len(),
        forall|j: int|
            0 <= j < s.sites.len() && (#[trigger] s.sites[j]).place == s.sites[i].place
                ==> s.sites[j].kind == s.sites[i].kind,
    ensures
        site_finding(defs, s, i) is None,
{
    lemma_first_use_is(s.sites, s.sites[i].place, s.sites[i].kind, 0);
    match first_use(s.sites, s.sites[i].place, s.sites[i].kind, 0) {
        Some(f) => {
            lemma_no_rival(defs, s, f, s.sites.len() as int);
        },
        None => {},
    }
}

proof fn lemma_no_rival(defs: Definitions, s: Sites, f: int, k: int)
    requires
        0 <= f < s.sites.len(),
        k <= s.sites.len(),
        forall|j: int|
            0 <= j < s.sites.len() && (#[trigger] s.sites[j]).place == s.sites[f].place
                ==> s.sites[j].kind == s.sites[f].kind,
    ensures
        rival(defs, s, f, k) is None,
    decreases k,
{
    if k > 0 {
        lemma_no_rival(defs, s, f, k - 1);
        if s.sites[k - 1].place == s.sites[f].place {
            lemma_kind_is_itself(s.sites[f].kind);
            assert(s.sites[k - 1].kind == s.sites[f].kind);
        }
    }
}

proof fn lemma_kind_is_itself(kind: Seq<char>)
    ensures
        one_kind(kind, kind),
{
    lemma_some_piece(kind);
    assert(alike(words(kind)[0], words(kind)[0]));
}

proof fn lemma_some_piece(s: Seq<char>)
    ensures
        pieces(s, '_').len() > 0,
    decreases s.len(),
{
    if s.len() > 0 {
        lemma_some_piece(s.drop_last());
    }
}

/// A name claims the kind in front of its `_index`, `_idx`, `_id` or `_i`.
pub proof fn lemma_suffix_claims_the_kind(kind: Seq<char>)
    requires
        kind.len() > 0,
    ensures
        kind_claimed(kind + "_index"@) == Some(kind),
        kind_claimed(kind + "_idx"@) == Some(kind),
        kind_claimed(kind + "_id"@) == Some(kind),
        kind_claimed(kind + "_i"@) == Some(kind),
        kind_claimed("_index"@) is None,
        kind_claimed("_i"@) is None,
{
    reveal_strlit("_index");
    reveal_strlit("_idx");
    reveal_strlit("_id");
    reveal_strlit("_i");
    let a = kind + "_index"@;
    let b = kind + "_idx"@;
    let c = kind + "_id"@;
    let d = kind + "_i"@;
    let none = Seq::<char>::empty();
    crate::text::lemma_suffix(a, "_index"@);
    crate::text::lemma_suffix(b, "_idx"@);
    crate::text::lemma_suffix(c, "_id"@);
    crate::text::lemma_suffix(d, "_i"@);
    assert(none + "_index"@ =~= "_index"@);
    assert(none + "_i"@ =~= "_i"@);
    crate::text::lemma_suffix("_index"@, "_index"@);
    crate::text::lemma_suffix("_i"@, "_i"@);
    lemma_other_ending(a, b, c, d, kind);
    assert(a.take(a.len() - 6) =~= kind);
    assert(b.take(b.len() - 4) =~= kind);
    assert(c.take(c.len() - 3) =~= kind);
    assert(d.take(d.len() - 2) =~= kind);
    assert(!has_suffix("_i"@, "_index"@));
    assert(!has_suffix("_i"@, "_idx"@));
    assert(!has_suffix("_i"@, "_id"@));
}

proof fn lemma_other_ending(
    a: Seq<char>,
    b: Seq<char>,
    c: Seq<char>,
    d: Seq<char>,
    kind: Seq<char>,
)
    requires
        a == kind + "_index"@,
        b == kind + "_idx"@,
        c == kind + "_id"@,
        d == kind + "_i"@,
    ensures
        !has_suffix(b, "_index"@),
        !has_suffix(c, "_index"@),
        !has_suffix(c, "_idx"@),
        !has_suffix(d, "_index"@),
        !has_suffix(d, "_idx"@),
        !has_suffix(d, "_id"@),
{
    reveal_strlit("_index");
    reveal_strlit("_idx");
    reveal_strlit("_id");
    reveal_strlit("_i");
    if has_suffix(b, "_index"@) {
        assert(b.subrange(b.len() - 6, b.len() as int)[4] == b[b.len() - 2]);
    }
    if has_suffix(c, "_index"@) {
        assert(c.subrange(c.len() - 6, c.len() as int)[5] == c[c.len() - 1]);
    }
    if has_suffix(c, "_idx"@) {
        assert(c.subrange(c.len() - 4, c.len() as int)[3] == c[c.len() - 1]);
    }
    if has_suffix(d, "_index"@) {
        assert(d.subrange(d.len() - 6, d.len() as int)[5] == d[d.len() - 1]);
    }
    if has_suffix(d, "_idx"@) {
        assert(d.subrange(d.len() - 4, d.len() as int)[3] == d[d.len() - 1]);
    }
    if has_suffix(d, "_id"@) {
        assert(d.subrange(d.len() - 3, d.len() as int)[2] == d[d.len() - 1]);
    }
}

/// A name with none of these endings claims no kind.
pub proof fn lemma_other_names_claim_nothing(name: Seq<char>)
    ensures
        kind_claimed(name) matches Some(kind) ==> kind.len() > 0 && (name == kind + "_index"@
            || name == kind + "_idx"@ || name == kind + "_id"@ || name == kind + "_i"@),
{
    reveal_strlit("_index");
    reveal_strlit("_idx");
    reveal_strlit("_id");
    reveal_strlit("_i");
    match kind_claimed(name) {
        Some(kind) => {
            if has_suffix(name, "_index"@) {
                assert(kind + "_index"@ =~= name);
            } else if has_suffix(name, "_idx"@) {
                assert(kind + "_idx"@ =~= name);
            } else if has_suffix(name, "_id"@) {
                assert(kind + "_id"@ =~= name);
            } else {
                assert(kind + "_i"@ =~= name);
            }
        },
        None => {},
    }
}

/// A word is inside another, letter by letter in order: what comes first in
/// both may be taken off, anything may be put in front of the long one, and
/// a longer word is in no shorter one.
pub proof fn lemma_letters_in_order(short: Seq<char>, long: Seq<char>, c: char, d: char)
    ensures
        in_sequence(seq![c] + short, seq![c] + long) == in_sequence(short, long),
        c != d ==> in_sequence(seq![c] + short, seq![d] + long) == in_sequence(
            seq![c] + short,
            long,
        ),
        in_sequence(Seq::empty(), long),
        short.len() > long.len() ==> !in_sequence(short, long),
    decreases long.len(),
{
    assert((seq![c] + short).drop_first() =~= short);
    assert((seq![c] + long).drop_first() =~= long);
    assert((seq![d] + long).drop_first() =~= long);
    if short.len() > long.len() && long.len() > 0 {
        lemma_letters_in_order(short.drop_first(), long.drop_first(), c, d);
        lemma_letters_in_order(short, long.drop_first(), c, d);
    }
}

/// A word abbreviates another if it has three letters at least, starts as it
/// does and its letters come in it in order; every word spells itself.
pub proof fn lemma_abbreviation(short: Seq<char>, long: Seq<char>)
    ensures
        spells(short, short),
        short.len() >= 3 && short.len() <= long.len() && short[0] == long[0] && in_sequence(
            short,
            long,
        ) ==> spells(short, long),
        short.len() < 3 && short != long ==> !spells(short, long),
        short.len() > long.len() ==> !spells(short, long),
        short.len() > 0 && long.len() > 0 && short[0] != long[0] ==> !spells(short, long),
        !in_sequence(short, long) && short != long ==> !spells(short, long),
        spells(short, long) || spells(long, short) ==> alike(short, long) && alike(long, short),
        !spells(short, long) && !spells(long, short) ==> !alike(short, long),
{
}

/// Plurals: `queries` is `query` (or `querie`), `boxes` is `box`, `rows` is
/// `row`, and a word that ends in two `s` is no plural.
pub proof fn lemma_plurals(stem: Seq<char>)
    ensures
        singular_of(stem + "ies"@) == stem.push('y'),
        other_singular(stem + "ies"@) == Some(stem + "ie"@),
        singular_of(stem + "shes"@) == stem + "sh"@,
        singular_of(stem + "ches"@) == stem + "ch"@,
        singular_of(stem + "xes"@) == stem + "x"@,
        singular_of(stem + "sses"@) == stem + "ss"@,
        singular_of(stem + "ss"@) == stem + "ss"@,
{
    reveal_strlit("ies");
    reveal_strlit("ie");
    reveal_strlit("shes");
    reveal_strlit("ches");
    reveal_strlit("xes");
    reveal_strlit("sses");
    reveal_strlit("sh");
    reveal_strlit("ch");
    reveal_strlit("x");
    reveal_strlit("ss");
    reveal_strlit("s");
    let i = stem + "ies"@;
    crate::text::lemma_suffix(i, "ies"@);
    assert(i.take(i.len() - 3) =~= stem);
    assert(stem.push('i').push('e') =~= stem + "ie"@);
    lemma_no_ies(stem + "shes"@);
    lemma_no_ies(stem + "ches"@);
    lemma_no_ies(stem + "xes"@);
    lemma_no_ies(stem + "sses"@);
    lemma_no_ies(stem + "ss"@);
    crate::text::lemma_suffix(stem + "shes"@, "shes"@);
    crate::text::lemma_suffix(stem + "ches"@, "ches"@);
    crate::text::lemma_suffix(stem + "xes"@, "xes"@);
    crate::text::lemma_suffix(stem + "sses"@, "sses"@);
    let n = stem.len() as int;
    assert((stem + "shes"@).take(n + 2) =~= stem + "sh"@);
    assert((stem + "ches"@).take(n + 2) =~= stem + "ch"@);
    assert((stem + "xes"@).take(n + 1) =~= stem + "x"@);
    assert((stem + "sses"@).take(n + 2) =~= stem + "ss"@);
    let w = stem + "ss"@;
    let one = w.take(w.len() - 1);
    assert(w[w.len() - 2] == 's' && w[w.len() - 1] == 's');
    crate::text::lemma_suffix(w, "s"@);
    assert(one + "s"@ =~= w);
    crate::text::lemma_suffix(one, "s"@);
    assert(one =~= stem + "s"@);
    lemma_no_es(w);
}

proof fn lemma_no_ies(w: Seq<char>)
    requires
        w.len() >= 2,
        w[w.len() - 2] != 'e' || (w.len() >= 3 && w[w.len() - 3] != 'i'),
    ensures
        !has_suffix(w, "ies"@),
{
    reveal_strlit("ies");
    if has_suffix(w, "ies"@) {
        let t = w.subrange(w.len() - 3, w.len() as int);
        assert(t[1] == w[w.len() - 2] && t[0] == w[w.len() - 3]);
    }
}

proof fn lemma_no_es(w: Seq<char>)
    requires
        w.len() >= 2,
        w[w.len() - 2] != 'e',
    ensures
        !has_suffix(w, "shes"@) && !has_suffix(w, "ches"@) && !has_suffix(w, "xes"@)
            && !has_suffix(w, "sses"@),
{
    reveal_strlit("shes");
    reveal_strlit("ches");
    reveal_strlit("xes");
    reveal_strlit("sses");
    let n = w.len() as int;
    if has_suffix(w, "shes"@) {
        assert(w.subrange(n - 4, n)[2] == w[n - 2]);
    }
    if has_suffix(w, "ches"@) {
        assert(w.subrange(n - 4, n)[2] == w[n - 2]);
    }
    if has_suffix(w, "xes"@) {
        assert(w.subrange(n - 3, n)[1] == w[n - 2]);
    }
    if has_suffix(w, "sses"@) {
        assert(w.subrange(n - 4, n)[2] == w[n - 2]);
    }
}

/// An `s` behind a letter that is neither `s` nor `e` is a plural; a word that
/// ends in another letter is none.
pub proof fn lemma_plain_plural(stem: Seq<char>)
    requires
        stem.len() > 0,
    ensures
        stem.last() != 's' && stem.last() != 'e' ==> singular_of(stem.push('s')) == stem,
        stem.last() != 's' ==> singular_of(stem) == stem && other_singular(stem) is None,
{
    reveal_strlit("s");
    let w = stem.push('s');
    assert(stem + "s"@ =~= w);
    crate::text::lemma_suffix(w, "s"@);
    assert(w.take(w.len() - 1) =~= stem);
    if stem.last() != 's' {
        if has_suffix(stem, "s"@) {
            assert(stem.subrange(stem.len() - 1, stem.len() as int)[0] == stem.last());
        }
        lemma_no_s(stem);
        if stem.last() != 'e' {
            lemma_no_ies(w);
            lemma_no_es(w);
        }
    }
}

proof fn lemma_no_s(w: Seq<char>)
    requires
        w.len() > 0,
        w.last() != 's',
    ensures
        !has_suffix(w, "ies"@) && !has_suffix(w, "shes"@) && !has_suffix(w, "ches"@) && !has_suffix(
            w,
            "xes"@,
        ) && !has_suffix(w, "sses"@),
{
    reveal_strlit("ies");
    reveal_strlit("shes");
    reveal_strlit("ches");
    reveal_strlit("xes");
    reveal_strlit("sses");
    let n = w.len() as int;
    if has_suffix(w, "ies"@) {
        assert(w.subrange(n - 3, n)[2] == w[n - 1]);
    }
    if has_suffix(w, "shes"@) {
        assert(w.subrange(n - 4, n)[3] == w[n - 1]);
    }
    if has_suffix(w, "ches"@) {
        assert(w.subrange(n - 4, n)[3] == w[n - 1]);
    }
    if has_suffix(w, "xes"@) {
        assert(w.subrange(n - 3, n)[2] == w[n - 1]);
    }
    if has_suffix(w, "sses"@) {
        assert(w.subrange(n - 4, n)[3] == w[n - 1]);
    }
}

/// Borrows, derefs and the methods that only look at the same values
/// differently denote the place they are applied to; a field or another method
/// without arguments is a place of its own under it.
pub proof fn lemma_views_denote_the_place(defs: Definitions, e: Expr, inner: Expr, name: Symbol)
    ensures
        (e.kind matches ExprKind::AddrOf(_, _, x) && *x == inner) || e.kind == ExprKind::Unary(
            UnOp::Deref,
            Box::new(inner),
        ) || (e.kind matches ExprKind::MethodCall(n, x, args) && *x == inner && args@.len() == 0 && (
        defs.text(n) == "as_slice"@ || defs.text(n) == "as_mut_slice"@ || defs.text(n) == "slice"@
            || defs.text(n) == "slice_mut"@ || defs.text(n) == "as_ref"@ || defs.text(n)
            == "as_mut"@ || defs.text(n) == "borrow"@ || defs.text(n) == "borrow_mut"@
            || defs.text(n) == "deref"@ || defs.text(n) == "deref_mut"@ || defs.text(n) == "iter"@
            || defs.text(n) == "iter_mut"@ || defs.text(n) == "unwrap"@)) ==> denoted(defs, e)
            == denoted(defs, inner),
        e.kind == ExprKind::Field(Box::new(inner), name) ==> (denoted(
            defs,
            inner,
        ) matches Some(p) ==> (denoted(defs, e) matches Some(q) && q.root == p.root && q.name
            == p.name && q.tail == p.tail + "."@ + defs.text(name) && q.names == p.names.push(
            name,
        ))),
        (e.kind matches ExprKind::Index(x, _) && *x == inner) ==> (denoted(
            defs,
            inner,
        ) matches Some(p) ==> (denoted(defs, e) matches Some(q) && q.root == p.root && q.names
            == p.names && q.tail == p.tail + "[..]"@)),
        (e.kind matches ExprKind::MethodCall(_, _, args) && args@.len() > 0) ==> denoted(defs, e)
            is None,
        e.kind is Call || e.kind is Lit || e.kind is Binary ==> denoted(defs, e) is None,
{
}

/// A path denotes the local or the item it resolves to.
pub proof fn lemma_path_denotes_its_root(defs: Definitions, e: Expr, id: HirId, d: DefId)
    requires
        e.kind matches ExprKind::Path(p) && p.segments@.len() > 0,
    ensures
        e.kind->Path_0.res == Res::Local(id) ==> (denoted(defs, e) matches Some(p) && p.root
            == Root::Local(id) && p.names == seq![e.kind->Path_0.segments@.last()]),
        e.kind->Path_0.res matches Res::Def(_, x) ==> (denoted(defs, e) matches Some(p) && p.root
            == Root::Item(x)),
        e.kind->Path_0.res is Other ==> denoted(defs, e) is None,
{
}

/// `base[idx]` and the `get` family index; the last name of the index claims
/// its kind, and the site is on record with the place it indexes.
pub proof fn lemma_indexing_is_recorded(
    defs: Definitions,
    s: Sites,
    e: Expr,
    base: Expr,
    idx: Expr,
    name: Symbol,
    kind: Seq<char>,
    place: PlaceView,
)
    requires
        e.kind == ExprKind::Index(Box::new(base), Box::new(idx)) || (
        e.kind matches ExprKind::MethodCall(n, r, args) && *r == base && args@.len() == 1 && args@[0]
            == idx && (defs.text(n) == "get"@ || defs.text(n) == "get_mut"@ || defs.text(n)
            == "get_unchecked"@ || defs.text(n) == "get_unchecked_mut"@)),
        spelled_name(idx) == Some(name),
        kind_claimed(defs.text(name)) == Some(kind),
        denoted(defs, base) == Some(place),
    ensures
        e.origin.from_expansion ==> with_site(defs, s, e) == s,
        !e.origin.from_expansion ==> ({
            let t = with_site(defs, s, e);
            let site = t.sites[s.sites.len() as int];
            &&& t.sites.len() == s.sites.len() + 1
            &&& site.kind == kind && site.name == name && site.span == e.span
            &&& 0 <= site.place < t.places.len()
            &&& t.places[site.place].root == place.root && t.places[site.place].tail == place.tail
            &&& forall|i: int| 0 <= i < s.sites.len() ==> #[trigger] t.sites[i] == s.sites[i]
            &&& forall|i: int| 0 <= i < s.places.len() ==> #[trigger] t.places[i] == s.places[i]
        }),
{
    lemma_number_of(s.places, place, 0);
}

proof fn lemma_number_of(places: Seq<PlaceView>, p: PlaceView, k: int)
    requires
        0 <= k,
    ensures
        number_of(places, p, k) matches Some(n) ==> k <= n < places.len() && places[n].root
            == p.root && places[n].tail == p.tail,
        number_of(places, p, k) is None ==> forall|i: int|
            k <= i < places.len() ==> (#[trigger] places[i]).root != p.root || places[i].tail
                != p.tail,
    decreases places.len() - k,
{
    if k < places.len() {
        lemma_number_of(places, p, k + 1);
    }
}

/// One place is one place: it is not listed twice.
pub proof fn lemma_places_stay_apart(defs: Definitions, s: Sites, e: Expr)
    requires
        apart(s.places),
    ensures
        apart(with_site(defs, s, e).places),
{
    match indexing(defs, e) {
        Some((base, idx)) => match denoted(defs, base) {
            Some(place) => {
                lemma_number_of(s.places, place, 0);
            },
            None => {},
        },
        None => {},
    }
}

/// No two of the places are one.
pub open spec fn apart(places: Seq<PlaceView>) -> bool {
    forall|i: int, j: int|
        0 <= i < j < places.len() ==> (#[trigger] places[i]).root != (#[trigger] places[j]).root
            || places[i].tail != places[j].tail
}

proof fn lemma_first_use_found(
    sites: Seq<SiteView>,
    place: int,
    kind: Seq<char>,
    k: int,
    i: int,
)
    requires
        0 <= k <= i < sites.len(),
        is_at(sites[i], place, kind),
    ensures
        first_use(sites, place, kind, k) matches Some(f) && k <= f <= i,
    decreases sites.len() - k,
{
    if !is_at(sites[k], place, kind) {
        lemma_first_use_found(sites, place, kind, k + 1, i);
    }
}

/// Some site indexes the place by the kind.
pub open spec fn indexed_by(sites: Seq<SiteView>, place: int, kind: Seq<char>) -> bool {
    exists|i: int| 0 <= i < sites.len() && is_at(#[trigger] sites[i], place, kind)
}

proof fn lemma_indexed_by(sites: Seq<SiteView>, place: int, kind: Seq<char>)
    ensures
        first_use(sites, place, kind, 0) is Some <==> indexed_by(sites, place, kind),
{
    lemma_first_use_is(sites, place, kind, 0);
    if indexed_by(sites, place, kind) {
        let i = choose|i: int| 0 <= i < sites.len() && is_at(#[trigger] sites[i], place, kind);
        lemma_first_use_found(sites, place, kind, 0, i);
    }
    match first_use(sites, place, kind, 0) {
        Some(f) => {
            assert(is_at(sites[f], place, kind));
        },
        None => {},
    }
}

/// The place is where the kind belongs: the one kind indexes it, the other
/// does not, and it is named after it.
pub open spec fn belongs(
    defs: Definitions,
    s: Sites,
    kind: Seq<char>,
    other: Seq<char>,
    p: int,
) -> bool {
    indexed_by(s.sites, p, kind) && !indexed_by(s.sites, p, other) && named_after(
        defs,
        s.places[p],
        kind,
    )
}

proof fn lemma_home(defs: Definitions, s: Sites, kind: Seq<char>, other: Seq<char>, from: int)
    requires
        0 <= from,
    ensures
        home(defs, s, kind, other, from) is Some <==> exists|p: int|
            from <= p < s.places.len() && #[trigger] belongs(defs, s, kind, other, p),
    decreases s.places.len() - from,
{
    if from < s.places.len() {
        lemma_home(defs, s, kind, other, from + 1);
        lemma_indexed_by(s.sites, from, kind);
        lemma_indexed_by(s.sites, from, other);
        if belongs(defs, s, kind, other, from) {
            assert(home(defs, s, kind, other, from) is Some);
        }
        if home(defs, s, kind, other, from + 1) is Some {
            let p = choose|p: int|
                from + 1 <= p < s.places.len() && #[trigger] belongs(defs, s, kind, other, p);
            assert(belongs(defs, s, kind, other, p));
        }
        if exists|p: int|
            from <= p < s.places.len() && #[trigger] belongs(defs, s, kind, other, p) {
            let p = choose|p: int|
                from <= p < s.places.len() && #[trigger] belongs(defs, s, kind, other, p);
            if p > from {
                assert(belongs(defs, s, kind, other, p));
            }
        }
    }
}

proof fn lemma_rival(defs: Definitions, s: Sites, i: int, k: int)
    requires
        0 <= k <= s.sites.len(),
    ensures
        rival(defs, s, i, k) is Some <==> exists|j: int|
            0 <= j < k && #[trigger] rivals(defs, s, i, j),
        rival(defs, s, i, k) matches Some(j) ==> 0 <= j < k && rivals(defs, s, i, j),
    decreases k,
{
    if k > 0 {
        lemma_rival(defs, s, i, k - 1);
        if rival(defs, s, i, k - 1) is Some {
            let j = choose|j: int| 0 <= j < k - 1 && #[trigger] rivals(defs, s, i, j);
            assert(rivals(defs, s, i, j));
        }
        if exists|j: int| 0 <= j < k && #[trigger] rivals(defs, s, i, j) {
            let j = choose|j: int| 0 <= j < k && #[trigger] rivals(defs, s, i, j);
            if j < k - 1 {
                assert(rivals(defs, s, i, j));
            }
        }
    }
}

/// A use more is counted once, where it is.
pub proof fn lemma_uses_are_counted(
    sites: Seq<SiteView>,
    s: SiteView,
    place: int,
    kind: Seq<char>,
)
    ensures
        uses(sites.push(s), place, kind) == uses(sites, place, kind) + if s.place == place
            && s.kind == kind {
            1nat
        } else {
            0nat
        },
        uses(Seq::empty(), place, kind) == 0,
{
    assert(sites.push(s).drop_last() =~= sites);
}

/// A place that one kind indexes more often, and another kind, which does not
/// name it and belongs to a place of its own, indexes here, is crossed here.
pub proof fn lemma_crossing_is_reported(
    defs: Definitions,
    s: Sites,
    i: int,
    j: int,
    p: int,
)
    requires
        0 <= i < s.sites.len(),
        0 <= j < s.sites.len(),
        s.sites[i].place == s.sites[j].place,
        uses(s.sites, s.sites[j].place, s.sites[j].kind) > uses(
            s.sites,
            s.sites[i].place,
            s.sites[i].kind,
        ),
        !one_kind(s.sites[j].kind, s.sites[i].kind),
        !named_after(defs, s.places[s.sites[i].place], s.sites[i].kind),
        0 <= p < s.places.len(),
        belongs(defs, s, s.sites[i].kind, s.sites[j].kind, p),
    ensures
        site_finding(defs, s, i) matches Some(f) && f.lint == Lint::CrossedIndex && f.at
            == s.sites[i].span,
{
    let place = s.sites[i].place;
    let kind = s.sites[i].kind;
    let other = s.sites[j].kind;
    lemma_first_use_found(s.sites, place, kind, 0, i);
    lemma_first_use_found(s.sites, place, other, 0, j);
    lemma_first_use_is(s.sites, place, kind, 0);
    lemma_first_use_is(s.sites, place, other, 0);
    let f = first_use(s.sites, place, kind, 0)->Some_0;
    let g = first_use(s.sites, place, other, 0)->Some_0;
    lemma_home(defs, s, kind, other, 0);
    assert(rivals(defs, s, f, g));
    lemma_rival(defs, s, f, s.sites.len() as int);
}

/// What is reported is crossed: some other kind indexes the place at least as
/// often, the two kinds are not one, the place is not named after this one, and
/// some other place is where it belongs.
pub proof fn lemma_reported_crossing_is_one(defs: Definitions, s: Sites, i: int)
    requires
        0 <= i < s.sites.len(),
        site_finding(defs, s, i) is Some,
    ensures
        !named_after(defs, s.places[s.sites[i].place], s.sites[i].kind),
        exists|j: int|
            0 <= j < s.sites.len() && #[trigger] s.sites[j].place == s.sites[i].place && uses(
                s.sites,
                s.sites[j].place,
                s.sites[j].kind,
            ) >= uses(s.sites, s.sites[i].place, s.sites[i].kind) && !one_kind(
                s.sites[j].kind,
                s.sites[i].kind,
            ) && exists|p: int|
                0 <= p < s.places.len() && #[trigger] belongs(
                    defs,
                    s,
                    s.sites[i].kind,
                    s.sites[j].kind,
                    p,
                ),
{
    let place = s.sites[i].place;
    let kind = s.sites[i].kind;
    lemma_first_use_is(s.sites, place, kind, 0);
    let f = first_use(s.sites, place, kind, 0)->Some_0;
    lemma_rival(defs, s, f, s.sites.len() as int);
    let j = rival(defs, s, f, s.sites.len() as int)->Some_0;
    lemma_home(defs, s, kind, s.sites[j].kind, 0);
    assert(s.sites[j].place == place);
}

proof fn lemma_site_said(defs: Definitions, s: Sites, k: int, i: int)
    requires
        0 <= i < k <= s.sites.len(),
        site_finding(defs, s, i) is Some,
    ensures
        site_findings(defs, s, k).contains(site_finding(defs, s, i)->Some_0),
    decreases k,
{
    let x = site_finding(defs, s, i)->Some_0;
    let all = site_findings(defs, s, k);
    let before = site_findings(defs, s, k - 1);
    if i == k - 1 {
        assert(all[all.len() - 1] == x);
    } else {
        lemma_site_said(defs, s, k - 1, i);
        let m = choose|m: int| 0 <= m < before.len() && before[m] == x;
        assert(all[m] == x);
    }
}

/// Every crossing of a body is among what the lint says of it.
pub proof fn lemma_every_crossing_is_told(defs: Definitions, body: Expr, i: int)
    requires
        ({
            let es = walk(body, false);
            let s = sites_in(defs, es, es.len() as int);
            0 <= i < s.sites.len() && site_finding(defs, s, i) is Some
        }),
    ensures
        ({
            let es = walk(body, false);
            let s = sites_in(defs, es, es.len() as int);
            crossings(defs, body).contains(site_finding(defs, s, i)->Some_0)
        }),
{
    let es = walk(body, false);
    let s = sites_in(defs, es, es.len() as int);
    let n = s.sites.len() as int;
    lemma_site_said(defs, s, n, i);
    crate::report::lemma_position_keeps(site_findings(defs, s, n));
}

} // verus!
