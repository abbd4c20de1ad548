//! Findings, and the orders they and the names in them are put in.

use crate::defs::Definitions;
use crate::ids::{DefId, HirId, Span};
use crate::text::{chars_of, join, joined, texts};
use vstd::prelude::*;
use vstd::string::*;

verus! {

/// Every lint of the pack.
#[derive(Clone, Copy, Debug, PartialEq, Eq, Structural)]
pub enum Lint {
    AsymmetricGuard,
    BoolBesideOption,
    BoolParams,
    BypassedConversion,
    BypassedValidator,
    CollapsedError,
    CrossedAlias,
    CrossedIndex,
    DefaultedFailure,
    DependentField,
    DiscardedError,
    ExclusiveOptions,
    FlagCluster,
    ForbiddenReach,
    GuardFlag,
    InsertThenUnwrap,
    LockOrder,
    MisboundArg,
    NarrowedReturn,
    NonidentityKey,
    OverwideParameter,
    ParallelBools,
    ParallelParams,
    ParallelVecs,
    PubInvariantFields,
    ReimplementedHelper,
    SameMatchTwice,
    SentinelInt,
    SomeIf,
    StaleAcrossReentry,
    StalePanicMessage,
    StaleSafetyComment,
    StoredProjection,
    StringifiedError,
    StringlyError,
    StringlyState,
    UncheckedInputLen,
    UnevenNarrowing,
    UnitMismatch,
    UnnamedTuple,
    UnreadErrorVariant,
    UnreadNone,
    WildcardLocalEnum,
}

/// One thing to tell the user.
#[derive(Debug)]
pub struct Finding {
    pub lint: Lint,
    pub at: Span,
    pub message: String,
    /// A second place and what is to be seen there.
    pub note: Option<(Span, String)>,
    pub help: String,
    /// What to put in place of the text at `at`, where that is known.
    pub fix: Option<String>,
    /// The node whose lint level decides, where it is not the one visited.
    pub node: Option<HirId>,
}

/// A finding as a value.
pub struct FindingView {
    pub lint: Lint,
    pub at: Span,
    pub message: Seq<char>,
    pub note: Option<(Span, Seq<char>)>,
    pub help: Seq<char>,
    pub fix: Option<Seq<char>>,
    pub node: Option<HirId>,
}

impl View for Finding {
    type V = FindingView;

    open spec fn view(&self) -> FindingView {
        FindingView {
            lint: self.lint,
            at: self.at,
            message: self.message@,
            note: match self.note {
                Some(n) => Some((n.0, n.1@)),
                None => None,
            },
            help: self.help@,
            fix: match self.fix {
                Some(t) => Some(t@),
                None => None,
            },
            node: self.node,
        }
    }
}

/// The findings of a list as values.
pub open spec fn views(v: Seq<Finding>) -> Seq<FindingView> {
    v.map_values(|f: Finding| f@)
}

/// A finding without a note.
pub open spec fn finding(lint: Lint, at: Span, message: Seq<char>, help: Seq<char>) -> FindingView {
    FindingView { lint, at, message, note: None, help, fix: None, node: None }
}

pub proof fn lemma_views_push(v: Seq<Finding>, f: Finding)
    ensures
        views(v.push(f)) == views(v).push(f@),
{
    assert(views(v.push(f)) =~= views(v).push(f@));
}

/// Appends a finding without a note.
pub fn emit(out: &mut Vec<Finding>, lint: Lint, at: Span, message: String, help: &str)
    ensures
        views(final(out)@) == views(old(out)@).push(finding(lint, at, message@, help@)),
{
    let f = Finding {
        lint,
        at,
        message,
        note: None,
        help: String::from_str(help),
        fix: None,
        node: None,
    };
    proof {
        lemma_views_push(out@, f);
    }
    out.push(f);
}

/// A finding with a note.
pub open spec fn noted(
    lint: Lint,
    at: Span,
    message: Seq<char>,
    there: Span,
    note: Seq<char>,
    help: Seq<char>,
) -> FindingView {
    FindingView { lint, at, message, note: Some((there, note)), help, fix: None, node: None }
}

/// Appends a finding with a note.
pub fn emit_with_note(
    out: &mut Vec<Finding>,
    lint: Lint,
    at: Span,
    message: String,
    there: Span,
    note: &str,
    help: &str,
)
    ensures
        views(final(out)@) == views(old(out)@).push(
            noted(lint, at, message@, there, note@, help@),
        ),
{
    let f = Finding {
        lint,
        at,
        message,
        note: Some((there, String::from_str(note))),
        help: String::from_str(help),
        fix: None,
        node: None,
    };
    proof {
        lemma_views_push(out@, f);
    }
    out.push(f);
}

// ---------------------------------------------------------------- by position

/// Where an entry that starts at `lo` goes among sorted ones: behind every
/// one that starts no later.
pub open spec fn slot(s: Seq<FindingView>, lo: u32) -> int
    decreases s.len(),
{
    if s.len() == 0 {
        0
    } else if s.last().at.lo <= lo {
        s.len() as int
    } else {
        slot(s.drop_last(), lo)
    }
}

/// The findings by where they start; those that start at one place keep their
/// order.
pub open spec fn by_position(s: Seq<FindingView>) -> Seq<FindingView>
    decreases s.len(),
{
    if s.len() == 0 {
        Seq::empty()
    } else {
        let rest = by_position(s.drop_last());
        rest.insert(slot(rest, s.last().at.lo), s.last())
    }
}

pub open spec fn positions_ascend(s: Seq<FindingView>) -> bool {
    forall|i: int, j: int|
        0 <= i <= j < s.len() ==> (#[trigger] s[i]).at.lo <= (#[trigger] s[j]).at.lo
}

proof fn lemma_slot(s: Seq<FindingView>, lo: u32)
    requires
        positions_ascend(s),
    ensures
        0 <= slot(s, lo) <= s.len(),
        forall|i: int| 0 <= i < slot(s, lo) ==> (#[trigger] s[i]).at.lo <= lo,
        forall|i: int| slot(s, lo) <= i < s.len() ==> (#[trigger] s[i]).at.lo > lo,
    decreases s.len(),
{
    if s.len() > 0 && s.last().at.lo > lo {
        let rest = s.drop_last();
        assert(positions_ascend(rest)) by {
            assert forall|i: int, j: int| 0 <= i <= j < rest.len() implies (#[trigger] rest[i]).at.lo
                <= (#[trigger] rest[j]).at.lo by {
                assert(s[i].at.lo <= s[j].at.lo);
            }
        }
        lemma_slot(rest, lo);
        assert forall|i: int| 0 <= i < slot(s, lo) implies (#[trigger] s[i]).at.lo <= lo by {
            assert(rest[i].at.lo <= lo);
        }
        assert forall|i: int| slot(s, lo) <= i < s.len() implies (#[trigger] s[i]).at.lo > lo by {
            if i < rest.len() {
                assert(rest[i].at.lo > lo);
            }
        }
    } else if s.len() > 0 {
        assert forall|i: int| 0 <= i < s.len() implies (#[trigger] s[i]).at.lo <= lo by {
            assert(s[i].at.lo <= s[s.len() - 1].at.lo);
        }
    }
}

/// Ordering findings by position keeps every finding and leaves positions
/// ascending.
pub proof fn lemma_by_position(s: Seq<FindingView>)
    ensures
        positions_ascend(by_position(s)),
        by_position(s).to_multiset() == s.to_multiset(),
        by_position(s).len() == s.len(),
    decreases s.len(),
{
    if s.len() > 0 {
        let rest = by_position(s.drop_last());
        let x = s.last();
        let k = slot(rest, x.at.lo);
        lemma_by_position(s.drop_last());
        lemma_slot(rest, x.at.lo);
        let all = by_position(s);
        assert forall|i: int, j: int| 0 <= i <= j < all.len() implies (#[trigger] all[i]).at.lo <= (
        #[trigger] all[j]).at.lo by {
            let a = if i < k {
                i
            } else {
                i - 1
            };
            let b = if j < k {
                j
            } else {
                j - 1
            };
            if i == k {
                if j > k {
                    assert(all[j] == rest[b]);
                    assert(rest[b].at.lo > x.at.lo);
                }
            } else if j == k {
                assert(all[i] == rest[a]);
                assert(rest[a].at.lo <= x.at.lo);
            } else {
                assert(all[i] == rest[a] && all[j] == rest[b]);
                assert(rest[a].at.lo <= rest[b].at.lo);
            }
        }
        rest.insert_ensures(k, x);
        vstd::seq_lib::to_multiset_insert(rest, k, x);
        vstd::seq_lib::to_multiset_build(s.drop_last(), x);
        assert(s =~= s.drop_last().push(x));
    } else {
        assert(by_position(s) =~= s);
    }
}

/// Puts findings in order of position.
pub fn sort_by_position(v: Vec<Finding>) -> (r: Vec<Finding>)
    ensures
        views(r@) == by_position(views(v@)),
{
    let mut out: Vec<Finding> = Vec::new();
    let ghost all = views(v@);
    let mut rest = v;
    let mut pending: Vec<Finding> = Vec::new();
    while rest.len() > 0
        invariant
            views(rest@) + views(pending@).reverse() == all,
        decreases rest.len(),
    {
        let ghost before = views(rest@);
        let ghost later = views(pending@);
        let f = rest.pop().unwrap();
        proof {
            assert(before =~= views(rest@).push(f@));
            lemma_views_push(pending@, f);
            assert(views(rest@) + later.push(f@).reverse() =~= before + later.reverse());
        }
        pending.push(f);
    }
    proof {
        assert(views(pending@).reverse() =~= all);
        assert(all.take(0) =~= Seq::<FindingView>::empty());
        assert(views(out@) =~= by_position(all.take(0)));
        assert(views(pending@).reverse() =~= all.skip(0));
    }
    let ghost mut done: int = 0;
    while pending.len() > 0
        invariant
            0 <= done <= all.len(),
            views(pending@).reverse() == all.skip(done),
            views(out@) == by_position(all.take(done)),
        decreases pending.len(),
    {
        let ghost left = views(pending@);
        let f = pending.pop().unwrap();
        proof {
            assert(left =~= views(pending@).push(f@));
            assert(left.reverse()[0] == f@);
            assert(all.skip(done)[0] == f@);
            assert(views(pending@).reverse() =~= left.reverse().drop_first());
            assert(all.skip(done).drop_first() =~= all.skip(done + 1));
            assert(all.take(done + 1).drop_last() =~= all.take(done));
            lemma_by_position(all.take(done));
        }
        let lo: u32 = f.at.lo;
        let mut k: usize = out.len();
        let ghost sorted = views(out@);
        assert(sorted.take(k as int) =~= sorted);
        while k > 0 && out[k - 1].at.lo > lo
            invariant
                k <= out@.len(),
                sorted == views(out@),
                slot(sorted, lo) == slot(sorted.take(k as int), lo),
            decreases k,
        {
            assert(sorted.take(k as int).drop_last() =~= sorted.take(k - 1));
            assert(sorted.take(k as int).last() == out@[k - 1]@);
            k = k - 1;
        }
        proof {
            if k > 0 {
                assert(sorted.take(k as int).last() == out@[k - 1]@);
            }
            assert(slot(sorted.take(k as int), lo) == k);
        }
        let ghost g = f@;
        let ghost before = out@;
        out.insert(k, f);
        proof {
            assert(views(out@) =~= sorted.insert(k as int, g));
            done = done + 1;
        }
    }
    assert(all.take(done) =~= all);
    out
}

// ---------------------------------------------------------------- by text

/// `a` comes no later than `b` in dictionary order of code points.
pub open spec fn text_le(a: Seq<char>, b: Seq<char>) -> bool
    decreases a.len(),
{
    if a.len() == 0 {
        true
    } else if b.len() == 0 {
        false
    } else if a[0] == b[0] {
        text_le(a.drop_first(), b.drop_first())
    } else {
        a[0] < b[0]
    }
}

/// Whether `a` comes no later than `b`.
pub fn text_at_most(a: &str, b: &str) -> (r: bool)
    ensures
        r == text_le(a@, b@),
{
    let x = chars_of(a);
    let y = chars_of(b);
    let mut i: usize = 0;
    assert(x@.skip(0) =~= x@);
    assert(y@.skip(0) =~= y@);
    while i < x.len() && i < y.len() && x[i] == y[i]
        invariant
            i <= x@.len(),
            i <= y@.len(),
            text_le(x@, y@) == text_le(x@.skip(i as int), y@.skip(i as int)),
        decreases x.len() - i,
    {
        assert(x@.skip(i as int).drop_first() =~= x@.skip(i + 1));
        assert(y@.skip(i as int).drop_first() =~= y@.skip(i + 1));
        i = i + 1;
    }
    if i == x.len() {
        true
    } else if i == y.len() {
        false
    } else {
        x[i] < y[i]
    }
}

/// Where `x` goes among sorted texts: behind every one that comes no later.
pub open spec fn text_slot(s: Seq<Seq<char>>, x: Seq<char>) -> int
    decreases s.len(),
{
    if s.len() == 0 {
        0
    } else if text_le(s.last(), x) {
        s.len() as int
    } else {
        text_slot(s.drop_last(), x)
    }
}

/// The texts in dictionary order.
pub open spec fn in_order(s: Seq<Seq<char>>) -> Seq<Seq<char>>
    decreases s.len(),
{
    if s.len() == 0 {
        Seq::empty()
    } else {
        let rest = in_order(s.drop_last());
        rest.insert(text_slot(rest, s.last()), s.last())
    }
}

/// Sorted texts are the same texts, as often each.
pub proof fn lemma_in_order(s: Seq<Seq<char>>)
    ensures
        in_order(s).to_multiset() == s.to_multiset(),
        in_order(s).len() == s.len(),
    decreases s.len(),
{
    if s.len() > 0 {
        let rest = in_order(s.drop_last());
        let x = s.last();
        lemma_in_order(s.drop_last());
        lemma_text_slot_within(rest, x);
        rest.insert_ensures(text_slot(rest, x), x);
        vstd::seq_lib::to_multiset_insert(rest, text_slot(rest, x), x);
        vstd::seq_lib::to_multiset_build(s.drop_last(), x);
        assert(s =~= s.drop_last().push(x));
    } else {
        assert(in_order(s) =~= s);
    }
}

proof fn lemma_text_slot_within(s: Seq<Seq<char>>, x: Seq<char>)
    ensures
        0 <= text_slot(s, x) <= s.len(),
    decreases s.len(),
{
    if s.len() > 0 {
        lemma_text_slot_within(s.drop_last(), x);
    }
}

/// Puts texts in dictionary order.
pub fn sort_texts(v: &Vec<String>) -> (r: Vec<String>)
    ensures
        texts(r@) == in_order(texts(v@)),
{
    let mut out: Vec<String> = Vec::new();
    let ghost all = texts(v@);
    let mut i: usize = 0;
    assert(texts(out@) =~= in_order(all.take(0)));
    while i < v.len()
        invariant
            i <= v@.len(),
            all == texts(v@),
            texts(out@) == in_order(all.take(i as int)),
        decreases v.len() - i,
    {
        assert(all.take(i + 1).drop_last() =~= all.take(i as int));
        let x = v[i].clone();
        let ghost sorted = texts(out@);
        let mut k: usize = out.len();
        assert(sorted.take(k as int) =~= sorted);
        while k > 0 && !text_at_most(out[k - 1].as_str(), x.as_str())
            invariant
                k <= out@.len(),
                sorted == texts(out@),
                text_slot(sorted, x@) == text_slot(sorted.take(k as int), x@),
            decreases k,
        {
            assert(sorted.take(k as int).drop_last() =~= sorted.take(k - 1));
            assert(sorted.take(k as int).last() == out@[k - 1]@);
            k = k - 1;
        }
        proof {
            if k > 0 {
                assert(sorted.take(k as int).last() == out@[k - 1]@);
            }
        }
        let ghost g = x@;
        out.insert(k, x);
        assert(texts(out@) =~= sorted.insert(k as int, g));
        i = i + 1;
    }
    assert(all.take(all.len() as int) =~= all);
    out
}

/// A name between backquotes.
pub open spec fn quoted(s: Seq<char>) -> Seq<char> {
    "`"@ + s + "`"@
}

pub fn quote(s: &str) -> (r: String)
    ensures
        r@ == quoted(s@),
{
    let mut out = String::from_str("`");
    out.append(s);
    out.append("`");
    out
}

/// Names between backquotes, with commas between.
pub open spec fn listed_names(names: Seq<Seq<char>>) -> Seq<char> {
    joined(names.map_values(|s: Seq<char>| quoted(s)), ", "@)
}

pub fn list_names(names: &Vec<String>) -> (r: String)
    ensures
        r@ == listed_names(texts(names@)),
{
    let mut parts: Vec<String> = Vec::new();
    let mut i: usize = 0;
    while i < names.len()
        invariant
            i <= names@.len(),
            parts@.len() == i,
            forall|k: int| 0 <= k < i ==> (#[trigger] parts@[k])@ == quoted(names@[k]@),
        decreases names.len() - i,
    {
        parts.push(quote(names[i].as_str()));
        i = i + 1;
    }
    assert(texts(parts@) =~= texts(names@).map_values(|s: Seq<char>| quoted(s)));
    join(&parts, ", ")
}

/// The findings without those at the place of the one just before.
pub open spec fn one_per_place(s: Seq<FindingView>) -> Seq<FindingView>
    decreases s.len(),
{
    if s.len() == 0 {
        Seq::empty()
    } else {
        let before = one_per_place(s.drop_last());
        if before.len() > 0 && before.last().at == s.last().at {
            before
        } else {
            before.push(s.last())
        }
    }
}

pub fn dedup_places(v: Vec<Finding>) -> (r: Vec<Finding>)
    ensures
        views(r@) == one_per_place(views(v@)),
{
    let ghost all = views(v@);
    let mut out: Vec<Finding> = Vec::new();
    let mut rest = v;
    let mut pending: Vec<Finding> = Vec::new();
    let ghost n = rest@.len();
    while rest.len() > 0
        invariant
            all.len() == n,
            n == rest@.len() + pending@.len(),
            views(rest@) == all.take(rest@.len() as int),
            forall|i: int|
                0 <= i < pending@.len() ==> #[trigger] pending@[i]@ == all[n - 1 - i],
        decreases rest.len(),
    {
        let ghost before = rest@;
        let ghost waiting = pending@;
        match rest.pop() {
            Some(f) => {
                assert(views(before)[before.len() - 1] == f@);
                pending.push(f);
                assert(views(rest@) =~= all.take(rest@.len() as int));
                assert forall|i: int| 0 <= i < pending@.len() implies #[trigger] pending@[i]@
                    == all[n - 1 - i] by {
                    if i < waiting.len() {
                        assert(pending@[i] == waiting[i]);
                    }
                }
            },
            None => {},
        }
    }
    assert(views(out@) =~= one_per_place(all.take(0)));
    while pending.len() > 0
        invariant
            all.len() == n,
            pending@.len() <= n,
            forall|i: int|
                0 <= i < pending@.len() ==> #[trigger] pending@[i]@ == all[n - 1 - i],
            views(out@) == one_per_place(all.take(n - pending@.len())),
        decreases pending.len(),
    {
        let ghost k = n - pending@.len();
        let ghost waiting = pending@;
        assert(all.take(k + 1).drop_last() =~= all.take(k));
        match pending.pop() {
            Some(f) => {
                assert(waiting[waiting.len() - 1]@ == all[k]);
                assert forall|i: int| 0 <= i < pending@.len() implies #[trigger] pending@[i]@
                    == all[n - 1 - i] by {
                    assert(pending@[i] == waiting[i]);
                }
                let again = out.len() > 0 && out[out.len() - 1].at.lo == f.at.lo && out[out.len()
                    - 1].at.hi == f.at.hi;
                assert(out@.len() > 0 ==> views(out@).last() == out@.last()@);
                assert(views(out@).len() == out@.len());
                if !again {
                    proof {
                        lemma_views_push(out@, f);
                    }
                    out.push(f);
                }
            },
            None => {},
        }
    }
    assert(all.take(n as int) =~= all);
    out
}

/// The names of definitions, quoted.
pub open spec fn quoted_names(defs: Definitions, ids: Seq<DefId>) -> Seq<Seq<char>> {
    ids.map_values(|d: DefId| quoted(defs.name_text(d)))
}

pub fn quote_names(defs: &Definitions, ids: &Vec<DefId>) -> (r: Vec<String>)
    ensures
        texts(r@) == quoted_names(*defs, ids@),
{
    let ghost want = quoted_names(*defs, ids@);
    let mut out: Vec<String> = Vec::new();
    let mut i: usize = 0;
    while i < ids.len()
        invariant
            i <= ids@.len(),
            want == quoted_names(*defs, ids@),
            texts(out@) == want.take(i as int),
        decreases ids.len() - i,
    {
        let ghost before = out@;
        out.push(quote(defs.name_of(ids[i])));
        assert(texts(out@) =~= texts(before).push(want[i as int]));
        i = i + 1;
        assert(texts(out@) =~= want.take(i as int));
    }
    assert(texts(out@) =~= want);
    out
}

/// Ordering by position loses no finding and makes up none.
pub proof fn lemma_position_keeps(s: Seq<FindingView>)
    ensures
        forall|f: FindingView| #[trigger] by_position(s).contains(f) <==> s.contains(f),
{
    lemma_by_position(s);
    broadcast use vstd::seq_lib::group_to_multiset_ensures;

    assert forall|f: FindingView| #[trigger] by_position(s).contains(f) <==> s.contains(f) by {
        assert(by_position(s).contains(f) <==> by_position(s).to_multiset().count(f) > 0);
        assert(s.contains(f) <==> s.to_multiset().count(f) > 0);
    }
}

/// Every place something was found at keeps a finding.
pub proof fn lemma_place_kept(s: Seq<FindingView>, i: int)
    requires
        0 <= i < s.len(),
    ensures
        exists|j: int|
            0 <= j < one_per_place(s).len() && (#[trigger] one_per_place(s)[j]).at == s[i].at,
    decreases s.len(),
{
    let before = one_per_place(s.drop_last());
    let all = one_per_place(s);
    if i == s.len() - 1 {
        assert(all[all.len() - 1].at == s[i].at);
    } else {
        assert(s.drop_last()[i] == s[i]);
        lemma_place_kept(s.drop_last(), i);
        let j = choose|j: int| 0 <= j < before.len() && (#[trigger] before[j]).at == s[i].at;
        assert(all[j] == before[j]);
    }
}

/// What is kept of the findings was among them.
pub proof fn lemma_kept_is_there(s: Seq<FindingView>, j: int)
    requires
        0 <= j < one_per_place(s).len(),
    ensures
        s.contains(one_per_place(s)[j]),
    decreases s.len(),
{
    let front = s.drop_last();
    let before = one_per_place(front);
    assert(s[s.len() - 1] == s.last());
    if j < before.len() {
        lemma_kept_is_there(front, j);
        let i = choose|i: int| 0 <= i < front.len() && front[i] == before[j];
        assert(s[i] == before[j]);
    }
}

/// No two findings kept one after the other are at one place.
pub proof fn lemma_neighbours_are_apart(s: Seq<FindingView>, j: int)
    requires
        0 <= j < one_per_place(s).len() - 1,
    ensures
        one_per_place(s)[j].at != one_per_place(s)[j + 1].at,
    decreases s.len(),
{
    let before = one_per_place(s.drop_last());
    if j + 1 < before.len() {
        lemma_neighbours_are_apart(s.drop_last(), j);
    }
}

/// Findings that start at one place keep the order they were made in.
pub proof fn lemma_position_is_stable(s: Seq<FindingView>, f: FindingView)
    requires
        forall|i: int| 0 <= i < s.len() ==> (#[trigger] s[i]).at.lo <= f.at.lo,
    ensures
        by_position(s.push(f)) == by_position(s).push(f),
{
    let rest = by_position(s);
    lemma_position_keeps(s);
    assert(s.push(f).drop_last() =~= s);
    if rest.len() > 0 {
        assert(rest.contains(rest[rest.len() - 1]));
        let i = choose|i: int| 0 <= i < s.len() && s[i] == rest[rest.len() - 1];
        assert(rest.last().at.lo <= f.at.lo);
    }
    assert(rest.insert(rest.len() as int, f) =~= rest.push(f));
}

} // verus!
