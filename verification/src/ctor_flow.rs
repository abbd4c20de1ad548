//! Dataflow over a constructor's body: which fields of the returned `Self`
//! does a failure exit actually depend on?
//!
//! A receiver-less `fn(..) -> Result<Self, E>` / `Option<Self>` can fail for
//! three unrelated reasons: it inspected a value it is about to store and
//! rejected it (an invariant), the input it was reading was malformed (a
//! parser), or the environment refused (allocation, IO). Only the first makes
//! a field's later reassignment dangerous, and the signature cannot tell them
//! apart. The body can:
//!
//! * every point that returns `Err`/`None`, literal or via `?`, is a failure
//!   exit;
//! * the branch conditions an exit is control-dependent on decide it, and
//!   everything those conditions read, followed back through copies,
//!   projections, arithmetic and predicate calls into their arguments, is the
//!   exit's *decision slice*;
//! * every field of the `Self` that reaches the return has a *storage slice*:
//!   the values it is built from, followed back through copies, casts,
//!   arithmetic and nested aggregates, but not through "the `Ok` payload of"
//!   or "the result of a call" -- past those the field's own type or the
//!   callee carries whatever guarantee exists, not this function's check;
//! * a field carries an invariant iff some exit's decision slice meets its
//!   storage slice.
//!
//! Slices are over *places* (`opts.footer`, not `opts`), so a check on one
//! field of an input struct is not a check on its siblings, and `args.port =
//! x; if args.port == 0 { Err }; Ok(args)` implicates `port` alone.
//!
//! `let v = input.next()?; Self { v }` fails on `input` and stores the payload
//! of the checked thing, so the slices never meet. `if n > MAX { Err }; Self {
//! n }` reads and stores `n`. Exits whose error type is a resource error
//! (`AllocError`, `io::Error`, ...) are dropped up front.

use crate::cfg::{lemma_push_contains, lemma_set_one, unset};
use crate::ctor_facts::{
    all_def_views, atom_view, def_views, defs_ok, lists_ok, local_lists, plain_views, read_ok,
    read_views, reads_ok, Def, DefView, Read, ReadView,
};
use crate::mir_flow::{
    atom_inspects, atoms_overlap, extended_atom, is_prefix, path_from, Atom, AtomView,
};
use crate::reach::{
    lemma_closed_holds_reachable, lemma_root_reachable, lemma_step_reachable, reachable,
};
use vstd::arithmetic::power::{lemma_pow_increases, lemma_pow_positive, pow};
use vstd::prelude::*;

verus! {

// ---------------------------------------------------------------- closures over locals

/// One local leads to another: the second is in the first one's list.
pub open spec fn list_step(lists: Seq<Seq<usize>>) -> spec_fn(usize, usize) -> bool {
    |a: usize, b: usize| a < lists.len() && lists[a as int].contains(b)
}

/// The locals that the lists lead to from `start`, itself among them.
pub open spec fn led_to(lists: Seq<Seq<usize>>, start: usize, l: usize) -> bool {
    reachable(list_step(lists), set![start], l)
}

/// Everything the lists lead to from `start`.
pub fn closure_over(start: usize, lists: &Vec<Vec<usize>>) -> (r: Vec<bool>)
    requires
        lists_ok(local_lists(lists@), lists@.len()),
        start < lists@.len(),
    ensures
        r@.len() == lists@.len(),
        forall|l: usize|
            l < r@.len() ==> #[trigger] r@[l as int] == led_to(local_lists(lists@), start, l),
{
    let n: usize = lists.len();
    let ghost all = local_lists(lists@);
    let ghost step = list_step(all);
    let ghost roots = set![start];
    let mut flags: Vec<bool> = Vec::new();
    let mut i: usize = 0;
    while i < n
        invariant
            i <= n,
            flags@.len() == i,
            forall|k: int| 0 <= k < i ==> !#[trigger] flags@[k],
        decreases n - i,
    {
        flags.push(false);
        i = i + 1;
    }
    let mut stack: Vec<usize> = Vec::new();
    flags.set(start, true);
    stack.push(start);
    proof {
        lemma_root_reachable(step, roots, start);
        assert(stack@[0] == start);
        assert(stack@.contains(start));
    }
    while stack.len() > 0
        invariant
            n == lists@.len() == flags@.len(),
            all == local_lists(lists@),
            lists_ok(all, n as nat),
            step == list_step(all),
            roots == set![start],
            start < n,
            flags@[start as int],
            forall|b: usize| b < n && #[trigger] flags@[b as int] ==> reachable(step, roots, b),
            forall|k: int|
                0 <= k < stack@.len() ==> #[trigger] stack@[k] < n && flags@[stack@[k] as int],
            forall|a: usize, b: usize|
                a < n && flags@[a as int] && !stack@.contains(a) && #[trigger] step(a, b)
                    ==> flags@[b as int],
        decreases unset(flags@), stack@.len(),
    {
        let ghost stack0 = stack@;
        let a: usize = stack.pop().unwrap();
        let ghost flags0 = flags@;
        let ghost popped = stack@;
        assert(stack0 == popped.push(a));
        assert(stack0[stack0.len() - 1] == a);
        let ghost targets = all[a as int];
        let mut j: usize = 0;
        while j < lists[a].len()
            invariant
                n == lists@.len() == flags@.len() == flags0.len(),
                all == local_lists(lists@),
                lists_ok(all, n as nat),
                a < n,
                targets == all[a as int],
                targets == lists@[a as int]@,
                flags0[a as int],
                step == list_step(all),
                roots == set![start],
                reachable(step, roots, a),
                j <= targets.len(),
                forall|b: usize| b < n && #[trigger] flags0[b as int] ==> flags@[b as int],
                forall|b: usize| b < n && #[trigger] flags@[b as int] ==> reachable(step, roots, b),
                forall|k: int|
                    0 <= k < stack@.len() ==> #[trigger] stack@[k] < n && flags@[stack@[k] as int],
                forall|x: usize| #[trigger] popped.contains(x) ==> stack@.contains(x),
                forall|x: usize|
                    x < n && #[trigger] flags@[x as int] && !flags0[x as int] ==> stack@.contains(
                        x,
                    ),
                forall|k: int| 0 <= k < j ==> flags@[#[trigger] targets[k] as int],
                unset(flags@) <= unset(flags0),
                unset(flags@) == unset(flags0) ==> stack@ == popped,
            decreases targets.len() - j,
        {
            let b: usize = lists[a][j];
            let ghost flags1 = flags@;
            let ghost stack1 = stack@;
            assert(all[a as int][j as int] < n);
            if !flags[b] {
                flags.set(b, true);
                stack.push(b);
                proof {
                    assert(targets.contains(b));
                    assert(step(a, b));
                    lemma_step_reachable(step, roots, a, b);
                    lemma_set_one(flags1, b as int);
                    assert forall|x: usize| #[trigger] popped.contains(x) implies stack@.contains(
                        x,
                    ) by {
                        lemma_push_contains(stack1, b, x);
                    }
                    assert forall|x: usize|
                        x < n && #[trigger] flags@[x as int] && !flags0[x as int] implies stack@.contains(
                        x,
                    ) by {
                        lemma_push_contains(stack1, b, x);
                        if x != b {
                            assert(flags1[x as int]);
                        }
                    }
                }
            }
            j = j + 1;
        }
        proof {
            assert forall|x: usize, b: usize|
                x < n && flags@[x as int] && !stack@.contains(x) && #[trigger] step(
                    x,
                    b,
                ) implies flags@[b as int] by {
                let k = choose|k: int| 0 <= k < all[x as int].len() && all[x as int][k] == b;
                assert(all[x as int][k] < n);
                if x == a {
                    assert(flags@[targets[k] as int]);
                } else {
                    assert(flags0[x as int]);
                    lemma_push_contains(popped, a, x);
                    assert(!stack0.contains(x));
                    assert(flags0[b as int]);
                }
            }
        }
    }
    proof {
        assert forall|b: usize| b < n implies #[trigger] flags@[b as int] == led_to(
            all,
            start,
            b,
        ) by {
            if led_to(all, start, b) {
                let closed = Set::new(|x: usize| x < n && flags@[x as int]);
                assert forall|x: usize, y: usize| closed.contains(x) && #[trigger] step(
                    x,
                    y,
                ) implies closed.contains(y) by {
                    let k = choose|k: int| 0 <= k < all[x as int].len() && all[x as int][k] == y;
                    assert(all[x as int][k] < n);
                }
                lemma_closed_holds_reachable(step, roots, closed, b);
            }
        }
    }
    flags
}

// ---------------------------------------------------------------- slices

/// What a read leads to from `at`, when `def` defines (part of) the local of
/// `at`. `decision` tells the two slices apart: storage stops at variant
/// payloads, discriminants, index locals and calls, decision follows them.
/// `blocked` keeps a decision from entering the defining call of `at`.
pub open spec fn followed(
    decision: bool,
    blocked: bool,
    dest: Seq<u32>,
    read: ReadView,
    at: AtomView,
) -> Option<AtomView> {
    let below = dest.is_prefix_of(at.1);
    let rem = if below {
        at.1.skip(dest.len() as int)
    } else {
        Seq::empty()
    };
    if !below && !at.1.is_prefix_of(dest) {
        None
    } else {
        match read {
            ReadView::Same(a) => Some(
                if below {
                    extended_atom(a, rem)
                } else {
                    a
                },
            ),
            ReadView::Derived(a) => Some(a),
            ReadView::AggField(i, a) => if !below || rem.len() == 0 {
                Some(a)
            } else if rem[0] == i {
                Some(extended_atom(a, rem.skip(1)))
            } else {
                None
            },
            ReadView::Payload(a) => if decision {
                Some(a)
            } else {
                None
            },
            ReadView::Discr(a) => if decision {
                Some(a)
            } else {
                None
            },
            ReadView::ViaMut(a) => if decision {
                Some(a)
            } else {
                None
            },
            ReadView::Index(l) => if decision {
                Some((l, Seq::empty()))
            } else {
                None
            },
            ReadView::CallArg(a) => if decision && !blocked {
                Some(a)
            } else {
                None
            },
            ReadView::CallArgMut => None,
        }
    }
}

/// Some atom of the set overlaps `at`.
pub open spec fn overlapped(atoms: Set<AtomView>, at: AtomView) -> bool {
    exists|a: AtomView| #[trigger] atoms.contains(a) && atoms_overlap(a, at)
}

/// The step of a slice: some read of some definition of `at`'s local leads to
/// the second atom.
pub open spec fn slice_leads(
    defs: Seq<Seq<DefView>>,
    decision: bool,
    opaque: Set<AtomView>,
    at: AtomView,
    x: AtomView,
) -> bool {
    at.0 < defs.len() && leads_among(defs[at.0 as int], decision, overlapped(opaque, at), at, x)
}

pub open spec fn leads_among(
    defs: Seq<DefView>,
    decision: bool,
    blocked: bool,
    at: AtomView,
    x: AtomView,
) -> bool {
    exists|d: int, k: int|
        0 <= d < defs.len() && 0 <= k < defs[d].reads.len() && followed(
            decision,
            blocked,
            defs[d].dest,
            #[trigger] defs[d].reads[k],
            at,
        ) == Some(x)
}

pub open spec fn slice_step(
    defs: Seq<Seq<DefView>>,
    decision: bool,
    opaque: Set<AtomView>,
) -> spec_fn(AtomView, AtomView) -> bool {
    |at: AtomView, x: AtomView| slice_leads(defs, decision, opaque, at, x)
}

/// `a` is in the slice from `roots`.
pub open spec fn in_slice(
    defs: Seq<Seq<DefView>>,
    decision: bool,
    opaque: Set<AtomView>,
    roots: Set<AtomView>,
    a: AtomView,
) -> bool {
    reachable(slice_step(defs, decision, opaque), roots, a)
}

/// `a`'s value ends up (as itself, or arithmetically combined) in a root.
pub open spec fn stored(defs: Seq<Seq<DefView>>, roots: Set<AtomView>, a: AtomView) -> bool {
    in_slice(defs, false, Set::empty(), roots, a)
}

/// `p`'s variant payload is consumed on the way into a root: produced, not
/// inspected.
pub open spec fn produced(defs: Seq<Seq<DefView>>, roots: Set<AtomView>, p: AtomView) -> bool {
    exists|at: AtomView| #[trigger] stored(defs, roots, at) && payload_read(defs, at, p)
}

pub open spec fn payload_read(defs: Seq<Seq<DefView>>, at: AtomView, p: AtomView) -> bool {
    at.0 < defs.len() && payload_among(defs[at.0 as int], at, p)
}

pub open spec fn payload_among(defs: Seq<DefView>, at: AtomView, p: AtomView) -> bool {
    exists|d: int, k: int|
        0 <= d < defs.len() && 0 <= k < defs[d].reads.len() && #[trigger] defs[d].reads[k]
            == ReadView::Payload(p) && (defs[d].dest.is_prefix_of(at.1) || at.1.is_prefix_of(
            defs[d].dest,
        ))
}

// Every atom that can be held has a number of its own below a fixed bound,
// so a list of distinct atoms cannot grow forever.

spec fn base() -> int {
    0x1_0000_0001
}

spec fn path_code(path: Seq<u32>) -> int
    decreases path.len(),
{
    if path.len() == 0 {
        0
    } else {
        path_code(path.drop_last()) * base() + path.last() + 1
    }
}

proof fn lemma_path_code_bound(path: Seq<u32>)
    ensures
        0 <= path_code(path) < pow(base(), path.len()),
        path.len() > 0 ==> path_code(path) > 0,
    decreases path.len(),
{
    reveal(pow);
    if path.len() > 0 {
        lemma_path_code_bound(path.drop_last());
        let c = path_code(path.drop_last());
        let p = pow(base(), path.drop_last().len());
        let x = path.last() as int;
        assert(pow(base(), path.len()) == base() * p);
        assert(0 <= c * base()) by (nonlinear_arith)
            requires
                0 <= c,
                base() == 0x1_0000_0001,
        ;
        assert(c * base() + x + 1 < base() * p) by (nonlinear_arith)
            requires
                0 <= c < p,
                0 <= x <= 0xffff_ffff,
                base() == 0x1_0000_0001,
        ;
    }
}

proof fn lemma_path_code_injective(a: Seq<u32>, b: Seq<u32>)
    requires
        path_code(a) == path_code(b),
    ensures
        a == b,
    decreases a.len(),
{
    lemma_path_code_bound(a);
    lemma_path_code_bound(b);
    if a.len() == 0 {
        assert(a =~= b);
    } else if b.len() == 0 {
        assert(a =~= b);
    } else {
        let ca = path_code(a.drop_last());
        let cb = path_code(b.drop_last());
        let xa = a.last() as int;
        let xb = b.last() as int;
        assert(ca == cb && xa == xb) by (nonlinear_arith)
            requires
                ca * base() + xa + 1 == cb * base() + xb + 1,
                0 <= xa <= 0xffff_ffff,
                0 <= xb <= 0xffff_ffff,
                base() == 0x1_0000_0001,
        ;
        lemma_path_code_injective(a.drop_last(), b.drop_last());
        assert(a =~= a.drop_last().push(a.last()));
        assert(b =~= b.drop_last().push(b.last()));
    }
}

spec fn atom_code(a: AtomView) -> int {
    path_code(a.1) * (usize::MAX + 1) + a.0
}

spec fn atom_bound() -> int {
    pow(base(), usize::MAX as nat) * (usize::MAX + 1)
}

proof fn lemma_atom_code_bound(a: AtomView)
    requires
        a.1.len() <= usize::MAX,
    ensures
        0 <= atom_code(a) < atom_bound(),
{
    lemma_path_code_bound(a.1);
    lemma_pow_positive(base(), usize::MAX as nat);
    lemma_pow_increases(base() as nat, a.1.len(), usize::MAX as nat);
    let c = path_code(a.1);
    let p = pow(base(), usize::MAX as nat);
    let w = usize::MAX + 1;
    let l = a.0 as int;
    assert(0 <= c * w + l < p * w) by (nonlinear_arith)
        requires
            0 <= c < p,
            0 <= l < w,
    ;
}

proof fn lemma_atom_code_injective(a: AtomView, b: AtomView)
    requires
        atom_code(a) == atom_code(b),
    ensures
        a == b,
{
    let ca = path_code(a.1);
    let cb = path_code(b.1);
    let w = usize::MAX + 1;
    let la = a.0 as int;
    let lb = b.0 as int;
    assert(ca == cb && la == lb) by (nonlinear_arith)
        requires
            ca * w + la == cb * w + lb,
            0 <= la < w,
            0 <= lb < w,
    ;
    lemma_path_code_injective(a.1, b.1);
}

/// Distinct numbers below `n` are at most `n` many.
proof fn lemma_distinct_numbers(s: Seq<int>, n: int)
    requires
        0 <= n,
        s.no_duplicates(),
        forall|i: int| 0 <= i < s.len() ==> 0 <= #[trigger] s[i] < n,
    ensures
        s.len() <= n,
{
    s.unique_seq_to_set();
    let bound = vstd::set_lib::set_int_range(0, n);
    if s.len() > 0 {
        assert(0 <= s[0] < n);
        vstd::set_lib::lemma_int_range(0, n);
        assert(s.to_set().subset_of(bound)) by {
            assert forall|y: int| s.to_set().contains(y) implies bound.contains(y) by {
                let k = choose|k: int| 0 <= k < s.len() && s[k] == y;
                assert(0 <= s[k] < n);
            }
        }
        vstd::set_lib::lemma_len_subset(s.to_set(), bound);
    }
}

proof fn lemma_distinct_atoms_bounded(s: Seq<AtomView>)
    requires
        s.no_duplicates(),
        forall|i: int| 0 <= i < s.len() ==> (#[trigger] s[i]).1.len() <= usize::MAX,
    ensures
        s.len() <= atom_bound(),
{
    let codes = s.map_values(|a: AtomView| atom_code(a));
    assert(codes.no_duplicates()) by {
        assert forall|i: int, j: int|
            0 <= i < codes.len() && 0 <= j < codes.len() && i != j implies codes[i] != codes[j] by {
            if codes[i] == codes[j] {
                lemma_atom_code_injective(s[i], s[j]);
                assert(s[i] == s[j]);
            }
        }
    }
    assert forall|i: int| 0 <= i < codes.len() implies 0 <= #[trigger] codes[i] < atom_bound() by {
        lemma_atom_code_bound(s[i]);
    }
    lemma_pow_positive(base(), usize::MAX as nat);
    let p = pow(base(), usize::MAX as nat);
    assert(0 <= p * (usize::MAX + 1)) by (nonlinear_arith)
        requires
            0 <= p,
    ;
    lemma_distinct_numbers(codes, atom_bound());
}

/// Whether the list holds the atom.
fn holds(atoms: &Vec<Atom>, a: &Atom) -> (r: bool)
    ensures
        r == plain_views(atoms@).contains(a@),
{
    let mut i: usize = 0;
    while i < atoms.len()
        invariant
            i <= atoms@.len(),
            forall|k: int| 0 <= k < i ==> #[trigger] plain_views(atoms@)[k] != a@,
        decreases atoms.len() - i,
    {
        assert(plain_views(atoms@)[i as int] == atoms@[i as int]@);
        if atoms[i].same(a) {
            return true;
        }
        i = i + 1;
    }
    false
}

/// Whether some atom of the list overlaps `at`.
fn any_overlaps(atoms: &Vec<Atom>, at: &Atom) -> (r: bool)
    ensures
        r == overlapped(plain_views(atoms@).to_set(), at@),
{
    let mut i: usize = 0;
    while i < atoms.len()
        invariant
            i <= atoms@.len(),
            forall|k: int| 0 <= k < i ==> !atoms_overlap(#[trigger] plain_views(atoms@)[k], at@),
        decreases atoms.len() - i,
    {
        assert(plain_views(atoms@)[i as int] == atoms@[i as int]@);
        if atoms[i].overlaps(at) {
            assert(plain_views(atoms@).to_set().contains(atoms@[i as int]@));
            return true;
        }
        i = i + 1;
    }
    false
}

/// What one read leads to.
fn follow(decision: bool, blocked: bool, dest: &Vec<u32>, read: &Read, at: &Atom) -> (r: Option<
    Atom,
>)
    ensures
        atom_view(r) == followed(decision, blocked, dest@, read@, at@),
{
    let below = is_prefix(dest, &at.path);
    if !below && !is_prefix(&at.path, dest) {
        return None;
    }
    let rem: Vec<u32> = if below {
        path_from(&at.path, dest.len())
    } else {
        Vec::new()
    };
    assert(!below ==> rem@ =~= Seq::<u32>::empty());
    match read {
        Read::Same(a) => if below {
            Some(a.extended(&rem))
        } else {
            Some(a.copied())
        },
        Read::Derived(a) => Some(a.copied()),
        Read::AggField(i, a) => {
            if !below || rem.len() == 0 {
                Some(a.copied())
            } else if rem[0] == *i {
                let tail = path_from(&rem, 1);
                Some(a.extended(&tail))
            } else {
                None
            }
        },
        Read::Payload(a) | Read::Discr(a) | Read::ViaMut(a) => if decision {
            Some(a.copied())
        } else {
            None
        },
        Read::Index(l) => if decision {
            Some(Atom::whole(*l))
        } else {
            None
        },
        Read::CallArg(a) => if decision && !blocked {
            Some(a.copied())
        } else {
            None
        },
        Read::CallArgMut => None,
    }
}

proof fn lemma_plain_views_push(s: Seq<Atom>, a: Atom)
    ensures
        plain_views(s.push(a)) == plain_views(s).push(a@),
{
    assert(plain_views(s.push(a)) =~= plain_views(s).push(a@));
}

proof fn lemma_view_push_contains(s: Seq<AtomView>, a: AtomView, x: AtomView)
    ensures
        s.push(a).contains(x) <==> s.contains(x) || x == a,
{
    let t = s.push(a);
    assert(t[s.len() as int] == a);
    if s.contains(x) {
        let k = choose|k: int| 0 <= k < s.len() && s[k] == x;
        assert(t[k] == x);
    }
    if t.contains(x) && x != a {
        let k = choose|k: int| 0 <= k < t.len() && t[k] == x;
        assert(s[k] == x);
    }
}

/// Everything the definitions of `at`'s local lead to, appended to `queue`.
fn queue_followed(
    defs: &Vec<Def>,
    decision: bool,
    blocked: bool,
    at: &Atom,
    queue: &mut Vec<Atom>,
    Ghost(n): Ghost<nat>,
)
    requires
        forall|d: int|
            0 <= d < defs@.len() ==> reads_ok((#[trigger] def_views(defs@)[d]).reads, n),
        forall|k: int| 0 <= k < old(queue)@.len() ==> (#[trigger] old(queue)@[k])@.0 < n,
    ensures
        forall|x: AtomView| #[trigger]
            plain_views(final(queue)@).contains(x) <==> plain_views(old(queue)@).contains(x)
                || leads_among(def_views(defs@), decision, blocked, at@, x),
        forall|k: int| 0 <= k < final(queue)@.len() ==> (#[trigger] final(queue)@[k])@.0 < n,
{
    let ghost start = plain_views(queue@);
    let ghost views = def_views(defs@);
    let mut d: usize = 0;
    while d < defs.len()
        invariant
            d <= defs@.len(),
            views == def_views(defs@),
            forall|d: int| 0 <= d < defs@.len() ==> reads_ok((#[trigger] views[d]).reads, n),
            forall|k: int| 0 <= k < queue@.len() ==> (#[trigger] queue@[k])@.0 < n,
            forall|x: AtomView| #[trigger]
                plain_views(queue@).contains(x) <==> start.contains(x) || leads_among(
                    views.take(d as int),
                    decision,
                    blocked,
                    at@,
                    x,
                ),
        decreases defs.len() - d,
    {
        let ghost so_far = plain_views(queue@);
        let ghost reads = views[d as int].reads;
        let ghost dest = views[d as int].dest;
        assert(views[d as int] == defs@[d as int]@);
        let mut k: usize = 0;
        while k < defs[d].reads.len()
            invariant
                d < defs@.len(),
                dest == defs@[d as int].dest@,
                reads == read_views(defs@[d as int].reads@),
                reads_ok(reads, n),
                k <= reads.len(),
                forall|j: int| 0 <= j < queue@.len() ==> (#[trigger] queue@[j])@.0 < n,
                forall|x: AtomView| #[trigger]
                    plain_views(queue@).contains(x) <==> so_far.contains(x) || exists|j: int|
                        0 <= j < k && followed(decision, blocked, dest, #[trigger] reads[j], at@)
                            == Some(x),
            decreases reads.len() - k,
        {
            assert(reads[k as int] == defs@[d as int].reads@[k as int]@);
            assert(read_ok(reads[k as int], n));
            let ghost before = plain_views(queue@);
            let next = follow(decision, blocked, &defs[d].dest, &defs[d].reads[k], at);
            let ghost target = atom_view(next);
            match next {
                Some(a) => {
                    proof {
                        lemma_plain_views_push(queue@, a);
                    }
                    queue.push(a);
                },
                None => {},
            }
            proof {
                assert forall|x: AtomView| #[trigger]
                    plain_views(queue@).contains(x) <==> so_far.contains(x) || exists|j: int|
                        0 <= j < k + 1 && followed(
                            decision,
                            blocked,
                            dest,
                            #[trigger] reads[j],
                            at@,
                        ) == Some(x) by {
                    if target is Some {
                        lemma_view_push_contains(before, target->Some_0, x);
                    }
                    if plain_views(queue@).contains(x) && !so_far.contains(x) {
                        if target == Some(x) {
                            assert(followed(decision, blocked, dest, reads[k as int], at@)
                                == Some(x));
                        } else {
                            assert(before.contains(x));
                        }
                    }
                    if exists|j: int|
                        0 <= j < k + 1 && followed(
                            decision,
                            blocked,
                            dest,
                            #[trigger] reads[j],
                            at@,
                        ) == Some(x) {
                        let j = choose|j: int|
                            0 <= j < k + 1 && followed(
                                decision,
                                blocked,
                                dest,
                                #[trigger] reads[j],
                                at@,
                            ) == Some(x);
                        if j < k {
                            assert(before.contains(x));
                        }
                    }
                    if so_far.contains(x) {
                        assert(before.contains(x));
                    }
                }
            }
            k = k + 1;
        }
        proof {
            let fewer = views.take(d as int);
            let more = views.take(d + 1);
            assert forall|x: AtomView| #[trigger]
                plain_views(queue@).contains(x) <==> start.contains(x) || leads_among(
                    more,
                    decision,
                    blocked,
                    at@,
                    x,
                ) by {
                if leads_among(fewer, decision, blocked, at@, x) {
                    let (i, j) = choose|i: int, j: int|
                        0 <= i < fewer.len() && 0 <= j < fewer[i].reads.len() && followed(
                            decision,
                            blocked,
                            fewer[i].dest,
                            #[trigger] fewer[i].reads[j],
                            at@,
                        ) == Some(x);
                    assert(more[i].reads[j] == fewer[i].reads[j]);
                }
                if plain_views(queue@).contains(x) && !so_far.contains(x) {
                    let j = choose|j: int|
                        0 <= j < reads.len() && followed(
                            decision,
                            blocked,
                            dest,
                            #[trigger] reads[j],
                            at@,
                        ) == Some(x);
                    assert(more[d as int].reads[j] == reads[j]);
                }
                if leads_among(more, decision, blocked, at@, x) {
                    let (i, j) = choose|i: int, j: int|
                        0 <= i < more.len() && 0 <= j < more[i].reads.len() && followed(
                            decision,
                            blocked,
                            more[i].dest,
                            #[trigger] more[i].reads[j],
                            at@,
                        ) == Some(x);
                    if i < d {
                        assert(fewer[i].reads[j] == more[i].reads[j]);
                        assert(leads_among(fewer, decision, blocked, at@, x));
                        assert(so_far.contains(x));
                    } else {
                        assert(reads[j] == more[i].reads[j]);
                    }
                }
            }
        }
        d = d + 1;
    }
    assert(views.take(views.len() as int) =~= views);
}

/// The atoms in a slice, each once.
fn slice(
    defs: &Vec<Vec<Def>>,
    decision: bool,
    opaque: &Vec<Atom>,
    roots: &Vec<Atom>,
) -> (r: Vec<Atom>)
    requires
        defs_ok(all_def_views(defs@), defs@.len()),
        forall|k: int| 0 <= k < roots@.len() ==> (#[trigger] roots@[k])@.0 < defs@.len(),
    ensures
        forall|a: AtomView| #[trigger]
            plain_views(r@).contains(a) <==> in_slice(
                all_def_views(defs@),
                decision,
                plain_views(opaque@).to_set(),
                plain_views(roots@).to_set(),
                a,
            ),
        forall|k: int| 0 <= k < r@.len() ==> (#[trigger] r@[k])@.0 < defs@.len(),
{
    let ghost n = defs@.len();
    let ghost views = all_def_views(defs@);
    let ghost step = slice_step(views, decision, plain_views(opaque@).to_set());
    let ghost starts = plain_views(roots@).to_set();
    let mut seen: Vec<Atom> = Vec::new();
    let mut queue: Vec<Atom> = Vec::new();
    let mut i: usize = 0;
    while i < roots.len()
        invariant
            i <= roots@.len(),
            n == defs@.len(),
            forall|k: int| 0 <= k < roots@.len() ==> (#[trigger] roots@[k])@.0 < n,
            queue@.len() == i,
            forall|k: int| 0 <= k < i ==> (#[trigger] queue@[k])@ == roots@[k]@,
        decreases roots.len() - i,
    {
        queue.push(roots[i].copied());
        i = i + 1;
    }
    proof {
        assert(plain_views(queue@) =~= plain_views(roots@));
        assert forall|a: AtomView| #[trigger] plain_views(queue@).contains(a) implies reachable(
            step,
            starts,
            a,
        ) by {
            lemma_root_reachable(step, starts, a);
        }
        assert forall|k: int| 0 <= k < queue@.len() implies (#[trigger] queue@[k])@.0 < n by {
            assert(roots@[k]@.0 < n);
        }
        assert(plain_views(seen@) =~= Seq::<AtomView>::empty());
    }
    while queue.len() > 0
        invariant
            n == defs@.len(),
            views == all_def_views(defs@),
            defs_ok(views, n),
            step == slice_step(views, decision, plain_views(opaque@).to_set()),
            starts == plain_views(roots@).to_set(),
            plain_views(seen@).no_duplicates(),
            forall|k: int| 0 <= k < seen@.len() ==> (#[trigger] seen@[k])@.0 < n,
            forall|k: int| 0 <= k < queue@.len() ==> (#[trigger] queue@[k])@.0 < n,
            forall|a: AtomView| #[trigger]
                plain_views(seen@).contains(a) ==> reachable(step, starts, a),
            forall|a: AtomView| #[trigger]
                plain_views(queue@).contains(a) ==> reachable(step, starts, a),
            forall|a: AtomView| #[trigger]
                starts.contains(a) ==> plain_views(seen@).contains(a) || plain_views(
                    queue@,
                ).contains(a),
            forall|a: AtomView, b: AtomView|
                plain_views(seen@).contains(a) && #[trigger] step(a, b) ==> plain_views(
                    seen@,
                ).contains(b) || plain_views(queue@).contains(b),
        decreases atom_bound() - seen@.len(), queue@.len(),
    {
        let ghost queue0 = plain_views(queue@);
        let ghost seen0 = plain_views(seen@);
        let at = queue.pop().unwrap();
        let ghost popped = plain_views(queue@);
        proof {
            assert(queue0 =~= popped.push(at@));
            lemma_view_push_contains(popped, at@, at@);
            assert(queue0.contains(at@));
            assert forall|a: AtomView| #[trigger] popped.contains(a) implies queue0.contains(a) by {
                lemma_view_push_contains(popped, at@, a);
            }
        }
        if holds(&seen, &at) {
            proof {
                assert forall|a: AtomView| queue0.contains(a) implies popped.contains(a)
                    || seen0.contains(a) by {
                    lemma_view_push_contains(popped, at@, a);
                }
            }
        } else {
            let blocked = decision && any_overlaps(opaque, &at);
            proof {
                assert(views[at@.0 as int] == def_views(defs@[at@.0 as int]@));
                assert forall|d: int| 0 <= d < defs@[at@.0 as int]@.len() implies reads_ok(
                    (#[trigger] def_views(defs@[at@.0 as int]@)[d]).reads,
                    n,
                ) by {
                    assert(reads_ok(views[at@.0 as int][d].reads, n));
                }
            }
            queue_followed(&defs[at.local], decision, blocked, &at, &mut queue, Ghost(n));
            let ghost grown = plain_views(queue@);
            let ghost here = at@;
            proof {
                lemma_plain_views_push(seen@, at);
            }
            seen.push(at);
            proof {
                let seen1 = plain_views(seen@);
                assert(seen1 == seen0.push(here));
                assert forall|x: AtomView| #[trigger]
                    leads_among(views[here.0 as int], decision, blocked, here, x) <==> step(
                        here,
                        x,
                    ) by {
                    if !decision {
                        lemma_storage_never_blocked(
                            views[here.0 as int],
                            overlapped(plain_views(opaque@).to_set(), here),
                            here,
                            x,
                        );
                    }
                }
                assert(seen1.no_duplicates()) by {
                    assert forall|i: int, j: int|
                        0 <= i < seen1.len() && 0 <= j < seen1.len() && i != j implies seen1[i]
                        != seen1[j] by {
                        if i < seen0.len() && j == seen0.len() {
                            assert(seen0.contains(seen0[i]));
                        }
                        if j < seen0.len() && i == seen0.len() {
                            assert(seen0.contains(seen0[j]));
                        }
                    }
                }
                assert forall|k: int| 0 <= k < seen1.len() implies (#[trigger] seen1[k]).1.len()
                    <= usize::MAX by {
                    assert(seen1[k] == seen@[k]@);
                    assert(seen@[k].path@.len() == seen@[k].path.len());
                }
                lemma_distinct_atoms_bounded(seen1);
                assert forall|a: AtomView| #[trigger] seen1.contains(a) implies reachable(
                    step,
                    starts,
                    a,
                ) by {
                    lemma_view_push_contains(seen0, here, a);
                }
                assert forall|a: AtomView| #[trigger] grown.contains(a) implies reachable(
                    step,
                    starts,
                    a,
                ) by {
                    if !popped.contains(a) {
                        assert(step(here, a));
                        lemma_step_reachable(step, starts, here, a);
                    }
                }
                assert forall|a: AtomView| #[trigger] starts.contains(a) implies seen1.contains(a)
                    || grown.contains(a) by {
                    lemma_view_push_contains(seen0, here, a);
                    lemma_view_push_contains(popped, here, a);
                }
                assert forall|a: AtomView, b: AtomView|
                    seen1.contains(a) && #[trigger] step(a, b) implies seen1.contains(b)
                    || grown.contains(b) by {
                    lemma_view_push_contains(seen0, here, a);
                    lemma_view_push_contains(seen0, here, b);
                    lemma_view_push_contains(popped, here, b);
                    if a == here {
                        assert(leads_among(views[here.0 as int], decision, blocked, here, b));
                    }
                }
            }
        }
    }
    proof {
        assert forall|a: AtomView| #[trigger] plain_views(seen@).contains(a) <==> in_slice(
            views,
            decision,
            plain_views(opaque@).to_set(),
            starts,
            a,
        ) by {
            if reachable(step, starts, a) {
                let closed = plain_views(seen@).to_set();
                assert(plain_views(queue@).len() == 0);
                assert forall|x: AtomView, y: AtomView| closed.contains(x) && #[trigger] step(
                    x,
                    y,
                ) implies closed.contains(y) by {
                    assert(plain_views(seen@).contains(x));
                }
                assert(starts.subset_of(closed)) by {
                    assert forall|x: AtomView| starts.contains(x) implies closed.contains(x) by {}
                }
                lemma_closed_holds_reachable(step, starts, closed, a);
            }
        }
    }
    seen
}

/// A storage slice never looks at what is opaque.
proof fn lemma_storage_never_blocked(
    defs: Seq<DefView>,
    blocked: bool,
    at: AtomView,
    x: AtomView,
)
    ensures
        leads_among(defs, false, blocked, at, x) == leads_among(defs, false, false, at, x),
{
    if leads_among(defs, false, blocked, at, x) {
        let (d, k) = choose|d: int, k: int|
            0 <= d < defs.len() && 0 <= k < defs[d].reads.len() && followed(
                false,
                blocked,
                defs[d].dest,
                #[trigger] defs[d].reads[k],
                at,
            ) == Some(x);
        assert(followed(false, false, defs[d].dest, defs[d].reads[k], at) == Some(x));
    }
    if leads_among(defs, false, false, at, x) {
        let (d, k) = choose|d: int, k: int|
            0 <= d < defs.len() && 0 <= k < defs[d].reads.len() && followed(
                false,
                false,
                defs[d].dest,
                #[trigger] defs[d].reads[k],
                at,
            ) == Some(x);
        assert(followed(false, blocked, defs[d].dest, defs[d].reads[k], at) == Some(x));
    }
}

/// Whether a definition whose destination is `dest` touches `path`.
fn touches(dest: &Vec<u32>, path: &Vec<u32>) -> (r: bool)
    ensures
        r == (dest@.is_prefix_of(path@) || path@.is_prefix_of(dest@)),
{
    is_prefix(dest, path) || is_prefix(path, dest)
}

/// The atoms whose payload the definitions of `at`'s local read, appended.
fn add_payloads(defs: &Vec<Def>, at: &Atom, out: &mut Vec<Atom>)
    ensures
        forall|p: AtomView| #[trigger]
            plain_views(final(out)@).contains(p) <==> plain_views(old(out)@).contains(p)
                || payload_among(def_views(defs@), at@, p),
{
    let ghost start = plain_views(out@);
    let ghost views = def_views(defs@);
    let mut d: usize = 0;
    while d < defs.len()
        invariant
            d <= defs@.len(),
            views == def_views(defs@),
            forall|p: AtomView| #[trigger]
                plain_views(out@).contains(p) <==> start.contains(p) || payload_among(
                    views.take(d as int),
                    at@,
                    p,
                ),
        decreases defs.len() - d,
    {
        let ghost so_far = plain_views(out@);
        let ghost reads = views[d as int].reads;
        assert(views[d as int] == defs@[d as int]@);
        let near = touches(&defs[d].dest, &at.path);
        let mut k: usize = 0;
        while k < defs[d].reads.len()
            invariant
                d < defs@.len(),
                reads == read_views(defs@[d as int].reads@),
                k <= reads.len(),
                forall|p: AtomView| #[trigger]
                    plain_views(out@).contains(p) <==> so_far.contains(p) || (near && exists|j: int|
                        0 <= j < k && #[trigger] reads[j] == ReadView::Payload(p)),
            decreases reads.len() - k,
        {
            assert(reads[k as int] == defs@[d as int].reads@[k as int]@);
            let ghost before = plain_views(out@);
            let ghost here = reads[k as int];
            if near {
                match &defs[d].reads[k] {
                    Read::Payload(a) => {
                        let b = a.copied();
                        proof {
                            lemma_plain_views_push(out@, b);
                        }
                        out.push(b);
                    },
                    _ => {},
                }
            }
            proof {
                assert forall|p: AtomView| #[trigger]
                    plain_views(out@).contains(p) <==> so_far.contains(p) || (near && exists|j: int|
                        0 <= j < k + 1 && #[trigger] reads[j] == ReadView::Payload(p)) by {
                    if near && here is Payload {
                        lemma_view_push_contains(before, here->Payload_0, p);
                    }
                    if near && exists|j: int|
                        0 <= j < k + 1 && #[trigger] reads[j] == ReadView::Payload(p) {
                        let j = choose|j: int|
                            0 <= j < k + 1 && #[trigger] reads[j] == ReadView::Payload(p);
                        if j < k {
                            assert(before.contains(p));
                        }
                    }
                    if plain_views(out@).contains(p) && !so_far.contains(p) {
                        if !before.contains(p) {
                            assert(reads[k as int] == ReadView::Payload(p));
                        }
                    }
                    if so_far.contains(p) {
                        assert(before.contains(p));
                    }
                }
            }
            k = k + 1;
        }
        proof {
            let fewer = views.take(d as int);
            let more = views.take(d + 1);
            assert forall|p: AtomView| #[trigger]
                plain_views(out@).contains(p) <==> start.contains(p) || payload_among(
                    more,
                    at@,
                    p,
                ) by {
                if payload_among(fewer, at@, p) {
                    let (i, j) = choose|i: int, j: int|
                        0 <= i < fewer.len() && 0 <= j < fewer[i].reads.len()
                            && #[trigger] fewer[i].reads[j] == ReadView::Payload(p) && (
                        fewer[i].dest.is_prefix_of(at@.1) || at@.1.is_prefix_of(fewer[i].dest));
                    assert(more[i].reads[j] == fewer[i].reads[j]);
                }
                if plain_views(out@).contains(p) && !so_far.contains(p) {
                    let j = choose|j: int|
                        0 <= j < reads.len() && #[trigger] reads[j] == ReadView::Payload(p);
                    assert(more[d as int].reads[j] == reads[j]);
                }
                if payload_among(more, at@, p) {
                    let (i, j) = choose|i: int, j: int|
                        0 <= i < more.len() && 0 <= j < more[i].reads.len()
                            && #[trigger] more[i].reads[j] == ReadView::Payload(p) && (
                        more[i].dest.is_prefix_of(at@.1) || at@.1.is_prefix_of(more[i].dest));
                    if i < d {
                        assert(fewer[i].reads[j] == more[i].reads[j]);
                        assert(payload_among(fewer, at@, p));
                        assert(so_far.contains(p));
                    } else {
                        assert(reads[j] == more[i].reads[j]);
                    }
                }
            }
        }
        d = d + 1;
    }
    assert(views.take(views.len() as int) =~= views);
}

/// Storage slice from `roots`: every atom whose value ends up (as itself, or
/// arithmetically combined) in a root. Returns the slice and the atoms whose
/// variant payload was consumed on the way (produced, not inspected).
pub fn storage_slice(defs: &Vec<Vec<Def>>, roots: &Vec<Atom>) -> (r: (Vec<Atom>, Vec<Atom>))
    requires
        defs_ok(all_def_views(defs@), defs@.len()),
        forall|k: int| 0 <= k < roots@.len() ==> (#[trigger] roots@[k])@.0 < defs@.len(),
    ensures
        forall|a: AtomView| #[trigger]
            plain_views(r.0@).contains(a) <==> stored(
                all_def_views(defs@),
                plain_views(roots@).to_set(),
                a,
            ),
        forall|p: AtomView| #[trigger]
            plain_views(r.1@).contains(p) <==> produced(
                all_def_views(defs@),
                plain_views(roots@).to_set(),
                p,
            ),
{
    let none: Vec<Atom> = Vec::new();
    assert(plain_views(none@).to_set() =~= Set::<AtomView>::empty());
    let seen = slice(defs, false, &none, roots);
    let ghost views = all_def_views(defs@);
    let ghost starts = plain_views(roots@).to_set();
    let ghost all = plain_views(seen@);
    let mut out: Vec<Atom> = Vec::new();
    let mut i: usize = 0;
    while i < seen.len()
        invariant
            i <= seen@.len(),
            views == all_def_views(defs@),
            all == plain_views(seen@),
            forall|k: int| 0 <= k < seen@.len() ==> (#[trigger] seen@[k])@.0 < defs@.len(),
            forall|p: AtomView| #[trigger]
                plain_views(out@).contains(p) <==> exists|k: int|
                    0 <= k < i && payload_read(views, #[trigger] all[k], p),
        decreases seen.len() - i,
    {
        let ghost before = plain_views(out@);
        assert(all[i as int] == seen@[i as int]@);
        assert(views[all[i as int].0 as int] == def_views(defs@[all[i as int].0 as int]@));
        add_payloads(&defs[seen[i].local], &seen[i], &mut out);
        proof {
            assert forall|p: AtomView| #[trigger]
                plain_views(out@).contains(p) <==> exists|k: int|
                    0 <= k < i + 1 && payload_read(views, #[trigger] all[k], p) by {
                if before.contains(p) {
                    let k = choose|k: int| 0 <= k < i && payload_read(views, #[trigger] all[k], p);
                    assert(payload_read(views, all[k], p));
                }
                if plain_views(out@).contains(p) && !before.contains(p) {
                    assert(payload_read(views, all[i as int], p));
                }
                if exists|k: int| 0 <= k < i + 1 && payload_read(views, #[trigger] all[k], p) {
                    let k = choose|k: int|
                        0 <= k < i + 1 && payload_read(views, #[trigger] all[k], p);
                    if k < i {
                        assert(before.contains(p));
                    }
                }
            }
        }
        i = i + 1;
    }
    proof {
        assert forall|p: AtomView| #[trigger] plain_views(out@).contains(p) <==> produced(
            views,
            starts,
            p,
        ) by {
            if plain_views(out@).contains(p) {
                let k = choose|k: int|
                    0 <= k < all.len() && payload_read(views, #[trigger] all[k], p);
                assert(all.contains(all[k]));
                assert(stored(views, starts, all[k]));
            }
            if produced(views, starts, p) {
                let at = choose|at: AtomView| #[trigger]
                    stored(views, starts, at) && payload_read(views, at, p);
                assert(all.contains(at));
                let k = choose|k: int| 0 <= k < all.len() && all[k] == at;
                assert(payload_read(views, all[k], p));
            }
        }
    }
    (seen, out)
}

/// Decision slice from a branch operand. `opaque` holds atoms whose defining
/// call must not be entered: produced-payload bases (the branch consumed the
/// callee's verdict, it did not inspect the arguments) and stored values (a
/// method failing on a stored value implicates that value, not everything
/// its constructor was handed).
pub fn decision_slice(defs: &Vec<Vec<Def>>, roots: &Vec<Atom>, opaque: &Vec<Atom>) -> (r: Vec<Atom>)
    requires
        defs_ok(all_def_views(defs@), defs@.len()),
        forall|k: int| 0 <= k < roots@.len() ==> (#[trigger] roots@[k])@.0 < defs@.len(),
    ensures
        forall|a: AtomView| #[trigger]
            plain_views(r@).contains(a) <==> in_slice(
                all_def_views(defs@),
                true,
                plain_views(opaque@).to_set(),
                plain_views(roots@).to_set(),
                a,
            ),
{
    slice(defs, true, opaque, roots)
}

/// Some decision atom inspects some stored one.
pub open spec fn meet(storage: Set<AtomView>, decision: Set<AtomView>) -> bool {
    exists|s: AtomView, d: AtomView| #[trigger]
        storage.contains(s) && #[trigger] decision.contains(d) && atom_inspects(d, s)
}

pub fn slices_meet(storage: &Vec<Atom>, decision: &Vec<Atom>) -> (r: bool)
    ensures
        r == meet(plain_views(storage@).to_set(), plain_views(decision@).to_set()),
{
    let ghost ss = plain_views(storage@);
    let ghost ds = plain_views(decision@);
    let mut i: usize = 0;
    while i < storage.len()
        invariant
            i <= storage@.len(),
            ss == plain_views(storage@),
            ds == plain_views(decision@),
            forall|k: int, j: int|
                0 <= k < i && 0 <= j < ds.len() ==> !atom_inspects(
                    #[trigger] ds[j],
                    #[trigger] ss[k],
                ),
        decreases storage.len() - i,
    {
        let mut j: usize = 0;
        while j < decision.len()
            invariant
                i < storage@.len(),
                j <= decision@.len(),
                ss == plain_views(storage@),
                ds == plain_views(decision@),
                forall|k: int| 0 <= k < j ==> !atom_inspects(#[trigger] ds[k], ss[i as int]),
            decreases decision.len() - j,
        {
            assert(ss[i as int] == storage@[i as int]@);
            assert(ds[j as int] == decision@[j as int]@);
            if decision[j].inspects(&storage[i]) {
                assert(ss.to_set().contains(ss[i as int]));
                assert(ds.to_set().contains(ds[j as int]));
                return true;
            }
            j = j + 1;
        }
        i = i + 1;
    }
    proof {
        assert forall|s: AtomView, d: AtomView| #[trigger]
            ss.to_set().contains(s) && #[trigger] ds.to_set().contains(d) implies !atom_inspects(
            d,
            s,
        ) by {
            let k = choose|k: int| 0 <= k < ss.len() && ss[k] == s;
            let j = choose|j: int| 0 <= j < ds.len() && ds[j] == d;
            assert(!atom_inspects(ds[j], ss[k]));
        }
    }
    false
}

/// Following a copy keeps a stored value stored: what is in the slice of a
/// root is in the slice of every set of roots that holds it.
pub proof fn lemma_storage_monotonic(
    defs: Seq<Seq<DefView>>,
    few: Set<AtomView>,
    many: Set<AtomView>,
    a: AtomView,
)
    requires
        few.subset_of(many),
        stored(defs, few, a),
    ensures
        stored(defs, many, a),
{
    let step = slice_step(defs, false, Set::empty());
    let closed = Set::new(|x: AtomView| stored(defs, many, x));
    assert(few.subset_of(closed)) by {
        assert forall|x: AtomView| few.contains(x) implies closed.contains(x) by {
            lemma_root_reachable(step, many, x);
        }
    }
    assert forall|x: AtomView, y: AtomView| closed.contains(x) && #[trigger] step(
        x,
        y,
    ) implies closed.contains(y) by {
        lemma_step_reachable(step, many, x, y);
    }
    lemma_closed_holds_reachable(step, few, closed, a);
}

/// What a slice follows a definition to: a copy to what it copies, part by
/// part; a field of an aggregate to the operand it was built from, and only to
/// that one; anything derived to what it is derived from.
pub proof fn lemma_slices_follow_values(
    decision: bool,
    blocked: bool,
    dest: Seq<u32>,
    rem: Seq<u32>,
    l: usize,
    a: AtomView,
    i: u32,
    j: u32,
)
    ensures
        followed(decision, blocked, dest, ReadView::Same(a), (l, dest + rem)) == Some(
            extended_atom(a, rem),
        ),
        followed(decision, blocked, dest, ReadView::Derived(a), (l, dest + rem)) == Some(a),
        followed(decision, blocked, dest + rem, ReadView::Same(a), (l, dest)) matches Some(x)
            && x.0 == a.0,
        followed(decision, blocked, dest, ReadView::AggField(i, a), (l, dest)) == Some(a),
        followed(decision, blocked, dest, ReadView::AggField(i, a), (l, dest.push(i))) == Some(
            extended_atom(a, Seq::empty()),
        ),
        i != j ==> followed(decision, blocked, dest, ReadView::AggField(i, a), (l, dest.push(j)))
            is None,
{
    let at = dest + rem;
    assert(dest.is_prefix_of(at));
    assert(at.skip(dest.len() as int) =~= rem);
    let n = dest.len() as int;
    assert(dest.skip(n) =~= Seq::empty());
    assert(dest.is_prefix_of(dest));
    assert(dest.is_prefix_of(dest.push(i)) && dest.is_prefix_of(dest.push(j)));
    assert(dest.push(i).skip(n) =~= seq![i]);
    assert(dest.push(j).skip(n) =~= seq![j]);
    assert(seq![i].skip(1) =~= Seq::empty());
    if rem.len() == 0 {
        assert(dest + rem =~= dest);
    } else {
        assert(!at.is_prefix_of(dest));
    }
}

/// A slice of what decides goes on through variants, payloads, indices and
/// calls; a slice of what is stored stops at all of them, and both stop where
/// a call may change its argument.
pub proof fn lemma_only_decisions_go_through_calls(
    dest: Seq<u32>,
    rem: Seq<u32>,
    l: usize,
    a: AtomView,
    i: usize,
)
    ensures
        followed(true, false, dest, ReadView::CallArg(a), (l, dest + rem)) == Some(a),
        followed(true, true, dest, ReadView::CallArg(a), (l, dest + rem)) is None,
        followed(false, false, dest, ReadView::CallArg(a), (l, dest + rem)) is None,
        followed(true, false, dest, ReadView::Discr(a), (l, dest + rem)) == Some(a),
        followed(false, false, dest, ReadView::Discr(a), (l, dest + rem)) is None,
        followed(true, false, dest, ReadView::Payload(a), (l, dest + rem)) == Some(a),
        followed(false, false, dest, ReadView::Payload(a), (l, dest + rem)) is None,
        followed(true, false, dest, ReadView::ViaMut(a), (l, dest + rem)) == Some(a),
        followed(false, false, dest, ReadView::ViaMut(a), (l, dest + rem)) is None,
        followed(true, false, dest, ReadView::Index(i), (l, dest + rem)) == Some(
            (i, Seq::<u32>::empty()),
        ),
        followed(false, false, dest, ReadView::Index(i), (l, dest + rem)) is None,
        followed(true, false, dest, ReadView::CallArgMut, (l, dest + rem)) is None,
        followed(false, false, dest, ReadView::CallArgMut, (l, dest + rem)) is None,
{
    assert(dest.is_prefix_of(dest + rem));
}

/// A definition of one part says nothing of another.
pub proof fn lemma_other_parts_are_not_followed(
    decision: bool,
    blocked: bool,
    dest: Seq<u32>,
    read: ReadView,
    l: usize,
    f: u32,
    g: u32,
)
    requires
        f != g,
    ensures
        followed(decision, blocked, dest.push(f), read, (l, dest.push(g))) is None,
{
    let a = dest.push(f);
    let b = dest.push(g);
    let n = dest.len() as int;
    assert(a[n] == f && b[n] == g);
    assert(!a.is_prefix_of(b));
    assert(!b.is_prefix_of(a));
}

/// A slice holds its roots, and goes on through every definition of what it
/// holds.
pub proof fn lemma_slice_is_closed(
    defs: Seq<Seq<DefView>>,
    decision: bool,
    opaque: Set<AtomView>,
    roots: Set<AtomView>,
    at: AtomView,
    d: int,
    k: int,
)
    requires
        at.0 < defs.len(),
        0 <= d < defs[at.0 as int].len(),
        0 <= k < defs[at.0 as int][d].reads.len(),
    ensures
        roots.contains(at) ==> in_slice(defs, decision, opaque, roots, at),
        in_slice(defs, decision, opaque, roots, at) ==> (followed(
            decision,
            overlapped(opaque, at),
            defs[at.0 as int][d].dest,
            defs[at.0 as int][d].reads[k],
            at,
        ) matches Some(x) ==> in_slice(defs, decision, opaque, roots, x)),
{
    let step = slice_step(defs, decision, opaque);
    if roots.contains(at) {
        crate::reach::lemma_root_reachable(step, roots, at);
    }
    if in_slice(defs, decision, opaque, roots, at) {
        match followed(
            decision,
            overlapped(opaque, at),
            defs[at.0 as int][d].dest,
            defs[at.0 as int][d].reads[k],
            at,
        ) {
            Some(x) => {
                assert(leads_among(
                    defs[at.0 as int],
                    decision,
                    overlapped(opaque, at),
                    at,
                    x,
                ));
                assert(step(at, x));
                crate::reach::lemma_step_reachable(step, roots, at, x);
            },
            None => {},
        }
    }
}

/// A decision meets what is stored where it looks at a stored place or at a
/// part of it; looking at the whole of which a part is stored does not count.
pub proof fn lemma_decision_meets_storage(
    storage: Set<AtomView>,
    decision: Set<AtomView>,
    l: usize,
    path: Seq<u32>,
    tail: Seq<u32>,
)
    ensures
        storage.contains((l, path)) && decision.contains((l, path + tail)) ==> meet(
            storage,
            decision,
        ),
        meet(storage, decision) ==> exists|s: AtomView, d: AtomView| #[trigger]
            storage.contains(s) && #[trigger] decision.contains(d) && s.0 == d.0 && s.1.len()
                <= d.1.len(),
{
    assert(path.is_prefix_of(path + tail));
    assert(atom_inspects((l, path + tail), (l, path)));
}

} // verus!
