//! A call argument whose own name is the name of a *different* parameter of
//! the callee than the one it is bound to, when both parameters have the same
//! type: `resize(height, width)` against `fn resize(width: u32, height: u32)`.
//!
//! Silent when the names agree after dropping a leading `is_`/`has_`/`_` and
//! a trailing `_`, when the parameter the name points at already receives an
//! argument of that name, when the bound parameter's name contains the
//! argument's as a word (`from_index` receiving `index`), for one-character
//! names, method receivers, and calls through closures or fn pointers.

use crate::defs::{Definitions, FnSig};
use crate::hir::Expr;
use crate::hir_shapes::{call_args, called_def, callee_of, spelled_name, value_name};
use crate::ids::{DefId, Symbol};
use crate::report::{emit, finding, views, Finding, FindingView, Lint};
use crate::text::{
    chars_of, occurs_at, same_chars, stands_at, strip_prefix, trim_end_char,
    trim_start_char, trimmed_end, trimmed_start, without_prefix,
};
use crate::ty::ty_eq;
use vstd::prelude::*;
use vstd::string::*;

verus! {

/// `is_open_` and `open` name the same thing for this lint's purposes.
pub open spec fn plain_name(name: Seq<char>) -> Seq<char> {
    let bare = trimmed_end(trimmed_start(name, '_'), '_');
    match without_prefix(bare, "is_"@) {
        Some(rest) => rest,
        None => match without_prefix(bare, "has_"@) {
            Some(rest) => rest,
            None => bare,
        },
    }
}

pub fn normalized(name: &str) -> (r: Vec<char>)
    ensures
        r@ == plain_name(name@),
{
    let chars = chars_of(name);
    let bare = trim_end_char(&trim_start_char(&chars, '_'), '_');
    match strip_prefix(&bare, "is_") {
        Some(rest) => rest,
        None => match strip_prefix(&bare, "has_") {
            Some(rest) => rest,
            None => bare,
        },
    }
}

/// The name stands at `i` as a word: an underscore or an end on each side.
pub open spec fn word_at(param: Seq<char>, arg: Seq<char>, i: int) -> bool {
    &&& occurs_at(param, arg, i)
    &&& i == 0 || param[i - 1] == '_'
    &&& i + arg.len() == param.len() || param[(i + arg.len()) as int] == '_'
}

/// `from_file_index` qualifies `file_index` rather than naming another slot:
/// it contains it as a word, and more.
pub open spec fn is_qualified(param: Seq<char>, arg: Seq<char>) -> bool {
    param.len() > arg.len() && exists|i: int| #[trigger] word_at(param, arg, i)
}

fn is_word_at(param: &Vec<char>, arg: &Vec<char>, i: usize) -> (r: bool)
    ensures
        r == word_at(param@, arg@, i as int),
{
    if !stands_at(param, arg, i) {
        return false;
    }
    let rest: usize = param.len() - i;
    (i == 0 || param[i - 1] == '_') && (rest == arg.len() || param[i + arg.len()] == '_')
}

pub fn qualifies(param: &Vec<char>, arg: &Vec<char>) -> (r: bool)
    ensures
        r == is_qualified(param@, arg@),
{
    if param.len() <= arg.len() {
        return false;
    }
    let last: usize = param.len() - arg.len();
    let mut i: usize = 0;
    while i < last
        invariant
            i <= last,
            param@.len() > arg@.len(),
            forall|k: int| 0 <= k < i ==> !#[trigger] word_at(param@, arg@, k),
        decreases last - i,
    {
        if is_word_at(param, arg, i) {
            return true;
        }
        i = i + 1;
    }
    is_word_at(param, arg, last)
}

/// An argument that crosses: its position among the arguments, its name, the
/// parameter it is bound to, and the signature slot its name points at.
#[derive(Clone, Copy, Debug, PartialEq, Eq, Structural)]
pub struct Crossing {
    pub arg: usize,
    pub name: Symbol,
    pub bound_to: Symbol,
    pub names_param: usize,
}

/// The name signature slot `slot` receives at a call whose arguments start at
/// slot `offset`.
pub open spec fn received(args: Seq<Expr>, offset: int, slot: int) -> Option<Symbol> {
    if offset <= slot < offset + args.len() {
        spelled_name(args[slot - offset])
    } else {
        None
    }
}

/// Slot `q` is another parameter of the same type, with the name.
pub open spec fn namesake(
    defs: Definitions,
    sig: FnSig,
    slot: int,
    name: Seq<char>,
    q: int,
) -> bool {
    &&& q != slot
    &&& ty_eq(sig.inputs@[q].ty, sig.inputs@[slot].ty)
    &&& sig.idents@[q] matches Some(p) && plain_name(defs.text(p)) == name
}

/// The first slot from `q` on that is a namesake.
pub open spec fn first_namesake(
    defs: Definitions,
    sig: FnSig,
    slot: int,
    name: Seq<char>,
    q: int,
) -> Option<int>
    decreases sig.inputs@.len() - q,
{
    if q >= sig.inputs@.len() {
        None
    } else if namesake(defs, sig, slot, name, q) {
        Some(q)
    } else {
        first_namesake(defs, sig, slot, name, q + 1)
    }
}

/// The crossing argument `i` makes, if it makes one.
pub open spec fn crossing_at(
    defs: Definitions,
    sig: FnSig,
    args: Seq<Expr>,
    offset: int,
    i: int,
) -> Option<Crossing> {
    let slot = i + offset;
    match (spelled_name(args[i]), sig.idents@[slot]) {
        (Some(name), Some(bound_to)) => {
            let an = plain_name(defs.text(name));
            let bn = plain_name(defs.text(bound_to));
            if args[i].origin.from_expansion || an.len() < 2 || bn.len() < 2 || an == bn
                || is_qualified(bn, an) {
                None
            } else {
                match first_namesake(defs, sig, slot, an, 0) {
                    Some(other) => if received(args, offset, other) matches Some(r) && plain_name(
                        defs.text(r),
                    ) == an {
                        None
                    } else {
                        Some(
                            Crossing {
                                arg: i as usize,
                                name,
                                bound_to,
                                names_param: other as usize,
                            },
                        )
                    },
                    None => None,
                }
            }
        },
        _ => None,
    }
}

/// The crossings among the first `k` arguments.
pub open spec fn crossings(
    defs: Definitions,
    sig: FnSig,
    args: Seq<Expr>,
    offset: int,
    k: int,
) -> Seq<Crossing>
    decreases k,
{
    if k <= 0 {
        Seq::empty()
    } else {
        let before = crossings(defs, sig, args, offset, k - 1);
        match crossing_at(defs, sig, args, offset, k - 1) {
            Some(c) => before.push(c),
            None => before,
        }
    }
}

/// Two crossings are each bound where the other belongs.
pub open spec fn swapped(c: Crossing, d: Crossing, offset: int) -> bool {
    d.arg + offset == c.names_param && c.arg + offset == d.names_param
}

/// The first crossing from `j` on that is swapped with `c`.
pub open spec fn partner(cs: Seq<Crossing>, c: Crossing, offset: int, j: int) -> Option<int>
    decreases cs.len() - j,
{
    if j >= cs.len() {
        None
    } else if swapped(c, cs[j], offset) {
        Some(j)
    } else {
        partner(cs, c, offset, j + 1)
    }
}

pub open spec fn advice() -> Seq<char> {
    "give the two parameters distinct types (a newtype per quantity, an enum per flag) so a swap is a type error"@
}

pub open spec fn pair_message(
    defs: Definitions,
    def: DefId,
    sig: FnSig,
    offset: int,
    c: Crossing,
    d: Crossing,
) -> Seq<char> {
    "arguments `"@ + defs.text(c.name) + "` and `"@ + defs.text(d.name) + "` are bound to `"@
        + defs.name_text(def) + "`'s parameters `"@ + defs.text(c.bound_to) + "` and `"@
        + defs.text(d.bound_to) + "`; all are `"@ + sig.inputs@[c.arg + offset].text@
        + "`, so the transposition type-checks"@
}

pub open spec fn single_message(
    defs: Definitions,
    def: DefId,
    sig: FnSig,
    offset: int,
    c: Crossing,
) -> Seq<char> {
    let other = match sig.idents@[c.names_param as int] {
        Some(p) => p,
        None => c.name,
    };
    "argument `"@ + defs.text(c.name) + "` is bound to `"@ + defs.name_text(def)
        + "`'s parameter `"@ + defs.text(c.bound_to) + "`, but `"@ + defs.name_text(def)
        + "` also takes a parameter `"@ + defs.text(other) + "` of the same type `"@
        + sig.inputs@[c.arg + offset].text@ + "`"@
}

/// What is reported of the crossings from `k` on, those in `done` having been
/// reported with another.
pub open spec fn reports(
    defs: Definitions,
    def: DefId,
    sig: FnSig,
    call: Expr,
    offset: int,
    cs: Seq<Crossing>,
    k: int,
    done: Set<int>,
) -> Seq<FindingView>
    decreases cs.len() - k,
{
    if k >= cs.len() {
        Seq::empty()
    } else if done.contains(k) {
        reports(defs, def, sig, call, offset, cs, k + 1, done)
    } else {
        match partner(cs, cs[k], offset, k + 1) {
            Some(j) => seq![
                finding(
                    Lint::MisboundArg,
                    call.span,
                    pair_message(defs, def, sig, offset, cs[k], cs[j]),
                    advice(),
                ),
            ] + reports(defs, def, sig, call, offset, cs, k + 1, done.insert(j)),
            None => seq![
                finding(
                    Lint::MisboundArg,
                    call_args(call)[cs[k].arg as int].span,
                    single_message(defs, def, sig, offset, cs[k]),
                    advice(),
                ),
            ] + reports(defs, def, sig, call, offset, cs, k + 1, done),
        }
    }
}

/// Where the explicit arguments of a call start in the signature: a method
/// call's receiver is bound to `self`.
pub open spec fn first_slot(call: Expr) -> int {
    if call.kind is MethodCall {
        1
    } else {
        0
    }
}

/// What the lint says of an expression.
pub open spec fn misbound(defs: Definitions, e: Expr) -> Seq<FindingView> {
    match called_def(e) {
        Some(def) => match defs.sig(def) {
            Some(sig) => {
                let args = call_args(e);
                let offset = first_slot(e);
                if e.origin.from_expansion || !defs.is_fn(def) || sig.idents@.len()
                    != sig.inputs@.len() || args.len() + offset > sig.inputs@.len() {
                    Seq::empty()
                } else {
                    reports(
                        defs,
                        def,
                        sig,
                        e,
                        offset,
                        crossings(defs, sig, args, offset, args.len() as int),
                        0,
                        Set::empty(),
                    )
                }
            },
            None => Seq::empty(),
        },
        None => Seq::empty(),
    }
}

fn find_namesake(
    defs: &Definitions,
    sig: &FnSig,
    slot: usize,
    name: &Vec<char>,
) -> (r: Option<usize>)
    requires
        sig.idents@.len() == sig.inputs@.len(),
        slot < sig.inputs@.len(),
    ensures
        match r {
            Some(q) => q < sig.inputs@.len() && first_namesake(*defs, *sig, slot as int, name@, 0)
                == Some(q as int),
            None => first_namesake(*defs, *sig, slot as int, name@, 0) is None,
        },
{
    let mut q: usize = 0;
    while q < sig.inputs.len()
        invariant
            q <= sig.inputs@.len(),
            slot < sig.inputs@.len(),
            sig.idents@.len() == sig.inputs@.len(),
            first_namesake(*defs, *sig, slot as int, name@, 0) == first_namesake(
                *defs,
                *sig,
                slot as int,
                name@,
                q as int,
            ),
        decreases sig.inputs.len() - q,
    {
        let hit = q != slot && sig.inputs[q].ty.same_as(&sig.inputs[slot].ty)
            && match sig.idents[q] {
            Some(p) => same_chars(&normalized(defs.text_of(p)), name),
            None => false,
        };
        if hit {
            return Some(q);
        }
        q = q + 1;
    }
    None
}

fn find_crossing(
    defs: &Definitions,
    sig: &FnSig,
    args: &Vec<Expr>,
    offset: usize,
    i: usize,
) -> (r: Option<Crossing>)
    requires
        sig.idents@.len() == sig.inputs@.len(),
        i < args@.len(),
        args@.len() + offset <= sig.inputs@.len(),
    ensures
        r == crossing_at(*defs, *sig, args@, offset as int, i as int),
{
    assert(args@.len() + offset <= sig.inputs.len());
    let slot: usize = i + offset;
    let (name, bound_to) = match (value_name(&args[i]), sig.idents[slot]) {
        (Some(n), Some(b)) => (n, b),
        _ => {
            return None;
        },
    };
    if args[i].origin.from_expansion {
        return None;
    }
    let an = normalized(defs.text_of(name));
    let bn = normalized(defs.text_of(bound_to));
    if an.len() < 2 || bn.len() < 2 || same_chars(&an, &bn) || qualifies(&bn, &an) {
        return None;
    }
    match find_namesake(defs, sig, slot, &an) {
        Some(other) => {
            let taken = if offset <= other && other - offset < args.len() {
                match value_name(&args[other - offset]) {
                    Some(r) => same_chars(&normalized(defs.text_of(r)), &an),
                    None => false,
                }
            } else {
                false
            };
            if taken {
                None
            } else {
                Some(Crossing { arg: i, name, bound_to, names_param: other })
            }
        },
        None => None,
    }
}

fn find_partner(cs: &Vec<Crossing>, k: usize, offset: usize) -> (r: Option<usize>)
    requires
        k < cs@.len(),
        forall|i: int| 0 <= i < cs@.len() ==> (#[trigger] cs@[i]).arg + offset <= usize::MAX,
    ensures
        match r {
            Some(j) => k < j < cs@.len() && partner(cs@, cs@[k as int], offset as int, k + 1)
                == Some(j as int),
            None => partner(cs@, cs@[k as int], offset as int, k + 1) is None,
        },
{
    let c: Crossing = cs[k];
    assert(k < cs.len());
    let mut j: usize = k + 1;
    while j < cs.len()
        invariant
            k < j <= cs@.len(),
            c == cs@[k as int],
            forall|i: int| 0 <= i < cs@.len() ==> (#[trigger] cs@[i]).arg + offset <= usize::MAX,
            partner(cs@, c, offset as int, k + 1) == partner(cs@, c, offset as int, j as int),
        decreases cs.len() - j,
    {
        let d: Crossing = cs[j];
        assert(cs@[j as int].arg + offset <= usize::MAX);
        assert(cs@[k as int].arg + offset <= usize::MAX);
        if d.arg + offset == c.names_param && c.arg + offset == d.names_param {
            return Some(j);
        }
        j = j + 1;
    }
    None
}

/// A crossing is of one of the arguments, and points at one of the slots.
pub open spec fn crossing_ok(c: Crossing, nargs: nat, nslots: nat) -> bool {
    c.arg < nargs && c.names_param < nslots
}

proof fn lemma_namesake_within(
    defs: Definitions,
    sig: FnSig,
    slot: int,
    name: Seq<char>,
    q: int,
)
    requires
        q >= 0,
    ensures
        first_namesake(defs, sig, slot, name, q) matches Some(o) ==> 0 <= o < sig.inputs@.len(),
    decreases sig.inputs@.len() - q,
{
    if q < sig.inputs@.len() {
        lemma_namesake_within(defs, sig, slot, name, q + 1);
    }
}

/// What the lint says of an expression.
pub fn check_expr(defs: &Definitions, e: &Expr) -> (r: Vec<Finding>)
    ensures
        views(r@) == misbound(*defs, *e),
{
    let mut out: Vec<Finding> = Vec::new();
    assert(views(out@) =~= Seq::<FindingView>::empty());
    if e.origin.from_expansion {
        return out;
    }
    let callee = match callee_of(e) {
        Some(c) => c,
        None => {
            return out;
        },
    };
    let def = callee.def;
    if !defs.function_here(def) {
        return out;
    }
    let sig = match defs.sig_of(def) {
        Some(s) => s,
        None => {
            return out;
        },
    };
    let args = callee.args;
    let offset: usize = if callee.method {
        1
    } else {
        0
    };
    let n: usize = sig.inputs.len();
    if sig.idents.len() != n || args.len() > n || offset > n - args.len() {
        return out;
    }
    let mut cs: Vec<Crossing> = Vec::new();
    let mut i: usize = 0;
    while i < args.len()
        invariant
            i <= args@.len(),
            sig.idents@.len() == sig.inputs@.len() == n,
            args@.len() + offset <= n,
            cs@ == crossings(*defs, *sig, args@, offset as int, i as int),
            forall|k: int|
                0 <= k < cs@.len() ==> crossing_ok(#[trigger] cs@[k], args@.len(), n as nat),
        decreases args.len() - i,
    {
        match find_crossing(defs, sig, args, offset, i) {
            Some(c) => {
                proof {
                    let an = plain_name(defs.text(c.name));
                    lemma_namesake_within(*defs, *sig, i + offset, an, 0);
                }
                cs.push(c);
            },
            None => {},
        }
        i = i + 1;
    }
    let mut reported: Vec<bool> = Vec::new();
    let mut z: usize = 0;
    while z < cs.len()
        invariant
            z <= cs@.len(),
            reported@.len() == z,
            forall|k: int| 0 <= k < z ==> !#[trigger] reported@[k],
        decreases cs.len() - z,
    {
        reported.push(false);
        z = z + 1;
    }
    let ghost mut done: Set<int> = Set::empty();
    let ghost want = misbound(*defs, *e);
    let mut k: usize = 0;
    assert(views(out@) + reports(*defs, def, *sig, *e, offset as int, cs@, 0, done) =~= want);
    while k < cs.len()
        invariant
            k <= cs@.len() == reported@.len(),
            sig.idents@.len() == sig.inputs@.len() == n,
            args@.len() + offset <= n,
            args@ == call_args(*e),
            forall|j: int|
                0 <= j < cs@.len() ==> crossing_ok(#[trigger] cs@[j], args@.len(), n as nat),
            forall|j: int| k <= j < cs@.len() ==> #[trigger] reported@[j] == done.contains(j),
            views(out@) + reports(*defs, def, *sig, *e, offset as int, cs@, k as int, done) == want,
        decreases cs.len() - k,
    {
        let ghost before = views(out@);
        let ghost rest = reports(*defs, def, *sig, *e, offset as int, cs@, k as int, done);
        assert(reported@[k as int] == done.contains(k as int));
        if !reported[k] {
            let c: Crossing = cs[k];
            assert(crossing_ok(cs@[k as int], args@.len(), n as nat));
            proof {
                assert forall|i: int| 0 <= i < cs@.len() implies (#[trigger] cs@[i]).arg + offset
                    <= usize::MAX by {
                    assert(crossing_ok(cs@[i], args@.len(), n as nat));
                }
            }
            let slot: usize = c.arg + offset;
            match find_partner(&cs, k, offset) {
                Some(j) => {
                    let d: Crossing = cs[j];
                    let mut msg = String::from_str("arguments `");
                    msg.append(defs.text_of(c.name));
                    msg.append("` and `");
                    msg.append(defs.text_of(d.name));
                    msg.append("` are bound to `");
                    msg.append(defs.name_of(def));
                    msg.append("`'s parameters `");
                    msg.append(defs.text_of(c.bound_to));
                    msg.append("` and `");
                    msg.append(defs.text_of(d.bound_to));
                    msg.append("`; all are `");
                    msg.append(sig.inputs[slot].text.as_str());
                    msg.append("`, so the transposition type-checks");
                    emit(
                        &mut out,
                        Lint::MisboundArg,
                        e.span,
                        msg,
                        "give the two parameters distinct types (a newtype per quantity, an enum per flag) so a swap is a type error",
                    );
                    reported.set(j, true);
                    proof {
                        done = done.insert(j as int);
                        let f = views(out@).last();
                        assert(rest =~= seq![f] + reports(
                            *defs,
                            def,
                            *sig,
                            *e,
                            offset as int,
                            cs@,
                            k + 1,
                            done,
                        ));
                    }
                },
                None => {
                    let other = match sig.idents[c.names_param] {
                        Some(p) => p,
                        None => c.name,
                    };
                    let mut msg = String::from_str("argument `");
                    msg.append(defs.text_of(c.name));
                    msg.append("` is bound to `");
                    msg.append(defs.name_of(def));
                    msg.append("`'s parameter `");
                    msg.append(defs.text_of(c.bound_to));
                    msg.append("`, but `");
                    msg.append(defs.name_of(def));
                    msg.append("` also takes a parameter `");
                    msg.append(defs.text_of(other));
                    msg.append("` of the same type `");
                    msg.append(sig.inputs[slot].text.as_str());
                    msg.append("`");
                    emit(
                        &mut out,
                        Lint::MisboundArg,
                        args[c.arg].span,
                        msg,
                        "give the two parameters distinct types (a newtype per quantity, an enum per flag) so a swap is a type error",
                    );
                    proof {
                        let f = views(out@).last();
                        assert(rest =~= seq![f] + reports(
                            *defs,
                            def,
                            *sig,
                            *e,
                            offset as int,
                            cs@,
                            k + 1,
                            done,
                        ));
                    }
                },
            }
        }
        proof {
            assert(views(out@) + reports(
                *defs,
                def,
                *sig,
                *e,
                offset as int,
                cs@,
                k + 1,
                done,
            ) =~= before + rest);
        }
        k = k + 1;
    }
    assert(views(out@) =~= want);
    out
}

/// An argument whose name agrees with its own parameter's, or whose parameter
/// qualifies it, is never reported.
pub proof fn lemma_agreeing_name_is_quiet(
    defs: Definitions,
    sig: FnSig,
    args: Seq<Expr>,
    offset: int,
    i: int,
    name: Symbol,
    bound_to: Symbol,
)
    requires
        spelled_name(args[i]) == Some(name),
        sig.idents@[i + offset] == Some(bound_to),
        plain_name(defs.text(name)) == plain_name(defs.text(bound_to)) || is_qualified(
            plain_name(defs.text(bound_to)),
            plain_name(defs.text(name)),
        ),
    ensures
        crossing_at(defs, sig, args, offset, i) is None,
{
}

proof fn lemma_first_namesake(
    defs: Definitions,
    sig: FnSig,
    slot: int,
    name: Seq<char>,
    q: int,
)
    requires
        0 <= q,
    ensures
        first_namesake(defs, sig, slot, name, q) matches Some(p) ==> q <= p < sig.inputs@.len()
            && namesake(defs, sig, slot, name, p),
    decreases sig.inputs@.len() - q,
{
    if q < sig.inputs@.len() && !namesake(defs, sig, slot, name, q) {
        lemma_first_namesake(defs, sig, slot, name, q + 1);
    }
}

/// A crossing is real: the argument's name is that of another parameter of the
/// same type, which does not receive an argument of that name.
pub proof fn lemma_crossing_is_real(
    defs: Definitions,
    sig: FnSig,
    args: Seq<Expr>,
    offset: int,
    i: int,
)
    requires
        sig.inputs@.len() <= usize::MAX,
    ensures
        crossing_at(defs, sig, args, offset, i) matches Some(c) ==> {
            let an = plain_name(defs.text(c.name));
            &&& spelled_name(args[i]) == Some(c.name)
            &&& sig.idents@[i + offset] == Some(c.bound_to)
            &&& an != plain_name(defs.text(c.bound_to))
            &&& namesake(defs, sig, i + offset, an, c.names_param as int)
            &&& received(args, offset, c.names_param as int) matches Some(r) ==> plain_name(
                defs.text(r),
            ) != an
        },
{
    match spelled_name(args[i]) {
        Some(name) => lemma_first_namesake(
            defs,
            sig,
            i + offset,
            plain_name(defs.text(name)),
            0,
        ),
        None => {},
    }
}

/// Two arguments bound where the other belongs make one finding, not two.
pub proof fn lemma_swap_is_one_finding(
    defs: Definitions,
    def: DefId,
    sig: FnSig,
    call: Expr,
    offset: int,
    c: Crossing,
    d: Crossing,
)
    requires
        swapped(c, d, offset),
    ensures
        reports(defs, def, sig, call, offset, seq![c, d], 0, Set::empty()) == seq![
            finding(
                Lint::MisboundArg,
                call.span,
                pair_message(defs, def, sig, offset, c, d),
                advice(),
            ),
        ],
{
    let cs = seq![c, d];
    let done = Set::<int>::empty().insert(1);
    assert(partner(cs, c, offset, 1) == Some(1int));
    assert(reports(defs, def, sig, call, offset, cs, 2, done) =~= Seq::<FindingView>::empty());
    assert(reports(defs, def, sig, call, offset, cs, 1, done) =~= Seq::<FindingView>::empty());
    assert(reports(defs, def, sig, call, offset, cs, 0, Set::empty()) =~= seq![
        finding(
            Lint::MisboundArg,
            call.span,
            pair_message(defs, def, sig, offset, c, d),
            advice(),
        ),
    ]);
}

/// `is_`, `has_` and underscores around a name say nothing of what it is
/// about.
pub proof fn lemma_decoration_is_dropped(w: Seq<char>)
    requires
        w.len() > 0,
        w[0] != '_',
        w.last() != '_',
    ensures
        plain_name("is_"@ + w) == w,
        plain_name("has_"@ + w) == w,
        plain_name(seq!['_'] + w) == plain_name(w),
        plain_name(w.push('_')) == plain_name(w),
        !crate::text::has_prefix(w, "is_"@) && !crate::text::has_prefix(w, "has_"@) ==> plain_name(
            w,
        ) == w,
{
    reveal_strlit("is_");
    reveal_strlit("has_");
    let a = "is_"@ + w;
    let b = "has_"@ + w;
    assert(a.last() == w.last() && b.last() == w.last());
    assert(a[0] == 'i' && b[0] == 'h' && b[1] == 'a');
    crate::text::lemma_prefix(a, "is_"@);
    crate::text::lemma_prefix(b, "has_"@);
    assert(a.skip(3) =~= w);
    assert(b.skip(4) =~= w);
    if crate::text::has_prefix(b, "is_"@) {
        assert(b.subrange(0, 3)[0] == b[0]);
    }
    assert(trimmed_start(a, '_') == a && trimmed_end(a, '_') == a);
    assert(trimmed_start(b, '_') == b && trimmed_end(b, '_') == b);
    assert(trimmed_start(w, '_') == w && trimmed_end(w, '_') == w);
    let c = seq!['_'] + w;
    assert(c.drop_first() =~= w);
    assert(trimmed_start(c, '_') == w);
    let d = w.push('_');
    assert(d.drop_last() =~= w);
    assert(d[0] == w[0]);
    assert(trimmed_start(d, '_') == d);
    assert(trimmed_end(d, '_') == w);
}

/// A parameter qualifies a name that stands in it as whole words; it does not
/// qualify one that it does not hold, or that it is.
pub proof fn lemma_qualified_by_whole_words(head: Seq<char>, arg: Seq<char>, tail: Seq<char>)
    requires
        arg.len() > 0,
    ensures
        is_qualified(head + seq!['_'] + arg, arg),
        is_qualified(arg + seq!['_'] + tail, arg),
        is_qualified(head + seq!['_'] + arg + seq!['_'] + tail, arg),
        !is_qualified(arg, arg),
        head.len() > 0 && head.last() != '_' && !crate::text::occurs_in(
            (head + arg).drop_last(),
            arg,
        ) ==> !is_qualified(head + arg, arg),
{
    let a = head + seq!['_'] + arg;
    let i = head.len() as int + 1;
    assert(a.subrange(i, i + arg.len()) =~= arg);
    assert(word_at(a, arg, i));
    let b = arg + seq!['_'] + tail;
    assert(b.subrange(0, arg.len() as int) =~= arg);
    assert(word_at(b, arg, 0));
    let c = head + seq!['_'] + arg + seq!['_'] + tail;
    assert(c.subrange(i, i + arg.len()) =~= arg);
    assert(word_at(c, arg, i));
    let d = head + arg;
    if head.len() > 0 && head.last() != '_' && is_qualified(d, arg) {
        let k = choose|k: int| #[trigger] word_at(d, arg, k);
        if k == head.len() {
            assert(d[k - 1] == head.last());
        } else {
            let front = d.drop_last();
            assert(front.subrange(k, k + arg.len()) =~= d.subrange(k, k + arg.len()));
            assert(crate::text::occurs_at(front, arg, k));
        }
    }
}

proof fn lemma_namesake_found(
    defs: Definitions,
    sig: FnSig,
    slot: int,
    name: Seq<char>,
    from: int,
    q: int,
)
    requires
        0 <= from <= q < sig.inputs@.len(),
        namesake(defs, sig, slot, name, q),
    ensures
        first_namesake(defs, sig, slot, name, from) matches Some(p) && from <= p <= q && namesake(
            defs,
            sig,
            slot,
            name,
            p,
        ),
    decreases sig.inputs@.len() - from,
{
    if !namesake(defs, sig, slot, name, from) {
        lemma_namesake_found(defs, sig, slot, name, from + 1, q);
    }
}

proof fn lemma_crossing_listed(
    defs: Definitions,
    sig: FnSig,
    args: Seq<Expr>,
    offset: int,
    k: int,
    i: int,
)
    requires
        0 <= i < k <= args.len(),
        crossing_at(defs, sig, args, offset, i) is Some,
    ensures
        crossings(defs, sig, args, offset, k).contains(
            crossing_at(defs, sig, args, offset, i)->Some_0,
        ),
    decreases k,
{
    let c = crossing_at(defs, sig, args, offset, i)->Some_0;
    let all = crossings(defs, sig, args, offset, k);
    let before = crossings(defs, sig, args, offset, k - 1);
    if i == k - 1 {
        assert(all[all.len() - 1] == c);
    } else {
        lemma_crossing_listed(defs, sig, args, offset, k - 1, i);
        let m = choose|m: int| 0 <= m < before.len() && before[m] == c;
        assert(all[m] == c);
    }
}

/// The findings tell of the place, at the argument or at the call.
pub open spec fn tells_of(fs: Seq<FindingView>, call: Expr, arg: Expr) -> bool {
    exists|i: int|
        0 <= i < fs.len() && (#[trigger] fs[i]).lint == Lint::MisboundArg && (fs[i].at == arg.span
            || fs[i].at == call.span)
}

proof fn lemma_crossing_told(
    defs: Definitions,
    def: DefId,
    sig: FnSig,
    call: Expr,
    offset: int,
    cs: Seq<Crossing>,
    k: int,
    done: Set<int>,
    m: int,
)
    requires
        0 <= k <= m < cs.len(),
        !done.contains(m),
    ensures
        tells_of(
            reports(defs, def, sig, call, offset, cs, k, done),
            call,
            call_args(call)[cs[m].arg as int],
        ),
    decreases cs.len() - k,
{
    let arg = call_args(call)[cs[m].arg as int];
    let all = reports(defs, def, sig, call, offset, cs, k, done);
    if done.contains(k) {
        lemma_crossing_told(defs, def, sig, call, offset, cs, k + 1, done, m);
    } else {
        assert(all.len() > 0);
        match partner(cs, cs[k], offset, k + 1) {
            Some(j) => {
                assert(all[0].at == call.span && all[0].lint == Lint::MisboundArg);
                assert(tells_of(all, call, arg));
            },
            None => if m == k {
                assert(all[0].at == arg.span && all[0].lint == Lint::MisboundArg);
                assert(tells_of(all, call, arg));
            } else {
                let rest = reports(defs, def, sig, call, offset, cs, k + 1, done);
                lemma_crossing_told(defs, def, sig, call, offset, cs, k + 1, done, m);
                let i = choose|i: int|
                    0 <= i < rest.len() && (#[trigger] rest[i]).lint == Lint::MisboundArg && (
                    rest[i].at == arg.span || rest[i].at == call.span);
                assert(all[i + 1] == rest[i]);
                assert(all[i + 1].lint == Lint::MisboundArg);
            },
        }
    }
}

/// An argument named like another parameter of the same type than the one it
/// is bound to is reported, unless that other parameter receives one of that
/// name itself.
pub proof fn lemma_misbound_argument_is_reported(
    defs: Definitions,
    e: Expr,
    def: DefId,
    sig: FnSig,
    offset: int,
    i: int,
    name: Symbol,
    bound_to: Symbol,
    q: int,
    other: Symbol,
)
    requires
        called_def(e) == Some(def),
        defs.sig(def) == Some(sig),
        defs.is_fn(def),
        !e.origin.from_expansion,
        sig.idents@.len() == sig.inputs@.len(),
        offset == if e.kind is MethodCall {
            1int
        } else {
            0
        },
        call_args(e).len() + offset <= sig.inputs@.len(),
        0 <= i < call_args(e).len(),
        !call_args(e)[i].origin.from_expansion,
        spelled_name(call_args(e)[i]) == Some(name),
        sig.idents@[i + offset] == Some(bound_to),
        plain_name(defs.text(name)).len() >= 2,
        plain_name(defs.text(bound_to)).len() >= 2,
        plain_name(defs.text(name)) != plain_name(defs.text(bound_to)),
        !is_qualified(plain_name(defs.text(bound_to)), plain_name(defs.text(name))),
        0 <= q < sig.inputs@.len() && q != i + offset,
        ty_eq(sig.inputs@[q].ty, sig.inputs@[i + offset].ty),
        sig.idents@[q] == Some(other),
        plain_name(defs.text(other)) == plain_name(defs.text(name)),
        forall|j: int|
            0 <= j < call_args(e).len() && j != i ==> (spelled_name(
                #[trigger] call_args(e)[j],
            ) matches Some(r) ==> plain_name(defs.text(r)) != plain_name(defs.text(name))),
    ensures
        tells_of(misbound(defs, e), e, call_args(e)[i]),
{
    let args = call_args(e);
    let an = plain_name(defs.text(name));
    let slot = i + offset;
    assert(namesake(defs, sig, slot, an, q));
    lemma_namesake_found(defs, sig, slot, an, 0, q);
    let p = first_namesake(defs, sig, slot, an, 0)->Some_0;
    if offset <= p < offset + args.len() {
        assert(args[p - offset] == call_args(e)[p - offset]);
    }
    let n = args.len() as int;
    let cs = crossings(defs, sig, args, offset, n);
    let c = crossing_at(defs, sig, args, offset, i)->Some_0;
    lemma_crossing_listed(defs, sig, args, offset, n, i);
    let m = choose|m: int| 0 <= m < cs.len() && cs[m] == c;
    match e.kind {
        crate::hir::ExprKind::Call(_, v) => {
            assert(v.len() == args.len());
        },
        crate::hir::ExprKind::MethodCall(_, _, v) => {
            assert(v.len() == args.len());
        },
        _ => {},
    }
    lemma_crossing_told(defs, def, sig, e, offset, cs, 0, Set::empty(), m);
}

/// Names of a letter, calls a macro wrote and calls of what is no function
/// are let be.
pub proof fn lemma_let_be(defs: Definitions, e: Expr, sig: FnSig, offset: int, i: int)
    ensures
        e.origin.from_expansion ==> misbound(defs, e).len() == 0,
        called_def(e) is None ==> misbound(defs, e).len() == 0,
        called_def(e) matches Some(d) ==> (!defs.is_fn(d) ==> misbound(defs, e).len() == 0),
        spelled_name(call_args(e)[i]) is None ==> crossing_at(defs, sig, call_args(e), offset, i)
            is None,
        spelled_name(call_args(e)[i]) matches Some(n) ==> (plain_name(defs.text(n)).len() < 2
            ==> crossing_at(defs, sig, call_args(e), offset, i) is None),
        sig.idents@[i + offset] matches Some(n) ==> (plain_name(defs.text(n)).len() < 2
            ==> crossing_at(defs, sig, call_args(e), offset, i) is None),
        call_args(e)[i].origin.from_expansion ==> crossing_at(defs, sig, call_args(e), offset, i)
            is None,
{
}

} // verus!
