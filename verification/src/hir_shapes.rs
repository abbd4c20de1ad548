//! Shapes several lints read off expressions the same way: the literal `self`
//! receiver, a field of it, a condition with its negations peeled, a branch
//! that ends in `return`, and the definition a call expression invokes. Each
//! lint applies its own filters on top; what lives here is only the part they
//! spell identically.

use crate::defs::Definitions;
use crate::hir::{Block, Expr, ExprKind, Parent, QPath, Res, Stmt, StmtKind, UnOp};
use crate::ids::{DefId, Symbol};
use crate::text::{chars_of, string_of};
use crate::ty::{adt_id, peeled};
use vstd::prelude::*;
use vstd::string::*;

verus! {

/// A path of one plain segment.
pub open spec fn single_segment(p: QPath) -> Option<Symbol> {
    if !p.type_relative && !p.has_self && p.segments@.len() == 1 {
        Some(p.segments@[0])
    } else {
        None
    }
}

pub fn lone_segment(p: &QPath) -> (r: Option<Symbol>)
    ensures
        r == single_segment(*p),
{
    if !p.type_relative && !p.has_self && p.segments.len() == 1 {
        Some(p.segments[0])
    } else {
        None
    }
}

/// The definition a path resolves to.
pub open spec fn res_def(r: Res) -> Option<DefId> {
    match r {
        Res::Def(_, d) => Some(d),
        _ => None,
    }
}

pub fn def_of_res(r: Res) -> (d: Option<DefId>)
    ensures
        d == res_def(r),
{
    match r {
        Res::Def(_, d) => Some(d),
        _ => None,
    }
}

/// The bare `self` path.
pub open spec fn names_self(defs: Definitions, e: Expr) -> bool {
    match e.kind {
        ExprKind::Path(p) => single_segment(p) matches Some(s) && defs.text(s) == "self"@,
        _ => false,
    }
}

pub fn is_self_path(defs: &Definitions, e: &Expr) -> (r: bool)
    ensures
        r == names_self(*defs, *e),
{
    match &e.kind {
        ExprKind::Path(p) => match lone_segment(p) {
            Some(s) => defs.reads(s, "self"),
            None => false,
        },
        _ => false,
    }
}

/// `self.field`, as the `self` expression it is read off and the field name.
pub open spec fn field_of_self(defs: Definitions, e: Expr) -> Option<(Expr, Symbol)> {
    match e.kind {
        ExprKind::Field(base, name) => if names_self(defs, *base) {
            Some((*base, name))
        } else {
            None
        },
        _ => None,
    }
}

pub fn self_field<'a>(defs: &Definitions, e: &'a Expr) -> (r: Option<(&'a Expr, Symbol)>)
    ensures
        match r {
            Some(p) => field_of_self(*defs, *e) == Some((*p.0, p.1)),
            None => field_of_self(*defs, *e) is None,
        },
{
    match &e.kind {
        ExprKind::Field(base, name) => if is_self_path(defs, base) {
            Some((base, *name))
        } else {
            None
        },
        _ => None,
    }
}

/// An expression under explicit derefs.
pub open spec fn under_derefs(e: Expr) -> Expr
    decreases e,
{
    match e.kind {
        ExprKind::Unary(op, inner) => if op == UnOp::Deref {
            under_derefs(*inner)
        } else {
            e
        },
        ExprKind::DropTemps(inner) => under_derefs(*inner),
        _ => e,
    }
}

/// The `base.field` an assignment target writes, through any number of
/// explicit derefs: `x.f`, `(*this).f`, `*s.f`.
pub open spec fn written_field(place: Expr) -> Option<(Expr, Symbol)> {
    match under_derefs(place).kind {
        ExprKind::Field(base, name) => Some((*base, name)),
        _ => None,
    }
}

pub fn assigned_field<'a>(place: &'a Expr) -> (r: Option<(&'a Expr, Symbol)>)
    ensures
        match r {
            Some(p) => written_field(*place) == Some((*p.0, p.1)),
            None => written_field(*place) is None,
        },
    decreases place,
{
    match &place.kind {
        ExprKind::Unary(UnOp::Deref, inner) => assigned_field(inner),
        ExprKind::DropTemps(inner) => assigned_field(inner),
        ExprKind::Field(base, name) => Some((base, *name)),
        _ => None,
    }
}

/// The struct, enum or union behind an expression's adjusted type.
pub open spec fn adjusted_adt(e: Expr) -> Option<DefId> {
    adt_id(peeled(e.adjusted))
}

pub fn adt_behind(e: &Expr) -> (r: Option<DefId>)
    ensures
        r == adjusted_adt(*e),
{
    e.adjusted.peel_refs().adt()
}

/// `written_field` with the base resolved to the ADT behind its adjusted
/// type, so a write through a `Box`, a guard or any other `Deref` container
/// reaches the type it holds.
pub open spec fn written_adt_field(place: Expr) -> Option<(DefId, Symbol)> {
    match written_field(place) {
        Some(p) => match adjusted_adt(p.0) {
            Some(d) => Some((d, p.1)),
            None => None,
        },
        None => None,
    }
}

pub fn assigned_adt_field(place: &Expr) -> (r: Option<(DefId, Symbol)>)
    ensures
        r == written_adt_field(*place),
{
    match assigned_field(place) {
        Some((base, name)) => match adt_behind(base) {
            Some(d) => Some((d, name)),
            None => None,
        },
        None => None,
    }
}

/// A condition with every `!` and wrapper stripped, in any interleaving, and
/// whether at least one `!` was among them. `!!x` reports negated: the
/// callers ask whether the condition is spelled as a bail-out, not what it
/// evaluates to.
pub open spec fn without_not(e: Expr) -> (Expr, bool)
    decreases e,
{
    match e.kind {
        ExprKind::Unary(op, inner) => if op == UnOp::Not {
            (without_not(*inner).0, true)
        } else {
            (e, false)
        },
        ExprKind::DropTemps(inner) => without_not(*inner),
        _ => (e, false),
    }
}

pub fn peel_not<'a>(e: &'a Expr) -> (r: (&'a Expr, bool))
    ensures
        (*r.0, r.1) == without_not(*e),
    decreases e,
{
    match &e.kind {
        ExprKind::Unary(UnOp::Not, inner) => (peel_not(inner).0, true),
        ExprKind::DropTemps(inner) => peel_not(inner),
        _ => (e, false),
    }
}

/// The expression's final action is a `return`.
pub open spec fn returns_last(e: Expr) -> bool
    decreases e,
{
    match e.kind {
        ExprKind::Ret(_) => true,
        ExprKind::Block(b) => block_returns_last(b),
        _ => false,
    }
}

pub open spec fn block_returns_last(b: Block) -> bool
    decreases b,
{
    match b.expr {
        Some(tail) => returns_last(*tail),
        None => if b.stmts@.len() > 0 {
            stmt_returns_last(b.stmts@[b.stmts@.len() - 1])
        } else {
            false
        },
    }
}

pub open spec fn stmt_returns_last(s: Stmt) -> bool
    decreases s,
{
    match s.kind {
        StmtKind::Expr(x) => returns_last(x),
        StmtKind::Semi(x) => returns_last(x),
        _ => false,
    }
}

pub fn ends_in_return(e: &Expr) -> (r: bool)
    ensures
        r == returns_last(*e),
    decreases e,
{
    proof {
        reveal_with_fuel(returns_last, 2);
        reveal_with_fuel(block_returns_last, 2);
        reveal_with_fuel(stmt_returns_last, 2);
    }
    match &e.kind {
        ExprKind::Ret(_) => true,
        ExprKind::Block(b) => match &b.expr {
            Some(tail) => ends_in_return(tail),
            None => {
                let n: usize = b.stmts.len();
                if n > 0 {
                    assert(decreases_to!(b.stmts => b.stmts@[n - 1]));
                    match &b.stmts[n - 1].kind {
                        StmtKind::Expr(x) => ends_in_return(x),
                        StmtKind::Semi(x) => ends_in_return(x),
                        _ => false,
                    }
                } else {
                    false
                }
            },
        },
        _ => false,
    }
}

/// Blocks without statements, `unsafe` ones included, are transparent.
pub open spec fn inside_blocks(e: Expr) -> Expr
    decreases e,
{
    match e.kind {
        ExprKind::Block(b) => if b.stmts@.len() == 0 && b.expr is Some {
            inside_blocks(*b.expr->Some_0)
        } else {
            e
        },
        _ => e,
    }
}

pub fn peel_blocks_unsafe<'a>(e: &'a Expr) -> (r: &'a Expr)
    ensures
        *r == inside_blocks(*e),
    decreases e,
{
    match &e.kind {
        ExprKind::Block(b) => if b.stmts.len() == 0 {
            match &b.expr {
                Some(x) => peel_blocks_unsafe(x),
                None => e,
            }
        } else {
            e
        },
        _ => e,
    }
}

/// What a call expression invokes. `def` is unfiltered — constructors and
/// foreign definitions come back too — because each caller wants a different
/// subset. A call through anything but a path (a closure value, a field
/// holding a fn pointer) resolves to nothing.
pub open spec fn called_def(e: Expr) -> Option<DefId> {
    match e.kind {
        ExprKind::Call(callee, _) => match callee.kind {
            ExprKind::Path(p) => res_def(p.res),
            _ => None,
        },
        ExprKind::MethodCall(_, _, _) => e.method,
        _ => None,
    }
}

/// A resolved call: what it invokes, whether it is a method call, and its
/// arguments but for a receiver.
#[derive(Debug)]
pub struct Callee<'a> {
    pub def: DefId,
    pub method: bool,
    pub args: &'a Vec<Expr>,
}

/// The arguments of a call but for a receiver.
pub open spec fn call_args(e: Expr) -> Seq<Expr> {
    match e.kind {
        ExprKind::Call(_, args) => args@,
        ExprKind::MethodCall(_, _, args) => args@,
        _ => Seq::empty(),
    }
}

pub fn callee_of<'a>(e: &'a Expr) -> (r: Option<Callee<'a>>)
    ensures
        match r {
            Some(c) => called_def(*e) == Some(c.def) && c.method == (e.kind is MethodCall)
                && c.args@ == call_args(*e),
            None => called_def(*e) is None,
        },
{
    match &e.kind {
        ExprKind::Call(callee, args) => match &callee.kind {
            ExprKind::Path(p) => match def_of_res(p.res) {
                Some(def) => Some(Callee { def, method: false, args }),
                None => None,
            },
            _ => None,
        },
        ExprKind::MethodCall(_, _, args) => match e.method {
            Some(def) => Some(Callee { def, method: true, args }),
            None => None,
        },
        _ => None,
    }
}

/// The name a value goes by: a local it is spelled as, or the last field of
/// a field access, through `&`, `*` and casts. Anything computed has no name.
pub open spec fn spelled_name(e: Expr) -> Option<Symbol>
    decreases e,
{
    match e.kind {
        ExprKind::Cast(inner) => spelled_name(*inner),
        ExprKind::AddrOf(_, _, inner) => spelled_name(*inner),
        ExprKind::Unary(op, inner) => if op == UnOp::Deref {
            spelled_name(*inner)
        } else {
            None
        },
        ExprKind::DropTemps(inner) => spelled_name(*inner),
        ExprKind::Field(_, name) => Some(name),
        ExprKind::Path(p) => if p.res is Local {
            single_segment(p)
        } else {
            None
        },
        _ => None,
    }
}

pub fn value_name(e: &Expr) -> (r: Option<Symbol>)
    ensures
        r == spelled_name(*e),
    decreases e,
{
    match &e.kind {
        ExprKind::Cast(inner) => value_name(inner),
        ExprKind::AddrOf(_, _, inner) => value_name(inner),
        ExprKind::Unary(UnOp::Deref, inner) => value_name(inner),
        ExprKind::DropTemps(inner) => value_name(inner),
        ExprKind::Field(_, name) => Some(*name),
        ExprKind::Path(p) => match p.res {
            Res::Local(_) => lone_segment(p),
            _ => None,
        },
        _ => None,
    }
}

// ---------------------------------------------------------------- paths

/// What is left of a path once its generic segments are dropped, and how deep
/// in angle brackets it ends.
pub struct Stripped {
    pub out: Seq<char>,
    pub depth: nat,
    /// The second colon of a pair whose first was dropped comes next.
    pub skip: bool,
}

/// One more character of a path.
pub open spec fn strip_step(s: Stripped, c: char, next: Option<char>) -> Stripped {
    if s.skip {
        Stripped { skip: false, ..s }
    } else if c == '<' {
        Stripped { depth: s.depth + 1, ..s }
    } else if c == '>' {
        Stripped {
            depth: if s.depth > 0 {
                (s.depth - 1) as nat
            } else {
                0
            },
            ..s
        }
    } else if s.depth > 0 {
        s
    } else if c == ':' && next == Some(':') && crate::text::has_suffix(s.out, seq![':', ':']) {
        Stripped { skip: true, ..s }
    } else {
        Stripped { out: s.out.push(c), ..s }
    }
}

/// The first `k` characters of a path, stripped.
pub open spec fn stripped_to(path: Seq<char>, k: int) -> Stripped
    decreases k,
{
    if k <= 0 {
        Stripped { out: Seq::empty(), depth: 0, skip: false }
    } else {
        strip_step(
            stripped_to(path, k - 1),
            path[k - 1],
            if k < path.len() {
                Some(path[k])
            } else {
                None
            },
        )
    }
}

/// `std::vec::Vec::<T>::push` -> `std::vec::Vec::push`: generic-argument
/// segments would defeat suffix matching, and no pattern is per-instantiation.
pub open spec fn stripped(path: Seq<char>) -> Seq<char> {
    stripped_to(path, path.len() as int).out
}

proof fn lemma_stripped_len(path: Seq<char>, k: int)
    requires
        0 <= k <= path.len(),
    ensures
        stripped_to(path, k).out.len() <= k,
        stripped_to(path, k).depth <= k,
    decreases k,
{
    if k > 0 {
        lemma_stripped_len(path, k - 1);
    }
}

pub fn strip_generic_segments(path: &str) -> (r: String)
    ensures
        r@ == stripped(path@),
{
    let chars = chars_of(path);
    let mut out: Vec<char> = Vec::new();
    let mut depth: usize = 0;
    let mut skip = false;
    let mut i: usize = 0;
    while i < chars.len()
        invariant
            i <= chars@.len(),
            chars@ == path@,
            stripped_to(path@, i as int) == (Stripped { out: out@, depth: depth as nat, skip }),
        decreases chars.len() - i,
    {
        proof {
            lemma_stripped_len(path@, i as int);
        }
        let c: char = chars[i];
        let n: usize = out.len();
        proof {
            if crate::text::has_suffix(out@, seq![':', ':']) {
                assert(out@.subrange(n - 2, n as int) == seq![':', ':']);
                assert(out@[n - 2] == out@.subrange(n - 2, n as int)[0]);
                assert(out@[n - 1] == out@.subrange(n - 2, n as int)[1]);
            }
            if n >= 2 && out@[n - 2] == ':' && out@[n - 1] == ':' {
                assert(out@.subrange(n - 2, n as int) =~= seq![':', ':']);
            }
        }
        if skip {
            skip = false;
        } else if c == '<' {
            depth = depth + 1;
        } else if c == '>' {
            if depth > 0 {
                depth = depth - 1;
            }
        } else if depth > 0 {
        } else if c == ':' && i + 1 < chars.len() && chars[i + 1] == ':' && n >= 2 && out[n - 2]
            == ':' && out[n - 1] == ':' {
            skip = true;
        } else {
            out.push(c);
        }
        i = i + 1;
    }
    string_of(&out)
}

/// There is no angle bracket in the text.
pub open spec fn bracketless(s: Seq<char>) -> bool {
    forall|i: int| 0 <= i < s.len() ==> #[trigger] s[i] != '<' && s[i] != '>'
}

/// No two pairs of colons stand side by side: no segment is empty.
pub open spec fn no_empty_segment(s: Seq<char>) -> bool {
    forall|i: int|
        #![trigger s[i]]
        0 <= i && i + 3 < s.len() ==> !(s[i] == ':' && s[i + 1] == ':' && s[i + 2] == ':' && s[i
            + 3] == ':')
}

proof fn lemma_prefix_bracketless(path: Seq<char>, k: int)
    requires
        0 <= k <= path.len(),
    ensures
        bracketless(stripped_to(path, k).out),
    decreases k,
{
    if k > 0 {
        lemma_prefix_bracketless(path, k - 1);
    }
}

/// Stripping leaves no angle bracket.
pub proof fn lemma_no_bracket_left(path: Seq<char>)
    ensures
        bracketless(stripped(path)),
{
    lemma_prefix_bracketless(path, path.len() as int);
}

/// From position `from`, where `out` is what has been kept, up to `to`, every
/// character is kept as long as none is a bracket and no segment is empty.
proof fn lemma_run_kept(path: Seq<char>, from: int, to: int, k: int, out: Seq<char>)
    requires
        0 <= from <= k <= to <= path.len(),
        to < path.len() ==> path[to] != ':',
        stripped_to(path, from) == (Stripped { out, depth: 0, skip: false }),
        bracketless(path.subrange(from, to)),
        no_empty_segment(out + path.subrange(from, to)),
    ensures
        stripped_to(path, k) == (Stripped {
            out: out + path.subrange(from, k),
            depth: 0,
            skip: false,
        }),
    decreases k - from,
{
    if k == from {
        assert(out + path.subrange(from, k) =~= out);
    } else {
        lemma_run_kept(path, from, to, k - 1, out);
        let all = out + path.subrange(from, to);
        let before = out + path.subrange(from, k - 1);
        let c = path[k - 1];
        assert(path.subrange(from, to)[k - 1 - from] == c);
        let n = before.len() as int;
        if c == ':' && k < path.len() && path[k] == ':' && crate::text::has_suffix(
            before,
            seq![':', ':'],
        ) {
            assert(before.subrange(n - 2, n)[0] == before[n - 2]);
            assert(before.subrange(n - 2, n)[1] == before[n - 1]);
            assert(k < to);
            assert(all[n - 2] == before[n - 2] && all[n - 2 + 1] == before[n - 1]);
            assert(all[n - 2 + 2] == c && all[n - 2 + 3] == path[k]);
        }
        assert(out + path.subrange(from, k) =~= before.push(c));
    }
}

/// A path without angle brackets and without an empty segment is left as it
/// is.
pub proof fn lemma_plain_path_kept(path: Seq<char>)
    requires
        bracketless(path),
        no_empty_segment(path),
    ensures
        stripped(path) == path,
{
    let n = path.len() as int;
    let none = Seq::<char>::empty();
    assert(path.subrange(0, n) =~= path);
    assert(none + path =~= path);
    lemma_run_kept(path, 0, n, n, none);
}

proof fn lemma_inside_dropped(path: Seq<char>, from: int, k: int, out: Seq<char>)
    requires
        0 <= from <= k <= path.len(),
        stripped_to(path, from) == (Stripped { out, depth: 1, skip: false }),
        bracketless(path.subrange(from, k)),
    ensures
        stripped_to(path, k) == (Stripped { out, depth: 1, skip: false }),
    decreases k - from,
{
    if from < k {
        assert(path.subrange(from, k)[k - 1 - from] == path[k - 1]);
        assert(path.subrange(from, k - 1) =~= path.subrange(from, k).take(k - 1 - from));
        lemma_inside_dropped(path, from, k - 1, out);
    }
}

/// A segment of generic arguments is dropped with the colons that set it off:
/// what is left is the path without it.
pub proof fn lemma_generic_segment_dropped(a: Seq<char>, generics: Seq<char>, b: Seq<char>)
    requires
        bracketless(a) && bracketless(generics) && bracketless(b),
        no_empty_segment(a + seq![':', ':'] + b),
    ensures
        stripped(a + seq![':', ':', '<'] + generics + seq!['>', ':', ':'] + b) == a + seq![
            ':',
            ':',
        ] + b,
{
    let path = a + seq![':', ':', '<'] + generics + seq!['>', ':', ':'] + b;
    let kept = a + seq![':', ':'];
    let whole = kept + b;
    let none = Seq::<char>::empty();
    let m = kept.len() as int;
    assert(path.subrange(0, m) =~= kept);
    assert(none + kept =~= kept);
    assert(no_empty_segment(kept)) by {
        assert forall|i: int|
            #![trigger kept[i]]
            0 <= i && i + 3 < kept.len() implies !(kept[i] == ':' && kept[i + 1] == ':' && kept[i
            + 2] == ':' && kept[i + 3] == ':') by {
            assert(whole[i] == kept[i] && whole[i + 1] == kept[i + 1]);
            assert(whole[i + 2] == kept[i + 2] && whole[i + 3] == kept[i + 3]);
        }
    }
    assert(bracketless(kept));
    lemma_run_kept(path, 0, m, m, none);
    assert(path[m] == '<');
    assert(stripped_to(path, m + 1) == (Stripped { out: kept, depth: 1, skip: false }));
    let g = m + 1 + generics.len() as int;
    assert(path.subrange(m + 1, g) =~= generics);
    lemma_inside_dropped(path, m + 1, g, kept);
    assert(path[g] == '>' && path[g + 1] == ':' && path[g + 2] == ':');
    assert(stripped_to(path, g + 1) == (Stripped { out: kept, depth: 0, skip: false }));
    assert(kept.subrange(m - 2, m) =~= seq![':', ':']);
    assert(stripped_to(path, g + 2) == (Stripped { out: kept, depth: 0, skip: true }));
    assert(stripped_to(path, g + 3) == (Stripped { out: kept, depth: 0, skip: false }));
    let n = path.len() as int;
    assert(path.subrange(g + 3, n) =~= b);
    lemma_run_kept(path, g + 3, n, n, kept);
}

/// A definition's path with generic segments stripped, bare and prefixed
/// with its crate name: the two spellings a config pattern may name it by.
pub open spec fn path_spellings(defs: Definitions, def: DefId) -> (Seq<char>, Seq<char>) {
    let path = stripped(defs.path_text(def));
    (path, defs.crate_text(def) + "::"@ + path)
}

pub fn def_path_names(defs: &Definitions, def: DefId) -> (r: (String, String))
    ensures
        (r.0@, r.1@) == path_spellings(*defs, def),
{
    let path = strip_generic_segments(defs.path_of(def));
    let mut with_crate = String::from_str(defs.crate_of(def));
    with_crate.append("::");
    with_crate.append(path.as_str());
    (path, with_crate)
}

/// Two expressions are known to denote one value.
pub open spec fn same_value(a: Expr, b: Expr) -> bool {
    match (a.value_class, b.value_class) {
        (Some(x), Some(y)) => x == y,
        _ => false,
    }
}

pub fn eq_value(a: &Expr, b: &Expr) -> (r: bool)
    ensures
        r == same_value(*a, *b),
{
    match (a.value_class, b.value_class) {
        (Some(x), Some(y)) => x == y,
        _ => false,
    }
}

/// An expression under temporaries and shared borrows.
pub open spec fn under_refs(e: Expr) -> Expr
    decreases e,
{
    match e.kind {
        ExprKind::DropTemps(inner) => under_refs(*inner),
        ExprKind::AddrOf(raw, mutable, inner) => if !raw && !mutable {
            under_refs(*inner)
        } else {
            e
        },
        _ => e,
    }
}

pub fn strip_ref<'a>(e: &'a Expr) -> (r: &'a Expr)
    ensures
        *r == under_refs(*e),
    decreases e,
{
    match &e.kind {
        ExprKind::DropTemps(inner) => strip_ref(inner),
        ExprKind::AddrOf(raw, mutable, inner) => if !*raw && !*mutable {
            strip_ref(inner)
        } else {
            e
        },
        _ => e,
    }
}

/// The node just around the expression is a call of it.
pub open spec fn is_callee(e: Expr, parents: Seq<Parent>) -> bool {
    parents.len() > 0 && match parents[0] {
        Parent::Expr(p) => p.kind matches ExprKind::Call(callee, _) && callee.id == e.id,
        _ => false,
    }
}

pub fn in_callee_position(e: &Expr, parents: &Vec<Parent>) -> (r: bool)
    ensures
        r == is_callee(*e, parents@),
{
    parents.len() > 0 && match &parents[0] {
        Parent::Expr(p) => match &p.kind {
            ExprKind::Call(callee, _) => callee.id == e.id,
            _ => false,
        },
        _ => false,
    }
}

/// `self` is the path of that one name; a field of it is `self.field`.
pub proof fn lemma_self_is_a_bare_path(defs: Definitions, e: Expr, base: Expr, name: Symbol)
    ensures
        (e.kind matches ExprKind::Path(p) && !p.type_relative && !p.has_self && p.segments@.len()
            == 1 && defs.text(p.segments@[0]) == "self"@) <==> names_self(defs, e),
        e.kind == ExprKind::Field(Box::new(base), name) && names_self(defs, base) ==> field_of_self(
            defs,
            e,
        ) == Some((base, name)),
        e.kind == ExprKind::Field(Box::new(base), name) && !names_self(defs, base)
            ==> field_of_self(defs, e) is None,
{
}

/// Writing through derefs writes the field behind them.
pub proof fn lemma_write_reaches_the_field(place: Expr, inner: Expr, base: Expr, name: Symbol)
    ensures
        place.kind == ExprKind::Unary(UnOp::Deref, Box::new(inner)) || place.kind
            == ExprKind::DropTemps(Box::new(inner)) ==> written_field(place) == written_field(
            inner,
        ),
        place.kind == ExprKind::Field(Box::new(base), name) ==> written_field(place) == Some(
            (base, name),
        ),
        place.kind is Path || place.kind is Index || place.kind is Call ==> written_field(place)
            is None,
        place.kind == ExprKind::Field(Box::new(base), name) ==> written_adt_field(place)
            == match adjusted_adt(base) {
            Some(d) => Some((d, name)),
            None => None,
        },
{
}

/// Peeling a condition takes every `!` off and remembers that there was one.
pub proof fn lemma_negation_is_peeled(e: Expr, inner: Expr)
    ensures
        e.kind == ExprKind::Unary(UnOp::Not, Box::new(inner)) ==> without_not(e).1
            && without_not(e).0 == without_not(inner).0,
        e.kind == ExprKind::DropTemps(Box::new(inner)) ==> without_not(e) == without_not(inner),
        !(e.kind is Unary) && !(e.kind is DropTemps) ==> without_not(e) == (e, false),
        e.kind matches ExprKind::Unary(op, _) && op != UnOp::Not ==> without_not(e) == (e, false),
{
}

/// A block ends in a `return` where its tail does, or its last statement where
/// it has no tail.
pub proof fn lemma_ends_in_return(e: Expr, b: Block)
    ensures
        e.kind is Ret ==> returns_last(e),
        e.kind == ExprKind::Block(b) ==> ({
            &&& b.expr matches Some(tail) ==> returns_last(e) == returns_last(*tail)
            &&& b.expr is None && b.stmts@.len() == 0 ==> !returns_last(e)
            &&& b.expr is None && b.stmts@.len() > 0 ==> returns_last(e) == match b.stmts@[
            b.stmts@.len() - 1].kind {
                StmtKind::Expr(x) => returns_last(x),
                StmtKind::Semi(x) => returns_last(x),
                _ => false,
            }
        }),
        !(e.kind is Ret) && !(e.kind is Block) ==> !returns_last(e),
{
    reveal_with_fuel(returns_last, 2);
    reveal_with_fuel(block_returns_last, 2);
    reveal_with_fuel(stmt_returns_last, 2);
}

/// A call by path invokes what the path resolves to, a method call what the
/// method resolves to; nothing else is a call.
pub proof fn lemma_call_resolves(e: Expr, d: DefId)
    ensures
        (e.kind matches ExprKind::Call(f, _) && (f.kind matches ExprKind::Path(p) && (
        p.res matches Res::Def(_, x) && x == d))) ==> called_def(e) == Some(d),
        e.kind is MethodCall ==> called_def(e) == e.method,
        !(e.kind is Call) && !(e.kind is MethodCall) ==> called_def(e) is None,
        (e.kind matches ExprKind::Call(f, _) && !(f.kind is Path)) ==> called_def(e) is None,
{
}

/// A value goes by the local or field it is spelled as, through casts,
/// borrows and derefs; what is computed goes by no name.
pub proof fn lemma_value_goes_by_its_spelling(e: Expr, inner: Expr)
    ensures
        e.kind == ExprKind::Cast(Box::new(inner)) || e.kind == ExprKind::DropTemps(Box::new(inner))
            || e.kind == ExprKind::Unary(UnOp::Deref, Box::new(inner)) || (
        e.kind matches ExprKind::AddrOf(_, _, x) && *x == inner) ==> spelled_name(e)
            == spelled_name(inner),
        e.kind matches ExprKind::Field(_, n) ==> spelled_name(e) == Some(n),
        (e.kind matches ExprKind::Path(p) && p.res is Local && !p.type_relative && !p.has_self
            && p.segments@.len() == 1) ==> spelled_name(e) == Some(e.kind->Path_0.segments@[0]),
        (e.kind matches ExprKind::Path(p) && !(p.res is Local)) ==> spelled_name(e) is None,
        e.kind is Lit || e.kind is Binary || e.kind is Call || e.kind is MethodCall || e.kind
            is Index ==> spelled_name(e) is None,
        (e.kind matches ExprKind::Unary(op, _) && op != UnOp::Deref) ==> spelled_name(e) is None,
{
}

/// Expressions denote one value only where both are known to, and a shared
/// borrow denotes what is behind it.
pub proof fn lemma_one_value(a: Expr, b: Expr, inner: Expr)
    ensures
        same_value(a, b) <==> a.value_class is Some && a.value_class == b.value_class,
        a.kind == ExprKind::AddrOf(false, false, Box::new(inner)) || a.kind == ExprKind::DropTemps(
            Box::new(inner),
        ) ==> under_refs(a) == under_refs(inner),
        !(a.kind is AddrOf) && !(a.kind is DropTemps) ==> under_refs(a) == a,
        (a.kind matches ExprKind::AddrOf(r, m, _) && (r || m)) ==> under_refs(a) == a,
{
}

} // verus!
