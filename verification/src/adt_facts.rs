//! Shared facts about the structs and enums a crate defines: which struct a
//! type or an impl block is about, what a field's declared type is, and the
//! shape questions (explicit `repr`, positional fields, `Result`'s error
//! type) that several lints ask of the same definition. Every filter that
//! makes a lint fire or not stays in the lint, so this module only ever
//! answers, never decides.

use crate::defs::{AdtDef, DefKind, Definitions, FieldDef, Known, Repr, VariantDef};
use crate::enum_facts::{parent_def, parent_of, res_variant, variant_of_res};
use crate::hir::{Expr, ExprKind, FieldInit, StructTail};
use crate::ids::{DefId, Symbol};
use crate::text::{
    chars_of, ends_with, has_suffix, has_text, occurs_in, rsplit_once, same, split_last, texts,
};
use crate::ty::{adt_id, peeled, Ty};
use vstd::prelude::*;
use vstd::string::*;

verus! {

/// The struct behind `ty` (through any references) when this crate defines
/// it and nothing outside the crate can name it: the structs whose every
/// construction and field write the crate can see, which is what lets a lint
/// claim "never" about them.
pub open spec fn private_struct_behind(defs: Definitions, ty: Ty) -> Option<DefId> {
    match adt_id(peeled(ty)) {
        Some(did) => if defs.is_struct(did) && defs.local(did) && !defs.at(did)->Some_0.is_exported {
            Some(did)
        } else {
            None
        },
        None => None,
    }
}

pub fn private_local_struct(defs: &Definitions, ty: &Ty) -> (r: Option<DefId>)
    ensures
        r == private_struct_behind(*defs, *ty),
{
    match ty.peel_refs().adt() {
        Some(did) => match defs.get(did) {
            Some(d) => if defs.struct_here(did) && d.is_local && !d.is_exported {
                Some(did)
            } else {
                None
            },
            None => None,
        },
        None => None,
    }
}

/// The position of the first field called `name`.
pub open spec fn field_named(fields: Seq<FieldDef>, name: Symbol) -> Option<int>
    decreases fields.len(),
{
    if fields.len() == 0 {
        None
    } else {
        match field_named(fields.drop_last(), name) {
            Some(i) => Some(i),
            None => if fields.last().name == name {
                Some(fields.len() - 1)
            } else {
                None
            },
        }
    }
}

/// The field of a struct (or union) called `name`.
pub open spec fn struct_field_at(defs: Definitions, adt: DefId, name: Symbol) -> Option<FieldDef> {
    match field_named(defs.fields(adt), name) {
        Some(i) => Some(defs.fields(adt)[i]),
        None => None,
    }
}

pub proof fn lemma_field_named(fields: Seq<FieldDef>, name: Symbol)
    ensures
        match field_named(fields, name) {
            Some(i) => 0 <= i < fields.len() && fields[i].name == name && forall|j: int|
                0 <= j < i ==> (#[trigger] fields[j]).name != name,
            None => forall|j: int| 0 <= j < fields.len() ==> (#[trigger] fields[j]).name != name,
        },
    decreases fields.len(),
{
    if fields.len() > 0 {
        let rest = fields.drop_last();
        lemma_field_named(rest, name);
        assert forall|j: int| 0 <= j < rest.len() implies #[trigger] fields[j] == rest[j] by {}
    }
}

/// The position of the first field called `name`.
pub fn position_of_field(fields: &Vec<FieldDef>, name: Symbol) -> (r: Option<usize>)
    ensures
        match r {
            Some(i) => i < fields@.len() && field_named(fields@, name) == Some(i as int),
            None => field_named(fields@, name) is None,
        },
{
    let mut i: usize = 0;
    while i < fields.len()
        invariant
            i <= fields@.len(),
            forall|j: int| 0 <= j < i ==> (#[trigger] fields@[j]).name != name,
        decreases fields.len() - i,
    {
        if fields[i].name == name {
            proof {
                lemma_field_named(fields@, name);
            }
            return Some(i);
        }
        i = i + 1;
    }
    proof {
        lemma_field_named(fields@, name);
    }
    None
}

/// The field of a struct (or union) called `name`.
pub fn struct_field(defs: &Definitions, adt: DefId, name: Symbol) -> (r: Option<&FieldDef>)
    ensures
        match r {
            Some(f) => struct_field_at(*defs, adt, name) == Some(*f),
            None => struct_field_at(*defs, adt, name) is None,
        },
{
    match defs.fields_of(adt) {
        Some(fields) => match position_of_field(fields, name) {
            Some(i) => Some(&fields[i]),
            None => None,
        },
        None => {
            assert(defs.fields(adt) =~= Seq::<FieldDef>::empty());
            None
        },
    }
}

/// A field's declared type, with the struct's own generics left in place.
pub fn field_ty(f: &FieldDef) -> (r: &Ty)
    ensures
        *r == f.ty,
{
    &f.ty
}

/// The ADT an impl block is for.
pub open spec fn impl_adt(defs: Definitions, impl_did: DefId) -> Option<DefId> {
    match defs.at(impl_did) {
        Some(d) => match d.self_ty {
            Some(ty) => adt_id(ty),
            None => None,
        },
        None => None,
    }
}

/// The ADT an impl block is for, whatever its origin; a blanket or foreign
/// impl, or one on a primitive, is None.
pub fn impl_self_adt(defs: &Definitions, impl_did: DefId) -> (r: Option<DefId>)
    ensures
        r == impl_adt(*defs, impl_did),
{
    match defs.get(impl_did) {
        Some(d) => match &d.self_ty {
            Some(ty) => ty.adt(),
            None => None,
        },
        None => None,
    }
}

/// The type is a struct, enum or union known as `k`.
pub open spec fn is_known_ty(defs: Definitions, ty: Ty, k: Known) -> bool {
    adt_id(ty) matches Some(did) && defs.known(did) == k
}

pub fn known_ty(defs: &Definitions, ty: &Ty, k: Known) -> (r: bool)
    ensures
        r == is_known_ty(*defs, *ty, k),
{
    match ty.adt() {
        Some(did) => defs.known_as(did) == k,
        None => false,
    }
}

pub fn is_option_ty(defs: &Definitions, ty: &Ty) -> (r: bool)
    ensures
        r == is_known_ty(*defs, *ty, Known::OptionType),
{
    known_ty(defs, ty, Known::OptionType)
}

/// Some `repr` is asked for.
pub open spec fn fixes_layout(repr: Repr) -> bool {
    repr.c || repr.packed || repr.transparent || repr.simd || repr.int
}

/// An explicit `repr` means something outside Rust fixes the layout, so the
/// value combinations a lint would call unreachable may all be real.
pub fn has_fixed_repr(adt: &AdtDef) -> (r: bool)
    ensures
        r == fixes_layout(adt.repr),
{
    let repr = adt.repr;
    repr.c || repr.packed || repr.transparent || repr.simd || repr.int
}

/// An ASCII decimal digit.
pub open spec fn is_digit(c: char) -> bool {
    '0' <= c <= '9'
}

/// Some field's name starts with a digit.
pub open spec fn positional(defs: Definitions, fields: Seq<FieldDef>) -> bool {
    exists|i: int| 0 <= i < fields.len() && starts_with_digit(defs.text((#[trigger] fields[i]).name))
}

pub open spec fn starts_with_digit(s: Seq<char>) -> bool {
    s.len() > 0 && is_digit(s[0])
}

/// Tuple fields are named "0", "1", ...; a message that wants field names has
/// nothing to say about them.
pub fn has_positional_fields(defs: &Definitions, v: &VariantDef) -> (r: bool)
    ensures
        r == positional(*defs, v.fields@),
{
    let mut i: usize = 0;
    while i < v.fields.len()
        invariant
            i <= v.fields@.len(),
            forall|k: int|
                0 <= k < i ==> !starts_with_digit(defs.text((#[trigger] v.fields@[k]).name)),
        decreases v.fields.len() - i,
    {
        let name = chars_of(defs.text_of(v.fields[i].name));
        if name.len() > 0 && '0' <= name[0] && name[0] <= '9' {
            assert(starts_with_digit(defs.text(v.fields@[i as int].name)));
            return true;
        }
        i = i + 1;
    }
    false
}

/// A configured entry names the definition with this path, name and crate:
/// it is the full path, a `::`-suffix of it, the bare name, or `crate::Name`.
pub open spec fn entry_names(
    path: Seq<char>,
    name: Seq<char>,
    krate: Seq<char>,
    entry: Seq<char>,
) -> bool {
    ||| path == entry
    ||| has_suffix(path, "::"@ + entry)
    ||| match split_last(entry, "::"@) {
        None => name == entry,
        Some(parts) => !occurs_in(parts.0, "::"@) && krate == parts.0 && name == parts.1,
    }
}

/// Some entry names `did`.
pub open spec fn config_names(defs: Definitions, did: DefId, entries: Seq<Seq<char>>) -> bool {
    exists|i: int|
        0 <= i < entries.len() && entry_names(
            defs.path_text(did),
            defs.name_text(did),
            defs.crate_text(did),
            #[trigger] entries[i],
        )
}

fn entry_matches(path: &str, name: &str, krate: &str, entry: &str) -> (r: bool)
    ensures
        r == entry_names(path@, name@, krate@, entry@),
{
    if same(path, entry) {
        return true;
    }
    let mut tail = String::from_str("::");
    tail.append(entry);
    if ends_with(path, tail.as_str()) {
        return true;
    }
    match rsplit_once(entry, "::") {
        None => same(name, entry),
        Some((k, n)) => !has_text(k.as_str(), "::") && same(krate, k.as_str()) && same(
            name,
            n.as_str(),
        ),
    }
}

/// Whether a configured list names `did`. An entry may be the full def path,
/// a `::`-suffix of it, the bare item name, or `crate::Name` -- the last for
/// a re-export whose def path runs through a private module
/// (`bun_sys::error::Error` configured as `bun_sys::Error`).
pub fn matches_config_path(defs: &Definitions, did: DefId, entries: &Vec<String>) -> (r: bool)
    ensures
        r == config_names(*defs, did, texts(entries@)),
{
    let path = defs.path_of(did);
    let name = defs.name_of(did);
    let krate = defs.crate_of(did);
    let mut i: usize = 0;
    while i < entries.len()
        invariant
            i <= entries@.len(),
            path@ == defs.path_text(did),
            name@ == defs.name_text(did),
            krate@ == defs.crate_text(did),
            forall|k: int|
                0 <= k < i ==> !entry_names(path@, name@, krate@, #[trigger] texts(entries@)[k]),
        decreases entries.len() - i,
    {
        assert(texts(entries@)[i as int] == entries@[i as int]@);
        if entry_matches(path, name, krate, entries[i].as_str()) {
            return true;
        }
        i = i + 1;
    }
    false
}

/// `Result<_, E>` -> `E`; anything else, `Option` included, is None.
pub open spec fn err_ty(defs: Definitions, ty: Ty) -> Option<Ty> {
    match ty {
        Ty::Adt(did, args) => if defs.known(did) == Known::ResultType && args@.len() == 2 {
            Some(args@[1])
        } else {
            None
        },
        _ => None,
    }
}

pub fn result_err_ty<'a>(defs: &Definitions, ty: &'a Ty) -> (r: Option<&'a Ty>)
    ensures
        match r {
            Some(e) => err_ty(*defs, *ty) == Some(*e),
            None => err_ty(*defs, *ty) is None,
        },
{
    match ty {
        Ty::Adt(did, args) => if defs.known_as(*did) == Known::ResultType && args.len() == 2 {
            Some(&args[1])
        } else {
            None
        },
        _ => None,
    }
}

/// A definition's full path names it.
pub proof fn lemma_full_path_names(path: Seq<char>, name: Seq<char>, krate: Seq<char>)
    ensures
        entry_names(path, name, krate, path),
{
}

// ---------------------------------------------------------------- own code

/// A definition and what it stands in, innermost first, at most `fuel` of
/// them.
pub open spec fn lineage_to(defs: Definitions, id: DefId, fuel: nat) -> Seq<DefId>
    decreases fuel,
{
    if fuel == 0 {
        Seq::empty()
    } else {
        seq![id] + match parent_of(defs, id) {
            Some(p) => lineage_to(defs, p, (fuel - 1) as nat),
            None => Seq::empty(),
        }
    }
}

/// A definition and what it stands in, innermost first.
pub open spec fn lineage(defs: Definitions, id: DefId) -> Seq<DefId> {
    lineage_to(defs, id, defs.defs@.len())
}

pub fn ancestors(defs: &Definitions, id: DefId) -> (r: Vec<DefId>)
    ensures
        r@ == lineage(*defs, id),
{
    let mut out: Vec<DefId> = Vec::new();
    let mut at: Option<DefId> = Some(id);
    let mut left: usize = defs.defs.len();
    let ghost want = lineage(*defs, id);
    assert(out@ + lineage_to(*defs, id, left as nat) =~= want);
    while left > 0 && at.is_some()
        invariant
            match at {
                Some(a) => out@ + lineage_to(*defs, a, left as nat) == want,
                None => out@ == want,
            },
        decreases left,
    {
        match at {
            Some(a) => {
                let ghost before = out@;
                out.push(a);
                at = parent_def(defs, a);
                left = left - 1;
                proof {
                    match at {
                        Some(p) => {
                            assert(out@ + lineage_to(*defs, p, left as nat) =~= before + (seq![a]
                                + lineage_to(*defs, p, left as nat)));
                        },
                        None => {
                            assert(out@ =~= before + (seq![a] + Seq::empty()));
                        },
                    }
                }
            },
            None => {},
        }
    }
    proof {
        if at is Some {
            assert(out@ + Seq::<DefId>::empty() =~= out@);
        }
    }
    out
}

/// The first module of the list.
pub open spec fn first_module(defs: Definitions, ids: Seq<DefId>) -> Option<DefId>
    decreases ids.len(),
{
    if ids.len() == 0 {
        None
    } else if defs.kind(ids[0]) == DefKind::Module {
        Some(ids[0])
    } else {
        first_module(defs, ids.drop_first())
    }
}

/// The module a definition stands in.
pub open spec fn home_module(defs: Definitions, id: DefId) -> Option<DefId> {
    first_module(defs, lineage(defs, id))
}

pub fn module_of(defs: &Definitions, id: DefId) -> (r: Option<DefId>)
    ensures
        r == home_module(*defs, id),
{
    let ids = ancestors(defs, id);
    let mut i: usize = 0;
    assert(ids@.skip(0) =~= ids@);
    while i < ids.len()
        invariant
            i <= ids@.len(),
            ids@ == lineage(*defs, id),
            home_module(*defs, id) == first_module(*defs, ids@.skip(i as int)),
        decreases ids.len() - i,
    {
        assert(ids@.skip(i as int).drop_first() =~= ids@.skip(i + 1));
        if defs.kind_of(ids[i]) == DefKind::Module {
            return Some(ids[i]);
        }
        i = i + 1;
    }
    None
}

/// Some definition of the list is an impl of the type.
pub open spec fn impl_among(defs: Definitions, ids: Seq<DefId>, adt: DefId) -> bool {
    exists|i: int|
        0 <= i < ids.len() && defs.kind(#[trigger] ids[i]) is Impl && impl_adt(defs, ids[i])
            == Some(adt)
}

/// Code in `owner` is the type's own: it stands in the type's module, or in
/// an impl of it.
pub open spec fn own_code(defs: Definitions, owner: DefId, adt: DefId) -> bool {
    (home_module(defs, owner) is Some && home_module(defs, owner) == home_module(defs, adt))
        || impl_among(defs, lineage(defs, owner), adt)
}

pub fn in_own_code_of(defs: &Definitions, owner: DefId, adt: DefId) -> (r: bool)
    ensures
        r == own_code(*defs, owner, adt),
{
    match (module_of(defs, owner), module_of(defs, adt)) {
        (Some(a), Some(b)) => {
            if a == b {
                return true;
            }
        },
        _ => {},
    }
    let ids = ancestors(defs, owner);
    let mut i: usize = 0;
    while i < ids.len()
        invariant
            i <= ids@.len(),
            ids@ == lineage(*defs, owner),
            forall|j: int|
                0 <= j < i ==> !(defs.kind(#[trigger] ids@[j]) is Impl && impl_adt(*defs, ids@[j])
                    == Some(adt)),
        decreases ids.len() - i,
    {
        let is_impl = match defs.kind_of(ids[i]) {
            DefKind::Impl(_) => true,
            _ => false,
        };
        let here = is_impl && match impl_self_adt(defs, ids[i]) {
            Some(d) => d == adt,
            None => false,
        };
        if here {
            assert(impl_among(*defs, ids@, adt));
            return true;
        }
        i = i + 1;
    }
    false
}

/// A definition that is written inside a function's body and runs as part of
/// it.
pub open spec fn folds_outward(k: DefKind) -> bool {
    k == DefKind::Closure || k == DefKind::InlineConst
}

/// The first definition of the list that does not fold outward.
pub open spec fn first_own(defs: Definitions, ids: Seq<DefId>) -> Option<DefId>
    decreases ids.len(),
{
    if ids.len() == 0 {
        None
    } else if !folds_outward(defs.kind(ids[0])) {
        Some(ids[0])
    } else {
        first_own(defs, ids.drop_first())
    }
}

/// The function a body belongs to, closures folded into the function that
/// wrote them: a check before a `.map(|..| v[x.f])` covers it.
pub open spec fn enclosing_fn(defs: Definitions, owner: DefId) -> DefId {
    match first_own(defs, lineage(defs, owner)) {
        Some(f) => f,
        None => owner,
    }
}

pub fn owner_fn(defs: &Definitions, owner: DefId) -> (r: DefId)
    ensures
        r == enclosing_fn(*defs, owner),
{
    let ids = ancestors(defs, owner);
    let mut i: usize = 0;
    assert(ids@.skip(0) =~= ids@);
    while i < ids.len()
        invariant
            i <= ids@.len(),
            ids@ == lineage(*defs, owner),
            first_own(*defs, ids@) == first_own(*defs, ids@.skip(i as int)),
        decreases ids.len() - i,
    {
        assert(ids@.skip(i as int).drop_first() =~= ids@.skip(i + 1));
        match defs.kind_of(ids[i]) {
            DefKind::Closure | DefKind::InlineConst => {},
            _ => {
                return ids[i];
            },
        }
        i = i + 1;
    }
    owner
}

// ---------------------------------------------------------------- literals

/// A struct expression taken apart.
#[derive(Debug)]
pub struct StructLiteral<'a> {
    pub adt: DefId,
    /// The variant it builds, of an enum.
    pub variant: Option<DefId>,
    pub fields: &'a Vec<FieldInit>,
    pub tail: &'a StructTail,
}

/// Takes a struct expression apart; anything else, including a tuple-struct
/// call, is None. The type is the expression's own rather than what the path
/// spells, so an alias or `Self` resolves to what it names.
pub fn struct_literal<'a>(defs: &Definitions, e: &'a Expr) -> (r: Option<StructLiteral<'a>>)
    ensures
        match r {
            Some(l) => adt_id(e.ty) == Some(l.adt) && (e.kind matches ExprKind::Struct(
                path,
                fields,
                tail,
            ) && l.variant == res_variant(*defs, path.res) && *l.fields == fields && *l.tail
                == tail),
            None => !(e.kind is Struct) || adt_id(e.ty) is None,
        },
{
    match &e.kind {
        ExprKind::Struct(path, fields, tail) => match e.ty.adt() {
            Some(adt) => Some(
                StructLiteral { adt, variant: variant_of_res(defs, path.res), fields, tail },
            ),
            None => None,
        },
        _ => None,
    }
}

/// The error type is the second argument of a `Result`, and nothing else has
/// one.
pub proof fn lemma_error_type(defs: Definitions, ty: Ty, did: DefId, args: Seq<Ty>)
    requires
        ty matches Ty::Adt(d, a) && d == did && a@ == args,
    ensures
        defs.known(did) == Known::ResultType && args.len() == 2 ==> err_ty(defs, ty) == Some(
            args[1],
        ),
        defs.known(did) != Known::ResultType ==> err_ty(defs, ty) is None,
{
}

/// Any `repr` at all fixes the layout.
pub proof fn lemma_any_repr_fixes_layout(repr: Repr)
    ensures
        fixes_layout(repr) <==> !(!repr.c && !repr.packed && !repr.transparent && !repr.simd
            && !repr.int),
{
}

/// A struct of the crate that nothing outside can name is private, also behind
/// references; a public one, a foreign one and anything that is no struct are
/// not.
pub proof fn lemma_private_struct(defs: Definitions, ty: Ty, did: DefId, d: crate::defs::Definition)
    requires
        peeled(ty) matches Ty::Adt(x, _) && x == did,
        defs.at(did) == Some(d),
    ensures
        private_struct_behind(defs, ty) == if d.is_local && !d.is_exported && (
        d.adt matches Some(a) && a.kind == crate::defs::AdtKind::Struct) {
            Some(did)
        } else {
            None
        },
{
}

/// An entry names a definition by its whole path, by the end of it behind a
/// `::`, or by its name alone.
pub proof fn lemma_entry_forms(
    path: Seq<char>,
    name: Seq<char>,
    krate: Seq<char>,
    entry: Seq<char>,
    head: Seq<char>,
)
    ensures
        entry == path ==> entry_names(path, name, krate, entry),
        path == head + ("::"@ + entry) ==> entry_names(path, name, krate, entry),
        entry == name && !occurs_in(entry, "::"@) ==> entry_names(path, name, krate, entry),
{
    crate::text::lemma_suffix(path, "::"@ + entry);
    crate::text::lemma_last_at(entry, "::"@);
    if entry == name && !occurs_in(entry, "::"@) {
        if crate::text::last_at(entry, "::"@) >= 0 {
            assert(crate::text::occurs_at(entry, "::"@, crate::text::last_at(entry, "::"@)));
        }
    }
}

/// An entry of a crate and a name names the crate's definition of that name.
pub proof fn lemma_entry_by_crate(path: Seq<char>, name: Seq<char>, krate: Seq<char>)
    requires
        !occurs_in(krate, "::"@),
        !name.contains(':'),
    ensures
        entry_names(path, name, krate, krate + "::"@ + name),
{
    let sep = "::"@;
    let entry = krate + sep + name;
    reveal_strlit("::");
    assert(sep.len() == 2 && sep[1] == ':');
    crate::text::lemma_last_at(entry, sep);
    let n = krate.len() as int;
    let i = crate::text::last_at(entry, sep);
    assert(entry.subrange(n, n + 2) =~= sep);
    assert(crate::text::occurs_at(entry, sep, n));
    if i > n {
        assert(entry.subrange(i, i + 2)[1] == sep[1]);
        assert(entry.subrange(i, i + 2)[1] == entry[i + 1]);
        if i + 1 >= n + 2 {
            assert(name[i + 1 - n - 2] == ':');
        }
    }
    assert(i == n);
    assert(entry.take(n) =~= krate);
    assert(entry.skip(n + 2) =~= name);
    assert(split_last(entry, sep) == Some((krate, name)));
}

pub proof fn lemma_lineage_holds(defs: Definitions, chain: Seq<DefId>, fuel: nat)
    requires
        chain.len() > 0,
        chain.len() <= fuel,
        forall|i: int|
            #![trigger chain[i]]
            0 <= i < chain.len() - 1 ==> parent_of(defs, chain[i]) == Some(chain[i + 1]),
    ensures
        lineage_to(defs, chain[0], fuel).contains(chain.last()),
    decreases chain.len(),
{
    let all = lineage_to(defs, chain[0], fuel);
    if chain.len() == 1 {
        assert(all[0] == chain[0]);
    } else {
        let rest = chain.drop_first();
        assert forall|i: int| #![trigger rest[i]] 0 <= i < rest.len() - 1 implies parent_of(
            defs,
            rest[i],
        ) == Some(rest[i + 1]) by {
            assert(rest[i] == chain[i + 1] && rest[i + 1] == chain[i + 1 + 1]);
        }
        assert(rest[0] == chain[0int + 1]);
        assert(parent_of(defs, chain[0]) == Some(chain[1]));
        lemma_lineage_holds(defs, rest, (fuel - 1) as nat);
        let tail = lineage_to(defs, chain[1], (fuel - 1) as nat);
        let k = choose|k: int| 0 <= k < tail.len() && tail[k] == chain.last();
        assert(all[k + 1] == chain.last());
    }
}

/// Code anywhere inside an impl of a type is the type's own, however deep it
/// stands, whether the impl is inherent or of a trait.
pub proof fn lemma_code_in_an_impl_is_own(
    defs: Definitions,
    chain: Seq<DefId>,
    of_trait: bool,
    adt: DefId,
)
    requires
        0 < chain.len() <= defs.defs@.len(),
        forall|i: int|
            #![trigger chain[i]]
            0 <= i < chain.len() - 1 ==> parent_of(defs, chain[i]) == Some(chain[i + 1]),
        defs.kind(chain.last()) == DefKind::Impl(of_trait),
        defs.at(chain.last()) matches Some(d) && (d.self_ty matches Some(Ty::Adt(x, _)) && x
            == adt),
    ensures
        own_code(defs, chain[0], adt),
{
    lemma_lineage_holds(defs, chain, defs.defs@.len());
    let ids = lineage(defs, chain[0]);
    let k = choose|k: int| 0 <= k < ids.len() && ids[k] == chain.last();
    assert(defs.kind(ids[k]) is Impl && impl_adt(defs, ids[k]) == Some(adt));
}

/// Code in the module a type stands in is the type's own; elsewhere it is own
/// only inside an impl of the type.
pub proof fn lemma_code_in_the_module_is_own(defs: Definitions, owner: DefId, adt: DefId)
    ensures
        home_module(defs, owner) is Some && home_module(defs, owner) == home_module(defs, adt)
            ==> own_code(defs, owner, adt),
        own_code(defs, owner, adt) && home_module(defs, owner) != home_module(defs, adt) ==> exists|
            i: int,
        |
            0 <= i < lineage(defs, owner).len() && (defs.kind(
                #[trigger] lineage(defs, owner)[i],
            ) matches DefKind::Impl(_)) && (defs.at(lineage(defs, owner)[i]) matches Some(d) && (
            d.self_ty matches Some(Ty::Adt(x, _)) && x == adt)),
{
    if own_code(defs, owner, adt) && home_module(defs, owner) != home_module(defs, adt) {
        let ids = lineage(defs, owner);
        let i = choose|i: int|
            0 <= i < ids.len() && defs.kind(#[trigger] ids[i]) is Impl && impl_adt(defs, ids[i])
                == Some(adt);
        assert(defs.kind(lineage(defs, owner)[i]) is Impl);
    }
}

/// Fields are positional where one of their names starts with a digit, as the
/// fields of a tuple struct do; a name that starts with a letter does not make
/// them so.
pub proof fn lemma_tuple_fields_are_positional(
    defs: Definitions,
    fields: Seq<FieldDef>,
    i: int,
    c: char,
)
    requires
        0 <= i < fields.len(),
        defs.text(fields[i].name).len() > 0,
        defs.text(fields[i].name)[0] == c,
    ensures
        '0' <= c <= '9' ==> positional(defs, fields),
        fields.len() == 1 && !('0' <= c <= '9') ==> !positional(defs, fields),
        fields.len() == 1 ==> positional(defs, fields) == starts_with_digit(
            defs.text(fields[i].name),
        ),
        !positional(defs, Seq::empty()),
{
    if '0' <= c <= '9' {
        assert(starts_with_digit(defs.text(fields[i].name)));
    }
}

} // verus!
