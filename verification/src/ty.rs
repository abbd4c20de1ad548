//! Types as the analyses see them.

use crate::ids::DefId;
use vstd::prelude::*;

verus! {

/// A type with its regions erased.
#[derive(Debug)]
pub enum Ty {
    Bool,
    /// An integer type. `usize` and `isize` are pointer-sized, and so never
    /// one with a type of that width.
    Int { bits: u16, signed: bool, pointer_sized: bool },
    Float { bits: u16 },
    Str,
    Never,
    /// A struct, enum or union and its generic arguments, in order.
    Adt(DefId, Vec<Ty>),
    Ref(Box<Ty>, bool),
    RawPtr(Box<Ty>, bool),
    Tuple(Vec<Ty>),
    /// A trait object, with the trait it is primarily of, a number for the
    /// bounds it is written with, and the types in them.
    Dyn(Option<DefId>, u32, Vec<Ty>),
    /// A generic argument that is a lifetime.
    Region,
    /// A generic argument that is a constant, by number; whether a generic
    /// parameter occurs in it.
    Const { number: u32, generic: bool },
    /// A type parameter.
    Param(u32),
    /// Any other type and the types it is built from.
    Other(u32, Vec<Ty>),
}

/// The type behind every reference.
pub open spec fn peeled(ty: Ty) -> Ty
    decreases ty,
{
    match ty {
        Ty::Ref(inner, _) => peeled(*inner),
        _ => ty,
    }
}

/// The definition of the struct, enum or union a type is.
pub open spec fn adt_id(ty: Ty) -> Option<DefId> {
    match ty {
        Ty::Adt(did, _) => Some(did),
        _ => None,
    }
}

/// A type, or some type it is built from, is the struct, enum or union
/// `did`.
pub open spec fn mentions(ty: Ty, did: DefId) -> bool
    decreases ty,
{
    match ty {
        Ty::Adt(d, args) => d == did || mentioned_in(args@, did),
        Ty::Ref(inner, _) => mentions(*inner, did),
        Ty::RawPtr(inner, _) => mentions(*inner, did),
        Ty::Tuple(parts) => mentioned_in(parts@, did),
        Ty::Dyn(_, _, parts) => mentioned_in(parts@, did),
        Ty::Other(_, parts) => mentioned_in(parts@, did),
        _ => false,
    }
}

/// Some type of the list mentions `did`.
pub open spec fn mentioned_in(tys: Seq<Ty>, did: DefId) -> bool
    decreases tys,
{
    if tys.len() == 0 {
        false
    } else {
        mentions(tys[0], did) || mentioned_in(tys.drop_first(), did)
    }
}

impl Ty {
    /// The type behind every reference.
    pub fn peel_refs(&self) -> (r: &Ty)
        ensures
            *r == peeled(*self),
        decreases self,
    {
        match self {
            Ty::Ref(inner, _) => inner.peel_refs(),
            _ => self,
        }
    }

    /// The definition of the struct, enum or union this is.
    pub fn adt(&self) -> (r: Option<DefId>)
        ensures
            r == adt_id(*self),
    {
        match self {
            Ty::Adt(did, _) => Some(*did),
            _ => None,
        }
    }

    /// Whether this is, or is built from, the struct, enum or union `did`.
    pub fn mentions_adt(&self, did: DefId) -> (r: bool)
        ensures
            r == mentions(*self, did),
        decreases self, 0nat,
    {
        match self {
            Ty::Adt(d, args) => *d == did || any_mentions(args, 0, did),
            Ty::Ref(inner, _) => inner.mentions_adt(did),
            Ty::RawPtr(inner, _) => inner.mentions_adt(did),
            Ty::Tuple(parts) => any_mentions(parts, 0, did),
            Ty::Dyn(_, _, parts) => any_mentions(parts, 0, did),
            Ty::Other(_, parts) => any_mentions(parts, 0, did),
            _ => false,
        }
    }
}

fn any_mentions(tys: &Vec<Ty>, from: usize, did: DefId) -> (r: bool)
    requires
        from <= tys@.len(),
    ensures
        r == mentioned_in(tys@.skip(from as int), did),
        from == 0 ==> r == mentioned_in(tys@, did),
    decreases tys, tys@.len() - from,
{
    assert(from == 0 ==> tys@.skip(from as int) =~= tys@);
    if from == tys.len() {
        return false;
    }
    assert(tys@.skip(from as int).drop_first() =~= tys@.skip(from + 1));
    let first = tys[from].mentions_adt(did);
    first || any_mentions(tys, from + 1, did)
}

/// Two types are the same.
pub open spec fn ty_eq(a: Ty, b: Ty) -> bool
    decreases a,
{
    match a {
        Ty::Bool => b is Bool,
        Ty::Int { bits, signed, pointer_sized } => b matches Ty::Int {
            bits: x,
            signed: y,
            pointer_sized: z,
        } && bits == x && signed == y && pointer_sized == z,
        Ty::Float { bits } => b matches Ty::Float { bits: x } && bits == x,
        Ty::Str => b is Str,
        Ty::Never => b is Never,
        Ty::Adt(d, args) => b matches Ty::Adt(e, others) && d == e && tys_eq(args@, others@),
        Ty::Ref(x, m) => b matches Ty::Ref(y, n) && m == n && ty_eq(*x, *y),
        Ty::RawPtr(x, m) => b matches Ty::RawPtr(y, n) && m == n && ty_eq(*x, *y),
        Ty::Tuple(parts) => b matches Ty::Tuple(others) && tys_eq(parts@, others@),
        Ty::Dyn(t, k, parts) => b matches Ty::Dyn(u, j, others) && t == u && k == j && tys_eq(
            parts@,
            others@,
        ),
        Ty::Region => b is Region,
        Ty::Const { number, generic } => b matches Ty::Const { number: x, generic: y } && number
            == x && generic == y,
        Ty::Param(i) => b matches Ty::Param(j) && i == j,
        Ty::Other(k, parts) => b matches Ty::Other(j, others) && k == j && tys_eq(parts@, others@),
    }
}

/// The types of two lists are the same, one by one.
pub open spec fn tys_eq(a: Seq<Ty>, b: Seq<Ty>) -> bool
    decreases a,
{
    a.len() == b.len() && (a.len() == 0 || (ty_eq(a[0], b[0]) && tys_eq(
        a.drop_first(),
        b.drop_first(),
    )))
}

impl Ty {
    /// Whether two types are the same.
    pub fn same_as(&self, other: &Ty) -> (r: bool)
        ensures
            r == ty_eq(*self, *other),
        decreases self, 0nat,
    {
        match (self, other) {
            (Ty::Bool, Ty::Bool) => true,
            (
                Ty::Int { bits, signed, pointer_sized },
                Ty::Int { bits: x, signed: y, pointer_sized: z },
            ) => *bits == *x && *signed == *y && *pointer_sized == *z,
            (Ty::Float { bits }, Ty::Float { bits: x }) => *bits == *x,
            (Ty::Str, Ty::Str) => true,
            (Ty::Never, Ty::Never) => true,
            (Ty::Adt(d, args), Ty::Adt(e, others)) => *d == *e && all_same(args, others, 0),
            (Ty::Ref(x, m), Ty::Ref(y, n)) => *m == *n && x.same_as(y),
            (Ty::RawPtr(x, m), Ty::RawPtr(y, n)) => *m == *n && x.same_as(y),
            (Ty::Tuple(parts), Ty::Tuple(others)) => all_same(parts, others, 0),
            (Ty::Dyn(t, k, parts), Ty::Dyn(u, j, others)) => {
                let same_trait = match (t, u) {
                    (Some(a), Some(b)) => *a == *b,
                    (None, None) => true,
                    _ => false,
                };
                same_trait && *k == *j && all_same(parts, others, 0)
            },
            (Ty::Region, Ty::Region) => true,
            (
                Ty::Const { number, generic },
                Ty::Const { number: x, generic: y },
            ) => *number == *x && *generic == *y,
            (Ty::Param(i), Ty::Param(j)) => *i == *j,
            (Ty::Other(k, parts), Ty::Other(j, others)) => *k == *j && all_same(parts, others, 0),
            _ => false,
        }
    }

    /// Whether this is an integer type.
    pub fn is_integral(&self) -> (r: bool)
        ensures
            r == (*self is Int),
    {
        match self {
            Ty::Int { .. } => true,
            _ => false,
        }
    }

    pub fn is_bool(&self) -> (r: bool)
        ensures
            r == (*self is Bool),
    {
        match self {
            Ty::Bool => true,
            _ => false,
        }
    }

    pub fn is_str(&self) -> (r: bool)
        ensures
            r == (*self is Str),
    {
        match self {
            Ty::Str => true,
            _ => false,
        }
    }

    pub fn is_never(&self) -> (r: bool)
        ensures
            r == (*self is Never),
    {
        match self {
            Ty::Never => true,
            _ => false,
        }
    }

    pub fn is_raw_ptr(&self) -> (r: bool)
        ensures
            r == (*self is RawPtr),
    {
        match self {
            Ty::RawPtr(_, _) => true,
            _ => false,
        }
    }

    pub fn is_float(&self) -> (r: bool)
        ensures
            r == (*self is Float),
    {
        match self {
            Ty::Float { .. } => true,
            _ => false,
        }
    }
}

fn all_same(a: &Vec<Ty>, b: &Vec<Ty>, from: usize) -> (r: bool)
    requires
        from <= a@.len(),
        from > 0 ==> a@.len() == b@.len(),
    ensures
        from > 0 ==> r == tys_eq(a@.skip(from as int), b@.skip(from as int)),
        from == 0 ==> r == tys_eq(a@, b@),
    decreases a, a@.len() - from,
{
    if a.len() != b.len() {
        return false;
    }
    assert(from == 0 ==> a@.skip(0) =~= a@ && b@.skip(0) =~= b@);
    if from == a.len() {
        return true;
    }
    assert(a@.skip(from as int).drop_first() =~= a@.skip(from + 1));
    assert(b@.skip(from as int).drop_first() =~= b@.skip(from + 1));
    a[from].same_as(&b[from]) && all_same(a, b, from + 1)
}

/// A type is the same as itself.
pub proof fn lemma_ty_eq_reflexive(a: Ty)
    ensures
        ty_eq(a, a),
    decreases a,
{
    match a {
        Ty::Adt(d, args) => lemma_tys_eq_reflexive(args@),
        Ty::Ref(x, m) => lemma_ty_eq_reflexive(*x),
        Ty::RawPtr(x, m) => lemma_ty_eq_reflexive(*x),
        Ty::Tuple(parts) => lemma_tys_eq_reflexive(parts@),
        Ty::Dyn(t, k, parts) => lemma_tys_eq_reflexive(parts@),
        Ty::Other(k, parts) => lemma_tys_eq_reflexive(parts@),
        _ => {},
    }
}

proof fn lemma_tys_eq_reflexive(a: Seq<Ty>)
    ensures
        tys_eq(a, a),
    decreases a,
{
    if a.len() > 0 {
        lemma_ty_eq_reflexive(a[0]);
        lemma_tys_eq_reflexive(a.drop_first());
    }
}

/// A type mentions a generic parameter, of a type or of a constant.
pub open spec fn has_param(ty: Ty) -> bool
    decreases ty,
{
    match ty {
        Ty::Param(_) => true,
        Ty::Adt(_, args) => some_param(args@),
        Ty::Ref(inner, _) => has_param(*inner),
        Ty::RawPtr(inner, _) => has_param(*inner),
        Ty::Tuple(parts) => some_param(parts@),
        Ty::Dyn(_, _, parts) => some_param(parts@),
        Ty::Const { number, generic } => generic,
        Ty::Other(_, parts) => some_param(parts@),
        _ => false,
    }
}

pub open spec fn some_param(tys: Seq<Ty>) -> bool
    decreases tys,
{
    tys.len() > 0 && (has_param(tys[0]) || some_param(tys.drop_first()))
}

impl Ty {
    /// Whether the type mentions a generic parameter.
    pub fn mentions_param(&self) -> (r: bool)
        ensures
            r == has_param(*self),
        decreases self, 0nat,
    {
        match self {
            Ty::Param(_) => true,
            Ty::Adt(_, args) => any_param(args, 0),
            Ty::Ref(inner, _) => inner.mentions_param(),
            Ty::RawPtr(inner, _) => inner.mentions_param(),
            Ty::Tuple(parts) => any_param(parts, 0),
            Ty::Dyn(_, _, parts) => any_param(parts, 0),
            Ty::Const { number, generic } => *generic,
            Ty::Other(_, parts) => any_param(parts, 0),
            _ => false,
        }
    }
}

fn any_param(tys: &Vec<Ty>, from: usize) -> (r: bool)
    requires
        from <= tys@.len(),
    ensures
        r == some_param(tys@.skip(from as int)),
        from == 0 ==> r == some_param(tys@),
    decreases tys, tys@.len() - from,
{
    assert(from == 0 ==> tys@.skip(0) =~= tys@);
    if from == tys.len() {
        return false;
    }
    assert(tys@.skip(from as int).drop_first() =~= tys@.skip(from + 1));
    tys[from].mentions_param() || any_param(tys, from + 1)
}

/// Whether two types are the same does not depend on which is asked.
pub proof fn lemma_ty_eq_symmetric(a: Ty, b: Ty)
    ensures
        ty_eq(a, b) == ty_eq(b, a),
    decreases a,
{
    match (a, b) {
        (Ty::Adt(_, x), Ty::Adt(_, y)) => lemma_tys_eq_symmetric(x@, y@),
        (Ty::Ref(x, _), Ty::Ref(y, _)) => lemma_ty_eq_symmetric(*x, *y),
        (Ty::RawPtr(x, _), Ty::RawPtr(y, _)) => lemma_ty_eq_symmetric(*x, *y),
        (Ty::Tuple(x), Ty::Tuple(y)) => lemma_tys_eq_symmetric(x@, y@),
        (Ty::Dyn(_, _, x), Ty::Dyn(_, _, y)) => lemma_tys_eq_symmetric(x@, y@),
        (Ty::Other(_, x), Ty::Other(_, y)) => lemma_tys_eq_symmetric(x@, y@),
        _ => {},
    }
}

proof fn lemma_tys_eq_symmetric(a: Seq<Ty>, b: Seq<Ty>)
    ensures
        tys_eq(a, b) == tys_eq(b, a),
    decreases a,
{
    if a.len() > 0 && a.len() == b.len() {
        lemma_ty_eq_symmetric(a[0], b[0]);
        lemma_tys_eq_symmetric(a.drop_first(), b.drop_first());
    }
}

/// Types are the same part by part: lists of equal length whose types are.
pub proof fn lemma_tys_eq_by_position(a: Seq<Ty>, b: Seq<Ty>)
    ensures
        tys_eq(a, b) <==> a.len() == b.len() && forall|i: int|
            0 <= i < a.len() ==> ty_eq(#[trigger] a[i], b[i]),
    decreases a.len(),
{
    if a.len() == b.len() && a.len() > 0 {
        lemma_tys_eq_by_position(a.drop_first(), b.drop_first());
        let x = a.drop_first();
        let y = b.drop_first();
        if ty_eq(a[0], b[0]) && tys_eq(x, y) {
            assert forall|i: int| 0 <= i < a.len() implies ty_eq(#[trigger] a[i], b[i]) by {
                if i > 0 {
                    assert(ty_eq(x[i - 1], y[i - 1]));
                }
            }
        }
        if forall|i: int| 0 <= i < a.len() ==> ty_eq(#[trigger] a[i], b[i]) {
            assert(ty_eq(a[0], b[0]));
            assert forall|i: int| 0 <= i < x.len() implies ty_eq(#[trigger] x[i], y[i]) by {
                assert(ty_eq(a[i + 1], b[i + 1]));
            }
        }
    }
}

/// Types are told apart by everything they are made of: width and sign,
/// whether pointer-sized, definition and arguments, mutability and what is
/// pointed at, trait and bounds, parameter, constant.
pub proof fn lemma_types_are_told_apart(a: Ty, b: Ty)
    requires
        ty_eq(a, b),
    ensures
        a is Bool <==> b is Bool,
        a is Str <==> b is Str,
        a is Never <==> b is Never,
        a is Region <==> b is Region,
        a matches Ty::Int { bits, signed, pointer_sized } ==> b == (Ty::Int {
            bits,
            signed,
            pointer_sized,
        }),
        a matches Ty::Float { bits } ==> b == (Ty::Float { bits }),
        a matches Ty::Param(i) ==> b == Ty::Param(i),
        a matches Ty::Const { number, generic } ==> b == (Ty::Const { number, generic }),
        a matches Ty::Adt(d, x) ==> (b matches Ty::Adt(e, y) && d == e && tys_eq(x@, y@)),
        a matches Ty::Ref(x, m) ==> (b matches Ty::Ref(y, n) && m == n && ty_eq(*x, *y)),
        a matches Ty::RawPtr(x, m) ==> (b matches Ty::RawPtr(y, n) && m == n && ty_eq(*x, *y)),
        a matches Ty::Tuple(x) ==> (b matches Ty::Tuple(y) && tys_eq(x@, y@)),
        a matches Ty::Dyn(t, k, x) ==> (b matches Ty::Dyn(u, j, y) && t == u && k == j && tys_eq(
            x@,
            y@,
        )),
        a matches Ty::Other(k, x) ==> (b matches Ty::Other(j, y) && k == j && tys_eq(x@, y@)),
{
}

/// References are seen through, raw pointers are not.
pub proof fn lemma_references_are_peeled(ty: Ty)
    ensures
        ty matches Ty::Ref(x, _) ==> peeled(ty) == peeled(*x),
        !(ty is Ref) ==> peeled(ty) == ty,
        !(peeled(ty) is Ref),
        ty matches Ty::Adt(d, _) ==> adt_id(ty) == Some(d),
        !(ty is Adt) ==> adt_id(ty) is None,
    decreases ty,
{
    match ty {
        Ty::Ref(x, _) => lemma_references_are_peeled(*x),
        _ => {},
    }
}

/// A type mentions what any type it is built from mentions, and a struct, enum
/// or union itself.
pub proof fn lemma_parts_are_mentioned(ty: Ty, parts: Seq<Ty>, i: int, did: DefId)
    requires
        (ty matches Ty::Adt(_, x) && x@ == parts) || (ty matches Ty::Tuple(x) && x@ == parts) || (
        ty matches Ty::Dyn(_, _, x) && x@ == parts) || (ty matches Ty::Other(_, x) && x@ == parts)
            || (ty matches Ty::Ref(x, _) && parts == seq![*x]) || (ty matches Ty::RawPtr(x, _)
            && parts == seq![*x]),
        0 <= i < parts.len(),
    ensures
        mentions(parts[i], did) ==> mentions(ty, did),
        has_param(parts[i]) ==> has_param(ty),
{
    lemma_list_mentions(parts, i, did);
}

proof fn lemma_list_mentions(parts: Seq<Ty>, i: int, did: DefId)
    requires
        0 <= i < parts.len(),
    ensures
        mentions(parts[i], did) ==> mentioned_in(parts, did),
        has_param(parts[i]) ==> some_param(parts),
    decreases parts.len(),
{
    if i > 0 {
        assert(parts.drop_first()[i - 1] == parts[i]);
        lemma_list_mentions(parts.drop_first(), i - 1, did);
    }
}

/// A struct, enum or union is mentioned by itself, a type parameter and a
/// generic constant are parameters, and plain types mention nothing.
pub proof fn lemma_leaf_mentions(ty: Ty, did: DefId)
    ensures
        ty matches Ty::Adt(d, _) ==> (d == did ==> mentions(ty, did)),
        ty is Param ==> has_param(ty),
        ty matches Ty::Const { number, generic } ==> has_param(ty) == generic,
        ty is Bool || ty is Int || ty is Float || ty is Str || ty is Never || ty is Region
            ==> !has_param(ty) && !mentions(ty, did),
{
}

} // verus!
