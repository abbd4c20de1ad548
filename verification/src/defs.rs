//! The table of definitions and interned names that every analysis looks
//! things up in.

use crate::ids::{DefId, Span, Symbol};
use crate::text::same;
use crate::ty::Ty;
use vstd::prelude::*;

verus! {

/// Library items the analyses know by identity rather than by path.
#[derive(Clone, Copy, Debug, PartialEq, Eq, Structural)]
pub enum Known {
    ResultType,
    OptionType,
    StringType,
    VecType,
    VecDequeType,
    HashMapType,
    BTreeMapType,
    HashSetType,
    BTreeSetType,
    CowType,
    BoxType,
    ErrorTrait,
    FromTrait,
    TryFromTrait,
    Transmute,
    PtrCast,
    ConstPtrCast,
    PtrNull,
    PtrNullMut,
    SomeVariant,
    NoneVariant,
    OkVariant,
    ErrVariant,
    PanicBoundsCheck,
    /// None of these.
    Unlisted,
}

/// What sort of thing a definition is.
#[derive(Clone, Copy, Debug, PartialEq, Eq, Structural)]
pub enum DefKind {
    Struct,
    Enum,
    Union,
    Variant,
    /// A constructor; whether of a variant.
    Ctor(bool),
    Function,
    AssocFn,
    Const,
    AssocConst,
    StaticItem,
    Module,
    TraitItem,
    /// An impl block; whether it is of a trait.
    Impl(bool),
    Closure,
    InlineConst,
    Field,
    Other,
}

#[derive(Debug)]
pub struct FieldDef {
    pub did: DefId,
    pub name: Symbol,
    pub ty: Ty,
    pub span: Span,
    /// The module it is visible in; none if it is visible everywhere.
    pub visible_in: Option<DefId>,
}

/// How a variant is constructed: named alone, called, or with braces.
#[derive(Clone, Copy, Debug, PartialEq, Eq, Structural)]
pub enum CtorShape {
    Unit,
    Call,
    Braces,
}

#[derive(Debug)]
pub struct VariantDef {
    pub did: DefId,
    pub name: Symbol,
    pub shape: CtorShape,
    pub fields: Vec<FieldDef>,
}

#[derive(Clone, Copy, Debug, PartialEq, Eq, Structural)]
pub enum AdtKind {
    Struct,
    Enum,
    Union,
}

/// What a `repr` attribute asks for.
#[derive(Clone, Copy, Debug, PartialEq, Eq, Structural)]
pub struct Repr {
    pub c: bool,
    pub packed: bool,
    pub transparent: bool,
    pub simd: bool,
    pub int: bool,
}

/// An impl of a one-parameter trait for a type.
#[derive(Debug)]
pub struct TraitImpl {
    pub did: DefId,
    pub of: Known,
    /// The type it is for.
    pub target: Ty,
    /// The trait's type argument.
    pub arg: Input,
    /// The definitions in it, in order.
    pub items: Vec<DefId>,
}

/// A struct, enum or union. A struct or union has exactly one variant.
#[derive(Debug)]
pub struct AdtDef {
    pub kind: AdtKind,
    pub variants: Vec<VariantDef>,
    /// An enum whose list of variants may grow, as other crates see it.
    pub non_exhaustive: bool,
    pub repr: Repr,
    /// The conversion-trait impls for it that are not blanket impls.
    pub conversions: Vec<TraitImpl>,
    /// It implements `Index`.
    pub indexes: bool,
    /// Its inherent impls' definitions, each impl's in order.
    pub inherent: Vec<Vec<DefId>>,
}

/// A parameter's type, and how it prints.
#[derive(Debug)]
pub struct Input {
    pub ty: Ty,
    pub text: String,
}

/// A function's signature, regions erased.
#[derive(Debug)]
pub struct FnSig {
    /// The parameters' names, where they are plain names.
    pub idents: Vec<Option<Symbol>>,
    pub inputs: Vec<Input>,
    pub output: Ty,
    pub is_unsafe: bool,
    /// It takes a receiver.
    pub is_method: bool,
}

/// One definition.
#[derive(Debug)]
pub struct Definition {
    /// Its name; the empty one if it has none.
    pub name: Symbol,
    /// The path it is printed by.
    pub path: String,
    /// The crate it belongs to.
    pub krate: Symbol,
    pub is_local: bool,
    /// Something outside the crate can name it.
    pub is_exported: bool,
    pub known: Known,
    pub kind: DefKind,
    pub parent: Option<DefId>,
    pub span: Span,
    pub adt: Option<AdtDef>,
    /// For a function: its signature.
    pub sig: Option<FnSig>,
    /// For an impl block: the type it is for.
    pub self_ty: Option<Ty>,
}

/// The definitions by `DefId`, and the interned names by `Symbol`.
#[derive(Debug)]
pub struct Definitions {
    pub defs: Vec<Definition>,
    pub names: Vec<String>,
}

impl Definitions {
    /// The definition, if the table has it.
    pub open spec fn at(self, id: DefId) -> Option<Definition> {
        if (id.0 as int) < self.defs@.len() {
            Some(self.defs@[id.0 as int])
        } else {
            None
        }
    }

    /// What a name reads; empty for one the table does not have.
    pub open spec fn text(self, s: Symbol) -> Seq<char> {
        if (s.0 as int) < self.names@.len() {
            self.names@[s.0 as int]@
        } else {
            Seq::empty()
        }
    }

    /// What a definition is called.
    pub open spec fn name_text(self, id: DefId) -> Seq<char> {
        match self.at(id) {
            Some(d) => self.text(d.name),
            None => Seq::empty(),
        }
    }

    /// The path a definition is printed by.
    pub open spec fn path_text(self, id: DefId) -> Seq<char> {
        match self.at(id) {
            Some(d) => d.path@,
            None => Seq::empty(),
        }
    }

    /// The name of a definition's crate.
    pub open spec fn crate_text(self, id: DefId) -> Seq<char> {
        match self.at(id) {
            Some(d) => self.text(d.krate),
            None => Seq::empty(),
        }
    }

    /// The library item a definition is.
    pub open spec fn known(self, id: DefId) -> Known {
        match self.at(id) {
            Some(d) => d.known,
            None => Known::Unlisted,
        }
    }

    /// The definition is of the crate under analysis.
    pub open spec fn local(self, id: DefId) -> bool {
        self.at(id) matches Some(d) && d.is_local
    }

    /// The struct, enum or union a definition is.
    pub open spec fn adt(self, id: DefId) -> Option<AdtDef> {
        match self.at(id) {
            Some(d) => d.adt,
            None => None,
        }
    }

    /// A function's signature.
    pub open spec fn sig(self, id: DefId) -> Option<FnSig> {
        match self.at(id) {
            Some(d) => d.sig,
            None => None,
        }
    }

    /// What sort of thing a definition is.
    pub open spec fn kind(self, id: DefId) -> DefKind {
        match self.at(id) {
            Some(d) => d.kind,
            None => DefKind::Other,
        }
    }

    /// Where a definition stands in the source.
    pub open spec fn span(self, id: DefId) -> Span {
        match self.at(id) {
            Some(d) => d.span,
            None => Span { lo: 0, hi: 0 },
        }
    }

    /// The definition is a function.
    pub open spec fn is_fn(self, id: DefId) -> bool {
        self.kind(id) == DefKind::Function || self.kind(id) == DefKind::AssocFn
    }

    /// The definition is an enum of the crate under analysis.
    pub open spec fn local_enum(self, id: DefId) -> bool {
        self.local(id) && (self.adt(id) matches Some(a) && a.kind == AdtKind::Enum)
    }

    /// The first definition from `k` on that is the known one.
    pub open spec fn first_known(self, known: Known, k: int) -> Option<DefId>
        decreases self.defs@.len() - k,
    {
        if k >= self.defs@.len() || k > u32::MAX {
            None
        } else if self.defs@[k].known == known {
            Some(DefId(k as u32))
        } else {
            self.first_known(known, k + 1)
        }
    }

    /// Something outside the crate can name the definition.
    pub open spec fn exported(self, id: DefId) -> bool {
        self.at(id) matches Some(d) && d.is_exported
    }

    /// The definition is a struct.
    pub open spec fn is_struct(self, id: DefId) -> bool {
        self.adt(id) matches Some(a) && a.kind == AdtKind::Struct
    }

    /// The fields of a struct or union.
    pub open spec fn fields(self, id: DefId) -> Seq<FieldDef> {
        match self.adt(id) {
            Some(a) => if a.kind != AdtKind::Enum && a.variants@.len() > 0 {
                a.variants@[0].fields@
            } else {
                Seq::empty()
            },
            None => Seq::empty(),
        }
    }

    pub fn get(&self, id: DefId) -> (r: Option<&Definition>)
        ensures
            match r {
                Some(d) => self.at(id) == Some(*d),
                None => self.at(id) is None,
            },
    {
        if (id.0 as usize) < self.defs.len() {
            Some(&self.defs[id.0 as usize])
        } else {
            None
        }
    }

    pub fn text_of(&self, s: Symbol) -> (r: &str)
        ensures
            r@ == self.text(s),
    {
        if (s.0 as usize) < self.names.len() {
            self.names[s.0 as usize].as_str()
        } else {
            proof {
                reveal_strlit("");
                assert(""@ =~= Seq::<char>::empty());
            }
            ""
        }
    }

    /// Whether the name reads `s`.
    pub fn reads(&self, name: Symbol, s: &str) -> (r: bool)
        ensures
            r == (self.text(name) == s@),
    {
        same(self.text_of(name), s)
    }

    pub fn name_of(&self, id: DefId) -> (r: &str)
        ensures
            r@ == self.name_text(id),
    {
        match self.get(id) {
            Some(d) => self.text_of(d.name),
            None => {
                proof {
                    reveal_strlit("");
                    assert(""@ =~= Seq::<char>::empty());
                }
                ""
            },
        }
    }

    pub fn path_of(&self, id: DefId) -> (r: &str)
        ensures
            r@ == self.path_text(id),
    {
        match self.get(id) {
            Some(d) => d.path.as_str(),
            None => {
                proof {
                    reveal_strlit("");
                    assert(""@ =~= Seq::<char>::empty());
                }
                ""
            },
        }
    }

    pub fn crate_of(&self, id: DefId) -> (r: &str)
        ensures
            r@ == self.crate_text(id),
    {
        match self.get(id) {
            Some(d) => self.text_of(d.krate),
            None => {
                proof {
                    reveal_strlit("");
                    assert(""@ =~= Seq::<char>::empty());
                }
                ""
            },
        }
    }

    pub fn known_as(&self, id: DefId) -> (r: Known)
        ensures
            r == self.known(id),
    {
        match self.get(id) {
            Some(d) => d.known,
            None => Known::Unlisted,
        }
    }

    pub fn is_local(&self, id: DefId) -> (r: bool)
        ensures
            r == self.local(id),
    {
        match self.get(id) {
            Some(d) => d.is_local,
            None => false,
        }
    }

    pub fn adt_of(&self, id: DefId) -> (r: Option<&AdtDef>)
        ensures
            match r {
                Some(a) => self.adt(id) == Some(*a),
                None => self.adt(id) is None,
            },
    {
        match self.get(id) {
            Some(d) => match &d.adt {
                Some(a) => Some(a),
                None => None,
            },
            None => None,
        }
    }

    pub fn sig_of(&self, id: DefId) -> (r: Option<&FnSig>)
        ensures
            match r {
                Some(s) => self.sig(id) == Some(*s),
                None => self.sig(id) is None,
            },
    {
        match self.get(id) {
            Some(d) => match &d.sig {
                Some(s) => Some(s),
                None => None,
            },
            None => None,
        }
    }

    pub fn kind_of(&self, id: DefId) -> (r: DefKind)
        ensures
            r == self.kind(id),
    {
        match self.get(id) {
            Some(d) => d.kind,
            None => DefKind::Other,
        }
    }

    pub fn span_of(&self, id: DefId) -> (r: Span)
        ensures
            r == self.span(id),
    {
        match self.get(id) {
            Some(d) => d.span,
            None => Span { lo: 0, hi: 0 },
        }
    }

    /// Whether the definition is a function.
    pub fn function_here(&self, id: DefId) -> (r: bool)
        ensures
            r == self.is_fn(id),
    {
        match self.kind_of(id) {
            DefKind::Function | DefKind::AssocFn => true,
            _ => false,
        }
    }

    /// Whether the definition is an enum of the crate under analysis.
    pub fn local_enum_here(&self, id: DefId) -> (r: bool)
        ensures
            r == self.local_enum(id),
    {
        self.is_local(id) && match self.adt_of(id) {
            Some(a) => a.kind == AdtKind::Enum,
            None => false,
        }
    }

    /// The definition of a known library item.
    pub fn find_known(&self, known: Known) -> (r: Option<DefId>)
        ensures
            r == self.first_known(known, 0),
    {
        let mut k: usize = 0;
        while k < self.defs.len() && k <= 0xffff_ffff
            invariant
                k <= self.defs@.len(),
                self.first_known(known, 0) == self.first_known(known, k as int),
            decreases self.defs.len() - k,
        {
            if self.defs[k].known == known {
                return Some(DefId(k as u32));
            }
            k = k + 1;
        }
        None
    }

    pub fn is_exported(&self, id: DefId) -> (r: bool)
        ensures
            r == self.exported(id),
    {
        match self.get(id) {
            Some(d) => d.is_exported,
            None => false,
        }
    }

    /// Whether the definition is a struct.
    pub fn struct_here(&self, id: DefId) -> (r: bool)
        ensures
            r == self.is_struct(id),
    {
        match self.adt_of(id) {
            Some(a) => a.kind == AdtKind::Struct,
            None => false,
        }
    }

    /// How many fields a struct or union has.
    pub fn field_count(&self, id: DefId) -> (r: usize)
        ensures
            r == self.fields(id).len(),
    {
        match self.adt_of(id) {
            Some(a) => if a.kind != AdtKind::Enum && a.variants.len() > 0 {
                a.variants[0].fields.len()
            } else {
                0
            },
            None => 0,
        }
    }

    /// The fields of a struct or union; none for anything else.
    pub fn fields_of(&self, id: DefId) -> (r: Option<&Vec<FieldDef>>)
        ensures
            match r {
                Some(v) => v@ == self.fields(id),
                None => self.fields(id).len() == 0,
            },
    {
        match self.adt_of(id) {
            Some(a) => if a.kind != AdtKind::Enum && a.variants.len() > 0 {
                Some(&a.variants[0].fields)
            } else {
                None
            },
            None => None,
        }
    }
}

/// A library item is found by the first definition that is it.
pub proof fn lemma_first_known(defs: Definitions, known: Known, d: DefId)
    requires
        known != Known::Unlisted,
        defs.known(d) == known,
        forall|other: DefId| other.0 < d.0 ==> #[trigger] defs.known(other) != known,
    ensures
        defs.first_known(known, 0) == Some(d),
{
    lemma_first_known_from(defs, known, d, 0);
}

proof fn lemma_first_known_from(defs: Definitions, known: Known, d: DefId, k: int)
    requires
        0 <= k <= d.0,
        known != Known::Unlisted,
        defs.known(d) == known,
        forall|other: DefId| other.0 < d.0 ==> #[trigger] defs.known(other) != known,
    ensures
        defs.first_known(known, k) == Some(d),
    decreases d.0 - k,
{
    if k < d.0 {
        assert(defs.known(DefId(k as u32)) != known);
        lemma_first_known_from(defs, known, d, k + 1);
    }
}

} // verus!
