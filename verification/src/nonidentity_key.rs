//! Maps keyed on values that are not the canonical identity of the thing they
//! name. Which types and expression forms count is declared per project; with
//! no configuration the lint is silent.

use crate::config::MordantConfig;
use crate::defs::{Definitions, FieldDef, Known};
use crate::hir::{Expr, ExprKind};
use crate::ids::DefId;
use crate::report::{emit, finding, views, Finding, FindingView, Lint};
use crate::text::{listed, same, texts};
use crate::ty::{adt_id, peeled, Ty};
use vstd::prelude::*;
use vstd::string::*;

verus! {

/// A key-expression form a project can opt into. A name that is none of them
/// selects no form.
#[derive(Clone, Copy, Debug, PartialEq, Eq, Structural)]
pub enum KeyForm {
    /// `f.to_bits()` where `f` is a float.
    ToBits,
    /// A raw pointer cast to an integer.
    PtrCast,
}

pub open spec fn form_named(name: Seq<char>) -> Option<KeyForm> {
    if name == "to-bits"@ {
        Some(KeyForm::ToBits)
    } else if name == "ptr-cast"@ {
        Some(KeyForm::PtrCast)
    } else {
        None
    }
}

impl KeyForm {
    pub fn parse(name: &str) -> (r: Option<Self>)
        ensures
            r == form_named(name@),
    {
        if same(name, "to-bits") {
            Some(KeyForm::ToBits)
        } else if same(name, "ptr-cast") {
            Some(KeyForm::PtrCast)
        } else {
            None
        }
    }
}

/// The forms the names select, in order.
pub open spec fn forms_of(names: Seq<Seq<char>>) -> Seq<KeyForm>
    decreases names.len(),
{
    if names.len() == 0 {
        Seq::empty()
    } else {
        let before = forms_of(names.drop_last());
        match form_named(names.last()) {
            Some(f) => before.push(f),
            None => before,
        }
    }
}

pub struct NonidentityKey<'a> {
    pub config: &'a MordantConfig,
    /// The opted-in forms: a form the project did not name is absent.
    pub forms: Vec<KeyForm>,
}

/// Methods whose receiver is a keyed collection and whose first argument is in
/// key position.
pub open spec fn key_method(name: Seq<char>) -> bool {
    name == "insert"@ || name == "entry"@ || name == "get"@ || name == "contains_key"@ || name
        == "contains"@ || name == "remove"@
}

fn is_key_method(name: &str) -> (r: bool)
    ensures
        r == key_method(name@),
{
    same(name, "insert") || same(name, "entry") || same(name, "get") || same(
        name,
        "contains_key",
    ) || same(name, "contains") || same(name, "remove")
}

/// The list names the definition, by its path or with the crate's name in
/// front of it.
pub open spec fn listed_def(defs: Definitions, did: DefId, list: Seq<Seq<char>>) -> bool {
    list.contains(defs.path_text(did)) || (defs.local(did) && list.contains(
        defs.crate_text(did) + "::"@ + defs.path_text(did),
    ))
}

pub fn configured(defs: &Definitions, did: DefId, list: &Vec<String>) -> (r: bool)
    ensures
        r == listed_def(*defs, did, texts(list@)),
{
    if listed(list, defs.path_of(did)) {
        return true;
    }
    let mut with_crate = String::from_str(defs.crate_of(did));
    with_crate.append("::");
    with_crate.append(defs.path_of(did));
    defs.is_local(did) && listed(list, with_crate.as_str())
}

/// The first argument from `k` on that is a type.
pub open spec fn first_type(args: Seq<Ty>, k: int) -> Option<int>
    decreases args.len() - k,
{
    if k >= args.len() {
        None
    } else if args[k] is Region || args[k] is Const {
        first_type(args, k + 1)
    } else {
        Some(k)
    }
}

/// A collection with keys, of the standard library or of `indexmap`.
pub open spec fn keyed(defs: Definitions, did: DefId) -> bool {
    defs.known(did) == Known::HashMapType || defs.known(did) == Known::HashSetType || defs.known(
        did,
    ) == Known::BTreeMapType || defs.known(did) == Known::BTreeSetType || defs.crate_text(did)
        == "indexmap"@
}

/// Which generic argument of the type behind the references is a key.
pub open spec fn key_argument(defs: Definitions, recv: Ty) -> Option<int> {
    match peeled(recv) {
        Ty::Adt(did, args) => if keyed(defs, did) {
            first_type(args@, 0)
        } else {
            None
        },
        _ => None,
    }
}

fn find_key_argument(defs: &Definitions, recv: &Ty) -> (r: Option<usize>)
    ensures
        match r {
            Some(k) => key_argument(*defs, *recv) == Some(k as int) && (peeled(*recv) matches Ty::Adt(
                _,
                args,
            ) && k < args@.len()),
            None => key_argument(*defs, *recv) is None,
        },
{
    match recv.peel_refs() {
        Ty::Adt(did, args) => {
            let known = match defs.known_as(*did) {
                Known::HashMapType
                | Known::HashSetType
                | Known::BTreeMapType
                | Known::BTreeSetType => true,
                _ => false,
            };
            if !known && !same(defs.crate_of(*did), "indexmap") {
                return None;
            }
            let mut k: usize = 0;
            while k < args.len()
                invariant
                    k <= args@.len(),
                    peeled(*recv) == Ty::Adt(*did, *args),
                    keyed(*defs, *did),
                    first_type(args@, 0) == first_type(args@, k as int),
                decreases args.len() - k,
            {
                let skip = match &args[k] {
                    Ty::Region | Ty::Const { .. } => true,
                    _ => false,
                };
                if !skip {
                    return Some(k);
                }
                k = k + 1;
            }
            None
        },
        _ => None,
    }
}

/// The struct, enum or union a component of a key is, with the key's generic
/// arguments in place of its type parameters.
pub open spec fn component_adt(ty: Ty, args: Seq<Ty>) -> Option<DefId> {
    match peeled(ty) {
        Ty::Param(i) => if (i as int) < args.len() {
            adt_id(peeled(args[i as int]))
        } else {
            None
        },
        t => adt_id(t),
    }
}

fn adt_of_component(ty: &Ty, args: &Vec<Ty>) -> (r: Option<DefId>)
    ensures
        r == component_adt(*ty, args@),
{
    let t = ty.peel_refs();
    match t {
        Ty::Param(i) => if (*i as usize) < args.len() {
            args[*i as usize].peel_refs().adt()
        } else {
            None
        },
        _ => t.adt(),
    }
}

/// What the components of a tuple or of a struct's fields are.
pub open spec fn components(defs: Definitions, key: Ty) -> Seq<Option<DefId>> {
    match peeled(key) {
        Ty::Tuple(parts) => parts@.map_values(|t: Ty| component_adt(t, Seq::empty())),
        Ty::Adt(did, args) => if defs.is_struct(did) {
            defs.fields(did).map_values(|f: FieldDef| component_adt(f.ty, args@))
        } else {
            Seq::empty()
        },
        _ => Seq::empty(),
    }
}

fn collect_components(defs: &Definitions, key: &Ty) -> (r: Vec<Option<DefId>>)
    ensures
        r@ == components(*defs, *key),
{
    let ghost want = components(*defs, *key);
    let mut out: Vec<Option<DefId>> = Vec::new();
    match key.peel_refs() {
        Ty::Tuple(parts) => {
            let none: Vec<Ty> = Vec::new();
            let mut i: usize = 0;
            while i < parts.len()
                invariant
                    i <= parts@.len(),
                    none@ == Seq::<Ty>::empty(),
                    want == parts@.map_values(|t: Ty| component_adt(t, Seq::empty())),
                    out@ == want.take(i as int),
                decreases parts.len() - i,
            {
                out.push(adt_of_component(&parts[i], &none));
                i = i + 1;
                assert(out@ =~= want.take(i as int));
            }
            assert(out@ =~= want);
        },
        Ty::Adt(did, args) => {
            if defs.struct_here(*did) {
                match defs.fields_of(*did) {
                    Some(fields) => {
                        let mut i: usize = 0;
                        while i < fields.len()
                            invariant
                                i <= fields@.len(),
                                want == fields@.map_values(
                                    |f: FieldDef| component_adt(f.ty, args@),
                                ),
                                out@ == want.take(i as int),
                            decreases fields.len() - i,
                        {
                            out.push(adt_of_component(&fields[i].ty, args));
                            i = i + 1;
                            assert(out@ =~= want.take(i as int));
                        }
                        assert(out@ =~= want);
                    },
                    None => {
                        assert(out@ =~= want);
                    },
                }
            } else {
                assert(out@ =~= want);
            }
        },
        _ => {
            assert(out@ =~= want);
        },
    }
    out
}

/// The first of the components from `k` on that the list names.
pub open spec fn first_listed(
    defs: Definitions,
    parts: Seq<Option<DefId>>,
    list: Seq<Seq<char>>,
    k: int,
) -> Option<DefId>
    decreases parts.len() - k,
{
    if k >= parts.len() {
        None
    } else {
        match parts[k] {
            Some(d) => if listed_def(defs, d, list) {
                Some(d)
            } else {
                first_listed(defs, parts, list, k + 1)
            },
            None => first_listed(defs, parts, list, k + 1),
        }
    }
}

fn find_listed(defs: &Definitions, parts: &Vec<Option<DefId>>, list: &Vec<String>) -> (r: Option<
    DefId,
>)
    ensures
        r == first_listed(*defs, parts@, texts(list@), 0),
{
    let mut k: usize = 0;
    while k < parts.len()
        invariant
            k <= parts@.len(),
            first_listed(*defs, parts@, texts(list@), 0) == first_listed(
                *defs,
                parts@,
                texts(list@),
                k as int,
            ),
        decreases parts.len() - k,
    {
        match parts[k] {
            Some(d) => {
                if configured(defs, d, list) {
                    return Some(d);
                }
            },
            None => {},
        }
        k = k + 1;
    }
    None
}

/// How the message names a key of a denied type: the type itself, or (opt-in)
/// a denied type in a tuple or one level of struct fields with no declared
/// identity-fixing component beside it.
pub open spec fn denied_name(
    defs: Definitions,
    config: MordantConfig,
    key: Ty,
    key_text: Seq<char>,
) -> Option<Seq<char>> {
    let denied = texts(config.nonidentity_key_types@);
    if adt_id(peeled(key)) matches Some(d) && listed_def(defs, d, denied) {
        Some(defs.path_text(adt_id(peeled(key))->Some_0))
    } else if !config.nonidentity_key_composite {
        None
    } else {
        let parts = components(defs, key);
        match first_listed(defs, parts, denied, 0) {
            Some(hit) => if first_listed(
                defs,
                parts,
                texts(config.nonidentity_key_fixes@),
                0,
            ) is Some {
                None
            } else {
                Some(key_text + "` carrying `"@ + defs.path_text(hit))
            },
            None => None,
        }
    }
}

/// `x.to_bits()` of a float.
pub open spec fn float_bits(defs: Definitions, e: Expr) -> bool {
    match e.kind {
        ExprKind::MethodCall(name, recv, args) => args@.len() == 0 && defs.text(name)
            == "to_bits"@ && peeled(recv.ty) is Float,
        _ => false,
    }
}

fn is_float_to_bits(defs: &Definitions, e: &Expr) -> (r: bool)
    ensures
        r == float_bits(*defs, *e),
{
    match &e.kind {
        ExprKind::MethodCall(name, recv, args) => args.len() == 0 && defs.reads(*name, "to_bits")
            && recv.ty.peel_refs().is_float(),
        _ => false,
    }
}

/// A raw pointer cast to an integer.
pub open spec fn pointer_bits(e: Expr) -> bool {
    match e.kind {
        ExprKind::Cast(inner) => inner.ty is RawPtr && e.ty is Int,
        _ => false,
    }
}

fn is_ptr_to_int_cast(e: &Expr) -> (r: bool)
    ensures
        r == pointer_bits(*e),
{
    match &e.kind {
        ExprKind::Cast(inner) => inner.ty.is_raw_ptr() && e.ty.is_integral(),
        _ => false,
    }
}

/// What is said of a written key for the bits of a float.
pub open spec fn bits_findings(defs: Definitions, forms: Seq<KeyForm>, key: Expr) -> Seq<
    FindingView,
> {
    if forms.contains(KeyForm::ToBits) && float_bits(defs, key) {
        seq![
            finding(
                Lint::NonidentityKey,
                key.span,
                "map keyed on `to_bits()` of a float"@,
                "for boxed or interned values the bits are a pointer, not the value; key on the canonical identity"@,
            ),
        ]
    } else {
        Seq::empty()
    }
}

/// What is said of a written key for a method the project declares.
pub open spec fn method_findings(defs: Definitions, denied: Seq<Seq<char>>, key: Expr) -> Seq<
    FindingView,
> {
    match (key.kind, key.method) {
        (ExprKind::MethodCall(name, _, _), Some(m)) => if listed_def(defs, m, denied) {
            seq![
                finding(
                    Lint::NonidentityKey,
                    key.span,
                    "map keyed on `"@ + defs.text(name)
                        + "()`, which this project declares is not an identity"@,
                    "key on the canonical identity of the thing this names"@,
                ),
            ]
        } else {
            Seq::empty()
        },
        _ => Seq::empty(),
    }
}

/// What is said of a written key for the bits of a pointer.
pub open spec fn pointer_findings(forms: Seq<KeyForm>, key: Expr) -> Seq<FindingView> {
    if forms.contains(KeyForm::PtrCast) && pointer_bits(key) {
        seq![
            finding(
                Lint::NonidentityKey,
                key.span,
                "map keyed on a pointer cast to an integer"@,
                "pointer bits name an allocation, not a value; key on the canonical identity"@,
            ),
        ]
    } else {
        Seq::empty()
    }
}

/// How the receiver's `k`th generic argument prints.
pub open spec fn arg_text(e: Expr, k: int) -> Seq<char> {
    if 0 <= k < e.arg_texts@.len() {
        e.arg_texts@[k]@
    } else {
        ""@
    }
}

/// What the lint says of an expression.
pub open spec fn key_findings(
    defs: Definitions,
    config: MordantConfig,
    forms: Seq<KeyForm>,
    e: Expr,
) -> Seq<FindingView> {
    match e.kind {
        ExprKind::MethodCall(name, recv, args) => if !key_method(defs.text(name)) {
            Seq::empty()
        } else {
            match key_argument(defs, recv.adjusted) {
                Some(k) => {
                    let key_ty = peeled(recv.adjusted)->Adt_1@[k];
                    match denied_name(defs, config, key_ty, arg_text(*recv, k)) {
                        Some(path) => seq![
                            finding(
                                Lint::NonidentityKey,
                                e.span,
                                "map keyed on `"@ + path
                                    + "`, which this project declares is not an identity"@,
                                "key on the canonical identity of the thing this names"@,
                            ),
                        ],
                        None => if (defs.text(name) == "insert"@ || defs.text(name) == "entry"@)
                            && args@.len() > 0 {
                            bits_findings(defs, forms, args@[0]) + method_findings(
                                defs,
                                texts(config.nonidentity_key_methods@),
                                args@[0],
                            ) + pointer_findings(forms, args@[0])
                        } else {
                            Seq::empty()
                        },
                    }
                },
                None => Seq::empty(),
            }
        },
        _ => Seq::empty(),
    }
}

impl<'a> NonidentityKey<'a> {
    pub fn new(config: &'a MordantConfig) -> (r: Self)
        ensures
            *r.config == *config,
            r.forms@ == forms_of(texts(config.nonidentity_key_forms@)),
    {
        let names = &config.nonidentity_key_forms;
        let ghost all = texts(names@);
        let mut forms: Vec<KeyForm> = Vec::new();
        let mut i: usize = 0;
        assert(forms@ =~= forms_of(all.take(0)));
        while i < names.len()
            invariant
                i <= names@.len(),
                all == texts(names@),
                forms@ == forms_of(all.take(i as int)),
            decreases names.len() - i,
        {
            assert(all.take(i + 1).drop_last() =~= all.take(i as int));
            assert(all[i as int] == names@[i as int]@);
            match KeyForm::parse(names[i].as_str()) {
                Some(f) => forms.push(f),
                None => {},
            }
            i = i + 1;
        }
        assert(all.take(i as int) =~= all);
        NonidentityKey { config, forms }
    }

    fn opted_in(&self, form: KeyForm) -> (r: bool)
        ensures
            r == self.forms@.contains(form),
    {
        let mut i: usize = 0;
        while i < self.forms.len()
            invariant
                i <= self.forms@.len(),
                forall|j: int| 0 <= j < i ==> self.forms@[j] != form,
            decreases self.forms.len() - i,
        {
            if self.forms[i] == form {
                assert(self.forms@[i as int] == form);
                return true;
            }
            i = i + 1;
        }
        false
    }

    fn denied_type_name(&self, defs: &Definitions, key: &Ty, key_text: &str) -> (r: Option<String>)
        ensures
            match r {
                Some(t) => denied_name(*defs, *self.config, *key, key_text@) == Some(t@),
                None => denied_name(*defs, *self.config, *key, key_text@) is None,
            },
    {
        match key.peel_refs().adt() {
            Some(d) => {
                if configured(defs, d, &self.config.nonidentity_key_types) {
                    return Some(String::from_str(defs.path_of(d)));
                }
            },
            None => {},
        }
        if !self.config.nonidentity_key_composite {
            return None;
        }
        let parts = collect_components(defs, key);
        match find_listed(defs, &parts, &self.config.nonidentity_key_types) {
            Some(hit) => {
                if find_listed(defs, &parts, &self.config.nonidentity_key_fixes).is_some() {
                    return None;
                }
                let mut t = String::from_str(key_text);
                t.append("` carrying `");
                t.append(defs.path_of(hit));
                Some(t)
            },
            None => None,
        }
    }

    /// What the lint says of an expression.
    pub fn check_expr(&self, defs: &Definitions, e: &Expr) -> (r: Vec<Finding>)
        ensures
            views(r@) == key_findings(*defs, *self.config, self.forms@, *e),
    {
        let mut out: Vec<Finding> = Vec::new();
        let ghost none = views(out@);
        assert(none =~= Seq::<FindingView>::empty());
        let (name, recv, args) = match &e.kind {
            ExprKind::MethodCall(n, r, a) => (defs.text_of(*n), r, a),
            _ => {
                return out;
            },
        };
        if !is_key_method(name) {
            return out;
        }
        let k: usize = match find_key_argument(defs, &recv.adjusted) {
            Some(k) => k,
            None => {
                return out;
            },
        };
        let key_ty = match recv.adjusted.peel_refs() {
            Ty::Adt(_, targs) => &targs[k],
            _ => {
                return out;
            },
        };
        let key_text = if k < recv.arg_texts.len() {
            recv.arg_texts[k].as_str()
        } else {
            ""
        };
        match self.denied_type_name(defs, key_ty, key_text) {
            Some(path) => {
                let mut msg = String::from_str("map keyed on `");
                msg.append(path.as_str());
                msg.append("`, which this project declares is not an identity");
                emit(
                    &mut out,
                    Lint::NonidentityKey,
                    e.span,
                    msg,
                    "key on the canonical identity of the thing this names",
                );
                assert(views(out@) =~= key_findings(*defs, *self.config, self.forms@, *e));
                return out;
            },
            None => {},
        }
        // The form of the key matters where the key value itself is written.
        if !(same(name, "insert") || same(name, "entry")) || args.len() == 0 {
            return out;
        }
        let key = &args[0];
        let ghost a = bits_findings(*defs, self.forms@, *key);
        let ghost b = method_findings(*defs, texts(self.config.nonidentity_key_methods@), *key);
        let ghost c = pointer_findings(self.forms@, *key);
        if self.opted_in(KeyForm::ToBits) && is_float_to_bits(defs, key) {
            emit(
                &mut out,
                Lint::NonidentityKey,
                key.span,
                String::from_str("map keyed on `to_bits()` of a float"),
                "for boxed or interned values the bits are a pointer, not the value; key on the canonical identity",
            );
        }
        assert(views(out@) =~= a);
        match (&key.kind, key.method) {
            (ExprKind::MethodCall(kname, _, _), Some(m)) => {
                if configured(defs, m, &self.config.nonidentity_key_methods) {
                    let mut msg = String::from_str("map keyed on `");
                    msg.append(defs.text_of(*kname));
                    msg.append("()`, which this project declares is not an identity");
                    emit(
                        &mut out,
                        Lint::NonidentityKey,
                        key.span,
                        msg,
                        "key on the canonical identity of the thing this names",
                    );
                }
            },
            _ => {},
        }
        assert(views(out@) =~= a + b);
        if self.opted_in(KeyForm::PtrCast) && is_ptr_to_int_cast(key) {
            emit(
                &mut out,
                Lint::NonidentityKey,
                key.span,
                String::from_str("map keyed on a pointer cast to an integer"),
                "pointer bits name an allocation, not a value; key on the canonical identity",
            );
        }
        assert(views(out@) =~= a + b + c);
        out
    }
}

/// With no configuration the lint is silent.
pub proof fn lemma_unconfigured_is_silent(
    defs: Definitions,
    config: MordantConfig,
    forms: Seq<KeyForm>,
    e: Expr,
)
    requires
        config.nonidentity_key_types@.len() == 0,
        config.nonidentity_key_methods@.len() == 0,
        config.nonidentity_key_forms@.len() == 0,
        forms == forms_of(texts(config.nonidentity_key_forms@)),
    ensures
        key_findings(defs, config, forms, e).len() == 0,
{
    assert(texts(config.nonidentity_key_types@) =~= Seq::empty());
    assert(texts(config.nonidentity_key_methods@) =~= Seq::empty());
    assert(texts(config.nonidentity_key_forms@) =~= Seq::empty());
    match e.kind {
        ExprKind::MethodCall(name, recv, args) => {
            match key_argument(defs, recv.adjusted) {
                Some(k) => {
                    let key_ty = peeled(recv.adjusted)->Adt_1@[k];
                    lemma_nothing_listed(defs, components(defs, key_ty), 0);
                },
                None => {},
            }
        },
        _ => {},
    }
}

proof fn lemma_nothing_listed(defs: Definitions, parts: Seq<Option<DefId>>, k: int)
    ensures
        first_listed(defs, parts, Seq::empty(), k) is None,
    decreases parts.len() - k,
{
    if k < parts.len() {
        lemma_nothing_listed(defs, parts, k + 1);
    }
}

/// The component is a definition on the list.
pub open spec fn part_listed(
    defs: Definitions,
    part: Option<DefId>,
    list: Seq<Seq<char>>,
) -> bool {
    part matches Some(d) && listed_def(defs, d, list)
}

proof fn lemma_first_listed(
    defs: Definitions,
    parts: Seq<Option<DefId>>,
    list: Seq<Seq<char>>,
    k: int,
)
    requires
        0 <= k,
    ensures
        first_listed(defs, parts, list, k) is Some <==> exists|i: int|
            k <= i < parts.len() && part_listed(defs, #[trigger] parts[i], list),
    decreases parts.len() - k,
{
    if k < parts.len() {
        lemma_first_listed(defs, parts, list, k + 1);
        if part_listed(defs, parts[k], list) {
        } else if exists|i: int|
            k <= i < parts.len() && part_listed(defs, #[trigger] parts[i], list) {
            let i = choose|i: int|
                k <= i < parts.len() && part_listed(defs, #[trigger] parts[i], list);
            assert(k + 1 <= i);
        }
    }
}

/// A composite key that carries a denied type is flagged exactly if the
/// project asks for composite keys and none of the fixing types sits beside
/// it.
pub proof fn lemma_composite_key(
    defs: Definitions,
    config: MordantConfig,
    key: Ty,
    key_text: Seq<char>,
)
    requires
        adt_id(peeled(key)) matches Some(d) ==> !listed_def(
            defs,
            d,
            texts(config.nonidentity_key_types@),
        ),
    ensures
        denied_name(defs, config, key, key_text) is Some <==> {
            let parts = components(defs, key);
            &&& config.nonidentity_key_composite
            &&& exists|i: int|
                0 <= i < parts.len() && part_listed(
                    defs,
                    #[trigger] parts[i],
                    texts(config.nonidentity_key_types@),
                )
            &&& forall|i: int|
                0 <= i < parts.len() ==> !part_listed(
                    defs,
                    #[trigger] parts[i],
                    texts(config.nonidentity_key_fixes@),
                )
        },
{
    let parts = components(defs, key);
    lemma_first_listed(defs, parts, texts(config.nonidentity_key_types@), 0);
    lemma_first_listed(defs, parts, texts(config.nonidentity_key_fixes@), 0);
}

/// The two forms go by their names; another name asks for nothing.
pub proof fn lemma_forms_go_by_name(names: Seq<Seq<char>>)
    ensures
        forms_of(names).contains(KeyForm::ToBits) <==> names.contains("to-bits"@),
        forms_of(names).contains(KeyForm::PtrCast) <==> names.contains("ptr-cast"@),
    decreases names.len(),
{
    reveal_strlit("to-bits");
    reveal_strlit("ptr-cast");
    assert("to-bits"@.len() != "ptr-cast"@.len());
    if names.len() > 0 {
        let front = names.drop_last();
        lemma_forms_go_by_name(front);
        assert(names =~= front.push(names.last()));
        crate::table::lemma_pushed(front, names.last(), "to-bits"@);
        crate::table::lemma_pushed(front, names.last(), "ptr-cast"@);
        match form_named(names.last()) {
            Some(f) => {
                crate::table::lemma_pushed(forms_of(front), f, KeyForm::ToBits);
                crate::table::lemma_pushed(forms_of(front), f, KeyForm::PtrCast);
            },
            None => {},
        }
    }
}

/// A definition is listed by its path, and one of the crate's own by the path
/// behind the crate's name too.
pub proof fn lemma_listed_by_path(
    defs: Definitions,
    did: DefId,
    list: Seq<Seq<char>>,
    i: int,
)
    requires
        0 <= i < list.len(),
    ensures
        list[i] == defs.path_text(did) ==> listed_def(defs, did, list),
        defs.local(did) && list[i] == defs.crate_text(did) + "::"@ + defs.path_text(did)
            ==> listed_def(defs, did, list),
{
    assert(list.contains(list[i]));
}

/// The key of a map is the first type argument that is neither a lifetime nor
/// a constant, of the std maps and sets and of `indexmap`'s.
pub proof fn lemma_key_is_the_first_type(
    defs: Definitions,
    recv: Ty,
    did: DefId,
    args: Vec<Ty>,
    k: int,
)
    requires
        peeled(recv) == Ty::Adt(did, args),
        0 <= k < args@.len(),
        !(args@[k] is Region) && !(args@[k] is Const),
        forall|i: int|
            0 <= i < k ==> (#[trigger] args@[i]) is Region || args@[i] is Const,
    ensures
        defs.known(did) == Known::HashMapType || defs.known(did) == Known::HashSetType
            || defs.known(did) == Known::BTreeMapType || defs.known(did) == Known::BTreeSetType
            || defs.crate_text(did) == "indexmap"@ ==> key_argument(defs, recv) == Some(k),
        defs.known(did) == Known::VecType && defs.crate_text(did) != "indexmap"@ ==> key_argument(
            defs,
            recv,
        ) is None,
        defs.known(did) == Known::Unlisted && defs.crate_text(did) != "indexmap"@ ==> key_argument(
            defs,
            recv,
        ) is None,
{
    lemma_first_type(args@, 0, k);
}

proof fn lemma_first_type(args: Seq<Ty>, from: int, k: int)
    requires
        0 <= from <= k < args.len(),
        !(args[k] is Region) && !(args[k] is Const),
        forall|i: int| 0 <= i < k ==> (#[trigger] args[i]) is Region || args[i] is Const,
    ensures
        first_type(args, from) == Some(k),
    decreases k - from,
{
    if from < k {
        assert(args[from] is Region || args[from] is Const);
        lemma_first_type(args, from + 1, k);
    }
}

/// A tuple key carries its members, a struct key its fields, a generic one
/// what it is given; references do not count.
pub proof fn lemma_key_carries_its_parts(
    defs: Definitions,
    key: Ty,
    parts: Vec<Ty>,
    did: DefId,
    args: Vec<Ty>,
    i: int,
)
    ensures
        peeled(key) == Ty::Tuple(parts) && 0 <= i < parts@.len() ==> components(defs, key).len()
            == parts@.len() && components(defs, key)[i] == match peeled(parts@[i]) {
            Ty::Adt(d, _) => Some(d),
            _ => None,
        },
        peeled(key) == Ty::Adt(did, args) && defs.is_struct(did) && 0 <= i < defs.fields(did).len()
            ==> components(defs, key).len() == defs.fields(did).len() && (peeled(
            defs.fields(did)[i].ty,
        ) matches Ty::Adt(d, _) ==> components(defs, key)[i] == Some(d)),
        peeled(key) == Ty::Adt(did, args) && defs.is_struct(did) && 0 <= i < defs.fields(did).len()
            ==> (peeled(defs.fields(did)[i].ty) matches Ty::Param(p) ==> ((p as int) < args@.len()
            ==> (peeled(args@[p as int]) matches Ty::Adt(d, _) ==> components(defs, key)[i] == Some(
            d,
        )))),
{
}

/// The method touches the map by key.
pub open spec fn by_key(name: Seq<char>) -> bool {
    name == "insert"@ || name == "entry"@ || name == "get"@ || name == "contains_key"@ || name
        == "contains"@ || name == "remove"@
}

/// A map of a denied key type is reported wherever it is touched by key:
/// `insert`, `entry`, `get`, `contains_key`, `contains` or `remove`.
pub proof fn lemma_denied_key_is_reported(
    defs: Definitions,
    config: MordantConfig,
    forms: Seq<KeyForm>,
    e: Expr,
    name: crate::ids::Symbol,
    recv: Expr,
    args: Vec<Expr>,
    k: int,
    d: DefId,
    i: int,
)
    requires
        e.kind == ExprKind::MethodCall(name, Box::new(recv), args),
        key_argument(defs, recv.adjusted) == Some(k),
        adt_id(peeled(peeled(recv.adjusted)->Adt_1@[k])) == Some(d),
        0 <= i < config.nonidentity_key_types@.len(),
        config.nonidentity_key_types@[i]@ == defs.path_text(d),
    ensures
        by_key(defs.text(name)) ==> key_findings(defs, config, forms, e).len() == 1
            && key_findings(defs, config, forms, e)[0].at == e.span && key_findings(
            defs,
            config,
            forms,
            e,
        )[0].lint == Lint::NonidentityKey,
        !by_key(defs.text(name)) ==> key_findings(defs, config, forms, e).len() == 0,
{
    let denied = texts(config.nonidentity_key_types@);
    assert(denied[i] == defs.path_text(d));
    lemma_listed_by_path(defs, d, denied, i);
}

/// Where the key type itself is fine, inserting the bits of a float, an
/// integer made of a pointer, or the result of a denied method is reported at
/// the key, each if the project asks for it.
pub proof fn lemma_denied_key_value_is_reported(
    defs: Definitions,
    config: MordantConfig,
    forms: Seq<KeyForm>,
    e: Expr,
    name: crate::ids::Symbol,
    recv: Expr,
    args: Vec<Expr>,
    k: int,
    key: Expr,
)
    requires
        e.kind == ExprKind::MethodCall(name, Box::new(recv), args),
        key_argument(defs, recv.adjusted) == Some(k),
        denied_name(defs, config, peeled(recv.adjusted)->Adt_1@[k], arg_text(recv, k)) is None,
        args@.len() > 0,
        args@[0] == key,
        defs.text(name) == "insert"@ || defs.text(name) == "entry"@,
    ensures
        forms.contains(KeyForm::ToBits) && (key.kind matches ExprKind::MethodCall(n, r, a) && defs.text(n)
            == "to_bits"@ && a@.len() == 0 && peeled(r.ty) is Float) ==> told_at(
            key_findings(defs, config, forms, e),
            key,
        ),
        forms.contains(KeyForm::PtrCast) && (key.kind matches ExprKind::Cast(x) && x.ty is RawPtr
            && key.ty is Int) ==> told_at(key_findings(defs, config, forms, e), key),
        key.kind is MethodCall && (key.method matches Some(m) && texts(
            config.nonidentity_key_methods@,
        ).contains(defs.path_text(m))) ==> told_at(key_findings(defs, config, forms, e), key),
        key.kind is Path || key.kind is Lit || key.kind is Field ==> key_findings(
            defs,
            config,
            forms,
            e,
        ).len() == 0,
{
    let a = bits_findings(defs, forms, key);
    let b = method_findings(defs, texts(config.nonidentity_key_methods@), key);
    let c = pointer_findings(forms, key);
    let all = key_findings(defs, config, forms, e);
    assert(all == a + b + c);
    if a.len() > 0 {
        assert(all[0] == a[0]);
        assert(told_at(all, key));
    }
    if b.len() > 0 {
        assert(all[a.len() as int] == b[0]);
        assert(told_at(all, key));
    }
    if c.len() > 0 {
        assert(all[(a.len() + b.len()) as int] == c[0]);
        assert(told_at(all, key));
    }
}

/// Some finding of the lint is at the expression.
pub open spec fn told_at(fs: Seq<FindingView>, e: Expr) -> bool {
    exists|i: int|
        0 <= i < fs.len() && (#[trigger] fs[i]).at == e.span && fs[i].lint == Lint::NonidentityKey
}

/// A definition whose path is not listed is not, whatever its name; a form
/// that is not asked for is not reported.
pub proof fn lemma_what_is_not_denied(
    defs: Definitions,
    did: DefId,
    list: Seq<Seq<char>>,
    forms: Seq<KeyForm>,
    key: Expr,
)
    ensures
        !defs.local(did) && !list.contains(defs.path_text(did)) ==> !listed_def(defs, did, list),
        !list.contains(defs.path_text(did)) && !list.contains(
            defs.crate_text(did) + "::"@ + defs.path_text(did),
        ) ==> !listed_def(defs, did, list),
        !forms.contains(KeyForm::ToBits) ==> bits_findings(defs, forms, key).len() == 0,
        !forms.contains(KeyForm::PtrCast) ==> pointer_findings(forms, key).len() == 0,
        (key.kind matches ExprKind::MethodCall(n, r, a) && (a@.len() > 0 || !(peeled(r.ty)
            is Float) || defs.text(n) != "to_bits"@)) ==> bits_findings(defs, forms, key).len()
            == 0,
        (key.kind matches ExprKind::Cast(x) && (!(x.ty is RawPtr) || !(key.ty is Int)))
            ==> pointer_findings(forms, key).len() == 0,
{
}

} // verus!
