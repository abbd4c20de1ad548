//! `Result<_, String>` (and `&str`, `Cow<str>`) in public signatures. A string
//! error has no variants to match on; callers cannot tell failures apart
//! without parsing prose.

use crate::adt_facts::{err_ty, result_err_ty};
use crate::config::MordantConfig;
use crate::defs::{DefKind, Definitions, Known};
use crate::enum_facts::{parent_def, parent_of};
use crate::ids::{DefId, Span};
use crate::report::{emit, finding, views, Finding, FindingView, Lint};
use crate::ty::Ty;
use vstd::prelude::*;
use vstd::string::*;

verus! {

#[derive(Debug)]
pub struct StringlyError {
    pub include_box_dyn: bool,
}

/// The return type a signature writes, and where.
#[derive(Debug)]
pub struct Declared {
    pub ty: Ty,
    pub span: Span,
}

/// `dyn Error`.
pub open spec fn dyn_error(defs: Definitions, ty: Ty) -> bool {
    ty matches Ty::Dyn(Some(t), _, _) && defs.known(t) == Known::ErrorTrait
}

fn is_dyn_error(defs: &Definitions, ty: &Ty) -> (r: bool)
    ensures
        r == dyn_error(*defs, *ty),
{
    match ty {
        Ty::Dyn(Some(t), _, _) => defs.known_as(*t) == Known::ErrorTrait,
        _ => false,
    }
}

/// What a string-like error type is called; none for any other type.
pub open spec fn stringy(defs: Definitions, boxes: bool, ty: Ty) -> Option<Seq<char>> {
    match ty {
        Ty::Adt(did, args) => if defs.known(did) == Known::StringType {
            Some("String"@)
        } else if defs.known(did) == Known::CowType && args@.len() > 1 && args@[1] is Str {
            Some("Cow<str>"@)
        } else if boxes && defs.known(did) == Known::BoxType && args@.len() > 0 && dyn_error(
            defs,
            args@[0],
        ) {
            Some("Box<dyn Error>"@)
        } else {
            None
        },
        Ty::Ref(inner, _) => if *inner is Str {
            Some("&str"@)
        } else {
            None
        },
        _ => None,
    }
}

/// What the lint says of a signature.
pub open spec fn sig_findings(
    defs: Definitions,
    boxes: bool,
    def: DefId,
    output: Option<Declared>,
) -> Seq<FindingView> {
    match output {
        Some(d) => match err_ty(defs, d.ty) {
            Some(e) => match stringy(defs, boxes, e) {
                Some(desc) => if defs.exported(def) {
                    seq![
                        finding(
                            Lint::StringlyError,
                            d.span,
                            "public signature returns `Result<_, "@ + desc + ">`"@,
                            "a string error has no variants to match on; define an error enum and return it"@,
                        ),
                    ]
                } else {
                    Seq::empty()
                },
                None => Seq::empty(),
            },
            None => Seq::empty(),
        },
        None => Seq::empty(),
    }
}

/// The definition is an item of a trait impl, whose signature the trait
/// dictates.
pub open spec fn of_trait_impl(defs: Definitions, def: DefId) -> bool {
    parent_of(defs, def) matches Some(p) && defs.kind(p) == DefKind::Impl(true)
}

/// What the lint says of a function. A closure, the program's entry point and
/// a method a trait dictates are no signatures of this crate's making.
pub open spec fn fn_findings(
    defs: Definitions,
    boxes: bool,
    def: DefId,
    is_closure: bool,
    entry: Option<DefId>,
    output: Option<Declared>,
) -> Seq<FindingView> {
    if is_closure || entry == Some(def) || of_trait_impl(defs, def) {
        Seq::empty()
    } else {
        sig_findings(defs, boxes, def, output)
    }
}

impl StringlyError {
    pub fn new(config: &MordantConfig) -> (r: Self)
        ensures
            r.include_box_dyn == config.stringly_error_include_box_dyn,
    {
        StringlyError { include_box_dyn: config.stringly_error_include_box_dyn }
    }

    fn stringy_desc(&self, defs: &Definitions, err: &Ty) -> (r: Option<&'static str>)
        ensures
            match r {
                Some(d) => stringy(*defs, self.include_box_dyn, *err) == Some(d@),
                None => stringy(*defs, self.include_box_dyn, *err) is None,
            },
    {
        match err {
            Ty::Adt(did, args) => {
                let known = defs.known_as(*did);
                if known == Known::StringType {
                    Some("String")
                } else if known == Known::CowType && args.len() > 1 && args[1].is_str() {
                    Some("Cow<str>")
                } else if self.include_box_dyn && known == Known::BoxType && args.len() > 0
                    && is_dyn_error(defs, &args[0]) {
                    Some("Box<dyn Error>")
                } else {
                    None
                }
            },
            Ty::Ref(inner, _) => if inner.is_str() {
                Some("&str")
            } else {
                None
            },
            _ => None,
        }
    }

    fn check_sig(&self, defs: &Definitions, def: DefId, output: &Option<Declared>) -> (r: Vec<
        Finding,
    >)
        ensures
            views(r@) == sig_findings(*defs, self.include_box_dyn, def, *output),
    {
        let mut out: Vec<Finding> = Vec::new();
        assert(views(out@) =~= Seq::<FindingView>::empty());
        if !defs.is_exported(def) {
            return out;
        }
        match output {
            Some(d) => match result_err_ty(defs, &d.ty) {
                Some(e) => match self.stringy_desc(defs, e) {
                    Some(desc) => {
                        let mut msg = String::from_str("public signature returns `Result<_, ");
                        msg.append(desc);
                        msg.append(">`");
                        emit(
                            &mut out,
                            Lint::StringlyError,
                            d.span,
                            msg,
                            "a string error has no variants to match on; define an error enum and return it",
                        );
                        assert(views(out@) =~= sig_findings(
                            *defs,
                            self.include_box_dyn,
                            def,
                            *output,
                        ));
                    },
                    None => {},
                },
                None => {},
            },
            None => {},
        }
        out
    }

    /// What the lint says of a function with a body; `entry` is the program's
    /// entry point.
    pub fn check_fn(
        &self,
        defs: &Definitions,
        def: DefId,
        is_closure: bool,
        entry: Option<DefId>,
        output: &Option<Declared>,
    ) -> (r: Vec<Finding>)
        ensures
            views(r@) == fn_findings(
                *defs,
                self.include_box_dyn,
                def,
                is_closure,
                entry,
                *output,
            ),
    {
        let is_entry = match entry {
            Some(e) => e == def,
            None => false,
        };
        let dictated = match parent_def(defs, def) {
            Some(p) => match defs.kind_of(p) {
                DefKind::Impl(of_trait) => of_trait,
                _ => false,
            },
            None => false,
        };
        if is_closure || is_entry || dictated {
            let out: Vec<Finding> = Vec::new();
            assert(views(out@) =~= Seq::<FindingView>::empty());
            return out;
        }
        self.check_sig(defs, def, output)
    }

    /// What the lint says of a trait's method: a required one has no body, so
    /// it is no function to check elsewhere.
    pub fn check_trait_item(
        &self,
        defs: &Definitions,
        def: DefId,
        required: bool,
        output: &Option<Declared>,
    ) -> (r: Vec<Finding>)
        ensures
            views(r@) == if required {
                sig_findings(*defs, self.include_box_dyn, def, *output)
            } else {
                Seq::empty()
            },
    {
        if !required {
            let out: Vec<Finding> = Vec::new();
            assert(views(out@) =~= Seq::<FindingView>::empty());
            return out;
        }
        self.check_sig(defs, def, output)
    }
}

/// Boxed trait objects are reported only where the project asks for it.
pub proof fn lemma_boxes_are_opt_in(defs: Definitions, did: DefId, args: Vec<Ty>)
    requires
        defs.known(did) == Known::BoxType,
    ensures
        stringy(defs, false, Ty::Adt(did, args)) is None,
{
}

/// A signature nothing outside the crate can name is never reported.
pub proof fn lemma_private_signature_is_quiet(
    defs: Definitions,
    boxes: bool,
    def: DefId,
    output: Option<Declared>,
)
    requires
        !defs.exported(def),
    ensures
        sig_findings(defs, boxes, def, output).len() == 0,
{
}

/// A public function whose error is a string, owned, borrowed or either, is
/// reported at the return type it writes; a boxed `dyn Error` is too where the
/// project asks for it.
pub proof fn lemma_public_string_error_is_reported(
    defs: Definitions,
    boxes: bool,
    def: DefId,
    entry: Option<DefId>,
    d: Declared,
    res: DefId,
    args: Seq<Ty>,
)
    requires
        d.ty matches Ty::Adt(r, a) && r == res && a@ == args,
        defs.known(res) == Known::ResultType,
        args.len() == 2,
        (args[1] matches Ty::Adt(s, xs) && (defs.known(s) == Known::StringType || (defs.known(s)
            == Known::CowType && xs@.len() > 1 && xs@[1] is Str) || (boxes && defs.known(s)
            == Known::BoxType && xs@.len() > 0 && (xs@[0] matches Ty::Dyn(Some(t), _, _)
            && defs.known(t) == Known::ErrorTrait)))) || (args[1] matches Ty::Ref(s, _) && *s
            is Str),
        defs.at(def) matches Some(x) && x.is_exported,
        entry != Some(def),
        !(defs.at(def) matches Some(x) && (x.parent matches Some(p) && defs.kind(p)
            == DefKind::Impl(true))),
    ensures
        fn_findings(defs, boxes, def, false, entry, Some(d)).len() == 1,
        fn_findings(defs, boxes, def, false, entry, Some(d))[0].lint == Lint::StringlyError,
        fn_findings(defs, boxes, def, false, entry, Some(d))[0].at == d.span,
        sig_findings(defs, boxes, def, Some(d)) == fn_findings(
            defs,
            boxes,
            def,
            false,
            entry,
            Some(d),
        ),
{
}

/// The type is no `Result`, or one whose error is plainly no string.
pub open spec fn no_string_error(defs: Definitions, ty: Ty) -> bool {
    match ty {
        Ty::Adt(r, args) => defs.known(r) != Known::ResultType || (args@.len() == 2
            && match args@[1] {
            Ty::Adt(s, _) => defs.known(s) != Known::StringType && defs.known(s) != Known::CowType
                && defs.known(s) != Known::BoxType,
            Ty::Ref(s, _) => !(*s is Str),
            _ => true,
        }),
        _ => true,
    }
}

/// Nothing is said of a closure, of the program's entry point, of a method a
/// trait dictates, of a function that writes no return type, or of an error
/// that is no string.
pub proof fn lemma_other_signatures_are_quiet(
    defs: Definitions,
    boxes: bool,
    def: DefId,
    is_closure: bool,
    entry: Option<DefId>,
    output: Option<Declared>,
)
    requires
        is_closure || entry == Some(def) || output is None || (defs.at(def) matches Some(x) && (
        x.parent matches Some(p) && defs.kind(p) == DefKind::Impl(true))) || (output matches Some(d)
            && no_string_error(defs, d.ty)),
    ensures
        fn_findings(defs, boxes, def, is_closure, entry, output).len() == 0,
{
}

} // verus!
