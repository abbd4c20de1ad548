use mordant::claims::{
    backticked_idents, comment_above, file_code_only, upstream_has, word_in, DefNames, LinkedDef,
    SourceFile, SourceLine,
};
use mordant::defs::{
    AdtDef, AdtKind, CtorShape, DefKind, Definition, Definitions, FieldDef, Known, Repr,
    VariantDef,
};
use mordant::hir::Block;
use mordant::ids::{DefId, HirId, Span, Symbol};
use mordant::stale_safety_comment::{safety_comment_above, StaleSafetyComment};
use mordant::ty::Ty;

fn source(text: &str) -> SourceFile {
    let mut at: u32 = 0;
    let lines = text
        .lines()
        .map(|l| {
            let lo = at;
            at += l.len() as u32 + 1;
            SourceLine { text: l.to_string(), lo, hi: at }
        })
        .collect();
    SourceFile { lines }
}

fn unsafe_block() -> Block {
    Block {
        id: HirId(1),
        span: Span { lo: 0, hi: 0 },
        stmts: vec![],
        expr: None,
        user_unsafe: true,
        from_expansion: false,
        labelled: false,
    }
}

fn definition(name: u32, kind: DefKind, adt: Option<AdtDef>) -> Definition {
    Definition {
        name: Symbol(name),
        path: String::new(),
        krate: Symbol(0),
        is_local: true,
        is_exported: false,
        known: Known::Unlisted,
        kind,
        parent: None,
        span: Span { lo: 0, hi: 0 },
        adt,
        sig: None,
        self_ty: None,
    }
}

/// `struct Guard { held: bool }`, `fn wake()`, and a nameless definition.
fn defs() -> Definitions {
    let fields = vec![FieldDef {
        did: DefId(9),
        name: Symbol(3),
        ty: Ty::Bool,
        span: Span { lo: 0, hi: 0 },
        visible_in: None,
    }];
    let adt = AdtDef {
        kind: AdtKind::Struct,
        variants: vec![VariantDef {
            did: DefId(0),
            name: Symbol(1),
            shape: CtorShape::Braces,
            fields,
        }],
        non_exhaustive: false,
        repr: Repr { c: false, packed: false, transparent: false, simd: false, int: false },
        conversions: vec![],
        indexes: false,
        inherent: vec![],
    };
    Definitions {
        defs: vec![
            definition(1, DefKind::Struct, Some(adt)),
            definition(2, DefKind::Function, None),
            definition(0, DefKind::Other, None),
        ],
        names: ["", "Guard", "wake", "held"].iter().map(|s| s.to_string()).collect(),
    }
}

#[test]
fn mentions_reduce_to_their_last_name() {
    assert_eq!(
        backticked_idents("`self.frames` and `VM::wake()`, `a()()`"),
        vec!["frames", "wake", "a"]
    );
}

#[test]
fn files_keywords_and_prose_are_no_mentions() {
    assert!(backticked_idents("`src/lib.rs` `lib.rs` `Cargo.toml` `a/b`").is_empty());
    assert!(backticked_idents("`unsafe` `Vec` `self` `1x` `a b` `` `x.1y`").is_empty());
    assert_eq!(backticked_idents("`lib.rx`"), vec!["rx"]);
}

#[test]
fn an_unpaired_backtick_opens_nothing() {
    assert_eq!(backticked_idents("`one` then `two"), vec!["one"]);
    assert!(backticked_idents("no backticks").is_empty());
}

#[test]
fn identifiers_may_be_unicode() {
    assert_eq!(backticked_idents("`größe` `_x1`"), vec!["größe", "_x1"]);
}

#[test]
fn words_are_whole() {
    assert!(word_in("let held = 1;", "held"));
    assert!(!word_in("let upheld = 1;", "held"));
    assert!(!word_in("let held_too = 1;", "held"));
    assert!(word_in("held", "held"));
    assert!(!word_in("", "held"));
    assert!(word_in("(größe)", "größe"));
}

#[test]
fn the_run_of_comments_above_is_joined() {
    let f = source("// far\nlet x;\n  // SAFETY: one\n\t/// two\nunsafe {}\n");
    let (text, span) = comment_above(&f, 4).unwrap();
    assert_eq!(text, " SAFETY: one\n two");
    assert_eq!((span.lo, span.hi), (14, 40));
    assert!(comment_above(&f, 2).is_none());
    assert!(comment_above(&f, 0).is_none());
    assert!(comment_above(&f, 9).is_none());
    assert!(safety_comment_above(&f, 1).is_none());
    assert_eq!(safety_comment_above(&f, 4).unwrap().0, " SAFETY: one\n two");
}

#[test]
fn any_white_space_indents() {
    for c in ['\u{a0}', '\u{1680}', '\u{2009}', '\u{3000}', '\u{b}'] {
        let f = source(&format!("{c}// SAFETY: one\nunsafe {{}}\n"));
        assert_eq!(comment_above(&f, 1).unwrap().0, " SAFETY: one", "{c:?}");
    }
    for c in ['\u{200b}', '\u{180e}', '\u{feff}'] {
        let f = source(&format!("{c}// SAFETY: one\nunsafe {{}}\n"));
        assert!(comment_above(&f, 1).is_none(), "{c:?}");
    }
}

#[test]
fn code_is_what_stands_before_comments() {
    let f = source("let a; // held\n// all comment\nlet b = \"x\";\n");
    assert_eq!(file_code_only(&f), "let a; \n\nlet b = \"x\";");
    assert_eq!(file_code_only(&source("")), "");
}

#[test]
fn shared_names_have_no_owner() {
    let d = defs();
    let names = DefNames::collect(&d, &vec![DefId(0), DefId(1), DefId(2)]);
    assert_eq!(names.names, vec!["Guard", "held", "wake"]);
    assert_eq!(names.owners, vec![None, None, Some(DefId(1))]);
    assert!(names.contains(&vec![], "wake"));
    assert!(!names.contains(&vec![], "gone"));
}

#[test]
fn holes_in_a_linked_table_name_nothing() {
    let linked = vec![
        LinkedDef { path_hash: 0, name: Some("hole".to_string()) },
        LinkedDef { path_hash: 7, name: None },
        LinkedDef { path_hash: 8, name: Some("far".to_string()) },
    ];
    assert!(upstream_has(&linked, "far"));
    assert!(!upstream_has(&linked, "hole"));
}

#[test]
fn a_safety_comment_that_names_nothing_left_is_stale() {
    let d = defs();
    let mut lint = StaleSafetyComment::default();
    lint.check_crate(&d, &vec![DefId(0), DefId(1)]);
    let f = source("// SAFETY: `held`, `local`, `far` and `gone` keep it alive\nunsafe { local }\n");
    let linked = vec![LinkedDef { path_hash: 8, name: Some("far".to_string()) }];
    let found = lint.check_block(&f, &linked, &unsafe_block(), Some(1));
    assert_eq!(found.len(), 1);
    assert_eq!(
        found[0].message,
        "this SAFETY comment names `gone`, which appears nowhere in this file's code, this crate, or any crate it links"
    );
}

#[test]
fn blocks_nobody_wrote_and_comments_without_safety_are_passed_over() {
    let d = defs();
    let mut lint = StaleSafetyComment::default();
    let f = source("// SAFETY: `gone`\nunsafe {}\n// `gone`\nunsafe {}\n");
    assert!(lint.check_block(&f, &vec![], &unsafe_block(), Some(1)).is_empty());
    lint.check_crate(&d, &vec![]);
    assert_eq!(lint.check_block(&f, &vec![], &unsafe_block(), Some(1)).len(), 1);
    assert!(lint.check_block(&f, &vec![], &unsafe_block(), Some(3)).is_empty());
    assert!(lint.check_block(&f, &vec![], &unsafe_block(), None).is_empty());
    let mut expanded = unsafe_block();
    expanded.from_expansion = true;
    assert!(lint.check_block(&f, &vec![], &expanded, Some(1)).is_empty());
    let mut plain = unsafe_block();
    plain.user_unsafe = false;
    assert!(lint.check_block(&f, &vec![], &plain, Some(1)).is_empty());
}
