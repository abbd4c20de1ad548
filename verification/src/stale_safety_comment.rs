//! A `// SAFETY:` comment whose backticked identifiers no longer exist: not in
//! the file's code, and not the name of any definition in this crate or a
//! crate it links. A safety justification that names a guard which a refactor
//! has since removed asserts an invariant nothing provides.
//!
//! Runs only with `stale-safety-comment-enabled = true` in `dylint.toml`. The
//! crate cannot see names defined in C++, in scripts, or in crates that
//! depend on it, so it is a survey to run once, not a gate to keep on.

use crate::claims::{
    all_names, backticked_idents, claimed_idents, code_of, comment_above, comment_run, entry_at,
    file_code_only, has_word, index_of, linked, word_in, DefNames, LinkedDef, NameEntry,
    SourceFile,
};
use crate::defs::Definitions;
use crate::hir::Block;
use crate::ids::{DefId, Span};
use crate::report::{emit, finding, views, Finding, FindingView, Lint};
use crate::text::{has_text, occurs_in, texts};
use vstd::prelude::*;
use vstd::string::*;

verus! {

#[derive(Debug)]
pub struct StaleSafetyComment {
    /// The names of this crate's definitions, once collected.
    pub defs: Option<DefNames>,
}

impl Default for StaleSafetyComment {
    fn default() -> (r: Self)
        ensures
            r.defs is None,
    {
        StaleSafetyComment { defs: None }
    }
}

/// The `//` run directly above line `first`, when it mentions SAFETY.
pub open spec fn safety_comment(f: SourceFile, first: int) -> Option<(Seq<char>, Span)> {
    match comment_run(f, first) {
        Some((text, at)) => if occurs_in(text, "SAFETY"@) {
            Some((text, at))
        } else {
            None
        },
        None => None,
    }
}

pub fn safety_comment_above(f: &SourceFile, first: usize) -> (r: Option<(String, Span)>)
    ensures
        match r {
            Some((t, s)) => safety_comment(*f, first as int) == Some((t@, s)),
            None => safety_comment(*f, first as int) is None,
        },
{
    match comment_above(f, first) {
        Some((text, at)) => if has_text(text.as_str(), "SAFETY") {
            Some((text, at))
        } else {
            None
        },
        None => None,
    }
}

/// Nothing the comment's names can mean goes by this one.
pub open spec fn gone(
    f: SourceFile,
    names: Seq<NameEntry>,
    upstream: Seq<LinkedDef>,
    ident: Seq<char>,
) -> bool {
    !has_word(code_of(f), ident) && entry_at(names, ident) < 0 && !linked(upstream, ident)
}

pub open spec fn stale_finding(at: Span, ident: Seq<char>) -> FindingView {
    finding(
        Lint::StaleSafetyComment,
        at,
        "this SAFETY comment names `"@ + ident
            + "`, which appears nowhere in this file's code, this crate, or any crate it links"@,
        "the guard this justification described has moved or gone; update the comment or restore the guard"@,
    )
}

/// What the lint says of the names a comment claims.
pub open spec fn stale_names(
    f: SourceFile,
    names: Seq<NameEntry>,
    upstream: Seq<LinkedDef>,
    at: Span,
    idents: Seq<Seq<char>>,
) -> Seq<FindingView>
    decreases idents.len(),
{
    if idents.len() == 0 {
        Seq::empty()
    } else {
        let before = stale_names(f, names, upstream, at, idents.drop_last());
        if gone(f, names, upstream, idents.last()) {
            before.push(stale_finding(at, idents.last()))
        } else {
            before
        }
    }
}

/// What the lint says of a block whose first line is `first`.
pub open spec fn block_findings(
    f: SourceFile,
    names: Option<DefNames>,
    upstream: Seq<LinkedDef>,
    b: Block,
    first: Option<usize>,
) -> Seq<FindingView> {
    match (first, names) {
        (Some(line), Some(known)) => match safety_comment(f, line as int) {
            Some((text, at)) => if b.user_unsafe && !b.from_expansion {
                stale_names(f, known@, upstream, at, claimed_idents(text))
            } else {
                Seq::empty()
            },
            None => Seq::empty(),
        },
        _ => Seq::empty(),
    }
}

impl StaleSafetyComment {
    /// Collects the names of the crate's definitions.
    pub fn check_crate(&mut self, defs: &Definitions, items: &Vec<DefId>)
        ensures
            final(self).defs matches Some(n) && n@ == index_of(all_names(*defs, items@)),
    {
        self.defs = Some(DefNames::collect(defs, items));
    }

    /// What the lint says of a block. `file` is the file it stands in, and
    /// `first` its first line there, where that is known.
    pub fn check_block(
        &self,
        file: &SourceFile,
        upstream: &Vec<LinkedDef>,
        b: &Block,
        first: Option<usize>,
    ) -> (r: Vec<Finding>)
        ensures
            views(r@) == block_findings(*file, self.defs, upstream@, *b, first),
    {
        let mut out: Vec<Finding> = Vec::new();
        assert(views(out@) =~= Seq::<FindingView>::empty());
        if !b.user_unsafe || b.from_expansion {
            return out;
        }
        let line: usize = match first {
            Some(l) => l,
            None => {
                return out;
            },
        };
        let (comment, at) = match safety_comment_above(file, line) {
            Some(c) => c,
            None => {
                return out;
            },
        };
        let known = match &self.defs {
            Some(d) => d,
            None => {
                return out;
            },
        };
        let code = file_code_only(file);
        let idents = backticked_idents(comment.as_str());
        let ghost all = texts(idents@);
        let mut i: usize = 0;
        while i < idents.len()
            invariant
                i <= idents@.len(),
                all == texts(idents@),
                code@ == code_of(*file),
                views(out@) == stale_names(*file, known@, upstream@, at, all.take(i as int)),
            decreases idents.len() - i,
        {
            assert(all.take(i + 1).drop_last() =~= all.take(i as int));
            assert(all[i as int] == idents@[i as int]@);
            let ident = idents[i].as_str();
            if !word_in(code.as_str(), ident) && !known.contains(upstream, ident) {
                let mut msg = String::from_str("this SAFETY comment names `");
                msg.append(ident);
                msg.append(
                    "`, which appears nowhere in this file's code, this crate, or any crate it links",
                );
                emit(
                    &mut out,
                    Lint::StaleSafetyComment,
                    at,
                    msg,
                    "the guard this justification described has moved or gone; update the comment or restore the guard",
                );
            }
            i = i + 1;
        }
        assert(all.take(i as int) =~= all);
        out
    }
}

/// A comment is reported only for names it claims and nothing provides, and
/// for each of those.
pub proof fn lemma_reported_iff_gone(
    f: SourceFile,
    names: Seq<NameEntry>,
    upstream: Seq<LinkedDef>,
    at: Span,
    idents: Seq<Seq<char>>,
)
    ensures
        stale_names(f, names, upstream, at, idents).len() == 0 <==> forall|i: int|
            0 <= i < idents.len() ==> !gone(f, names, upstream, #[trigger] idents[i]),
    decreases idents.len(),
{
    if idents.len() > 0 {
        lemma_reported_iff_gone(f, names, upstream, at, idents.drop_last());
        assert forall|i: int| 0 <= i < idents.len() - 1 implies idents.drop_last()[i]
            == #[trigger] idents[i] by {}
        assert(idents.last() == idents[idents.len() - 1]);
        if stale_names(f, names, upstream, at, idents.drop_last()).len() != 0 {
            let i = choose|i: int|
                0 <= i < idents.drop_last().len() && gone(
                    f,
                    names,
                    upstream,
                    #[trigger] idents.drop_last()[i],
                );
            assert(gone(f, names, upstream, idents[i]));
        }
    }
}

/// A comment that says `SAFETY` right above an unsafe block one wrote oneself
/// is reported for each name in backticks that neither the file's code nor the
/// crate nor a crate it links has.
pub proof fn lemma_stale_name_is_reported(
    f: SourceFile,
    known: DefNames,
    upstream: Seq<LinkedDef>,
    b: Block,
    line: usize,
    text: Seq<char>,
    at: Span,
    i: int,
)
    requires
        comment_run(f, line as int) == Some((text, at)),
        occurs_in(text, "SAFETY"@),
        0 <= i < claimed_idents(text).len(),
        !has_word(code_of(f), claimed_idents(text)[i]),
        forall|k: int|
            0 <= k < known@.len() ==> (#[trigger] known@[k]).name != claimed_idents(text)[i],
        forall|k: int|
            0 <= k < upstream.len() ==> !((#[trigger] upstream[k]).name matches Some(n) && n@
                == claimed_idents(text)[i]),
    ensures
        b.user_unsafe && !b.from_expansion ==> ({
            let all = block_findings(f, Some(known), upstream, b, Some(line));
            exists|k: int|
                0 <= k < all.len() && (#[trigger] all[k]).at == at && all[k].lint
                    == Lint::StaleSafetyComment
        }),
        !b.user_unsafe || b.from_expansion ==> block_findings(
            f,
            Some(known),
            upstream,
            b,
            Some(line),
        ).len() == 0,
{
    let idents = claimed_idents(text);
    lemma_unknown_entry(known@, idents[i]);
    assert(!linked(upstream, idents[i]));
    assert(gone(f, known@, upstream, idents[i]));
    lemma_gone_is_told(f, known@, upstream, at, idents, i);
    let all = stale_names(f, known@, upstream, at, idents);
    let x = stale_finding(at, idents[i]);
    let k = choose|k: int| 0 <= k < all.len() && all[k] == x;
    let told = block_findings(f, Some(known), upstream, b, Some(line));
    if b.user_unsafe && !b.from_expansion {
        assert(told == all);
        assert(told[k].at == at && told[k].lint == Lint::StaleSafetyComment);
    }
}

proof fn lemma_unknown_entry(index: Seq<NameEntry>, name: Seq<char>)
    requires
        forall|k: int| 0 <= k < index.len() ==> (#[trigger] index[k]).name != name,
    ensures
        entry_at(index, name) < 0,
    decreases index.len(),
{
    if index.len() > 0 {
        assert(index[index.len() - 1] == index.last());
        let front = index.drop_last();
        assert forall|k: int| 0 <= k < front.len() implies (#[trigger] front[k]).name != name by {
            assert(front[k] == index[k]);
        }
        lemma_unknown_entry(front, name);
    }
}

proof fn lemma_gone_is_told(
    f: SourceFile,
    names: Seq<NameEntry>,
    upstream: Seq<LinkedDef>,
    at: Span,
    idents: Seq<Seq<char>>,
    i: int,
)
    requires
        0 <= i < idents.len(),
        gone(f, names, upstream, idents[i]),
    ensures
        stale_names(f, names, upstream, at, idents).contains(stale_finding(at, idents[i])),
    decreases idents.len(),
{
    let front = idents.drop_last();
    crate::table::lemma_pushed(
        stale_names(f, names, upstream, at, front),
        stale_finding(at, idents.last()),
        stale_finding(at, idents[i]),
    );
    if i < idents.len() - 1 {
        assert(front[i] == idents[i]);
        lemma_gone_is_told(f, names, upstream, at, front, i);
    }
}

/// A name the file's code has, the crate defines, or a linked crate defines,
/// is vouched for; a comment without `SAFETY` claims nothing.
pub proof fn lemma_vouched_names(
    f: SourceFile,
    names: Seq<NameEntry>,
    upstream: Seq<LinkedDef>,
    ident: Seq<char>,
    text: Seq<char>,
    at: Span,
    first: int,
    k: int,
)
    ensures
        has_word(code_of(f), ident) ==> !gone(f, names, upstream, ident),
        0 <= k < upstream.len() && upstream[k].path_hash != 0 && (upstream[k].name matches Some(n)
            && n@ == ident) ==> !gone(f, names, upstream, ident),
        comment_run(f, first) == Some((text, at)) && !occurs_in(text, "SAFETY"@)
            ==> safety_comment(f, first) is None,
{
    if 0 <= k < upstream.len() {
        assert(crate::claims::defines(upstream[k], ident) ==> linked(upstream, ident));
    }
}

/// A name the crate defines is not gone.
pub proof fn lemma_defined_name_is_not_gone(
    f: SourceFile,
    names: Seq<NameEntry>,
    upstream: Seq<LinkedDef>,
    k: int,
)
    requires
        0 <= k < names.len(),
    ensures
        !gone(f, names, upstream, names[k].name),
    decreases names.len(),
{
    lemma_entry_found(names, k);
}

proof fn lemma_entry_found(names: Seq<NameEntry>, k: int)
    requires
        0 <= k < names.len(),
    ensures
        entry_at(names, names[k].name) >= 0,
    decreases names.len(),
{
    if k < names.len() - 1 {
        lemma_entry_found(names.drop_last(), k);
    }
}

} // verus!
