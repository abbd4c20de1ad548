//! Ratchet mode. A baseline file records the accepted finding count per lint
//! and file; runs suppress up to that many findings and surface only the
//! overflow, so a brownfield codebase can be gated from day one.
//!
//! With `MORDANT_BASELINE_WRITE` set nothing is emitted and each compiled
//! crate's section is rewritten instead. Sections are keyed by crate so
//! parallel compiler processes never clobber another crate's entries.
//!
//! Counts, not spans: line numbers drift with every edit, so a per-file count
//! is the only key that survives normal development. Moving a finding between
//! files consumes allowance in one file and overflows in the other.

use crate::names::{current, current_name, lemma_lint_name_is_current, lemma_lint_names_differ};
use crate::ordered::{
    ascends, found, holds, lemma_place, lemma_put, lemma_without, place, put, without,
};
use crate::registry::lint_name;
use crate::report::{text_at_most, Lint};
use crate::text::{
    decimal, first_at, lemma_first_at, number, occurs_at, same, split_first, split_once, texts,
};
use std::collections::BTreeMap;
use vstd::prelude::*;
use vstd::string::*;

verus! {

// ---------------------------------------------------------------- the file

/// How many findings a key stands for.
#[derive(Debug)]
pub struct Entry {
    /// The lint and the file, with a colon between.
    pub key: String,
    pub count: u64,
}

/// What one crate recorded.
#[derive(Debug)]
pub struct Section {
    pub name: String,
    pub entries: Vec<Entry>,
}

/// Entries as values.
pub open spec fn entry_views(v: Seq<Entry>) -> Seq<(Seq<char>, nat)> {
    v.map_values(|e: Entry| (e.key@, e.count as nat))
}

/// Sections as values.
pub open spec fn section_views(v: Seq<Section>) -> Seq<(Seq<char>, Seq<(Seq<char>, nat)>)> {
    v.map_values(|s: Section| (s.name@, entry_views(s.entries@)))
}

/// Sections ascend by name, and the entries of each by key.
pub open spec fn well_ordered(doc: Seq<(Seq<char>, Seq<(Seq<char>, nat)>)>) -> bool {
    ascends(doc) && forall|i: int| 0 <= i < doc.len() ==> ascends((#[trigger] doc[i]).1)
}

/// The sections `toml::from_str` reads out of a text; none where the text is
/// no table of tables of counts.
pub uninterp spec fn toml_sections(text: Seq<char>) -> Option<
    Seq<(Seq<char>, Seq<(Seq<char>, nat)>)>,
>;

/// The text `toml::to_string_pretty` writes for sections; none where it
/// reports an error.
pub uninterp spec fn toml_document(doc: Seq<(Seq<char>, Seq<(Seq<char>, nat)>)>) -> Option<
    Seq<char>,
>;

/// Calls `toml::from_str` for a map of maps. What it reads depends on the text
/// alone, and a `BTreeMap` hands its entries out in the order of its keys.
#[verifier::external_body]
fn parse_sections(text: &str) -> (r: Option<Vec<Section>>)
    ensures
        match r {
            Some(v) => toml_sections(text@) == Some(section_views(v@)) && well_ordered(
                section_views(v@),
            ),
            None => toml_sections(text@) is None,
        },
{
    let doc: BTreeMap<String, BTreeMap<String, u64>> = toml::from_str(text).ok()?;
    Some(
        doc.into_iter()
            .map(|(name, entries)| Section {
                name,
                entries: entries.into_iter().map(|(key, count)| Entry { key, count }).collect(),
            })
            .collect(),
    )
}

/// Calls `toml::to_string_pretty` on a map of maps. What it writes depends on
/// the sections alone, and `toml::from_str` reads the same sections back: keys
/// are quoted and escaped where they have to be, and counts are plain decimal.
#[verifier::external_body]
fn render_sections(doc: &Vec<Section>) -> (r: Option<String>)
    requires
        well_ordered(section_views(doc@)),
    ensures
        match r {
            Some(t) => toml_document(section_views(doc@)) == Some(t@) && toml_sections(t@) == Some(
                section_views(doc@),
            ),
            None => toml_document(section_views(doc@)) is None,
        },
{
    let map: BTreeMap<&str, BTreeMap<&str, u64>> = doc
        .iter()
        .map(|s| (s.name.as_str(), s.entries.iter().map(|e| (e.key.as_str(), e.count)).collect()))
        .collect();
    toml::to_string_pretty(&map).ok()
}

/// The sections of a baseline file; none of a text that is no such file.
pub open spec fn sections_of(text: Seq<char>) -> Seq<(Seq<char>, Seq<(Seq<char>, nat)>)> {
    match toml_sections(text) {
        Some(doc) => doc,
        None => Seq::empty(),
    }
}

/// The sections of a baseline file; none of a text that is no such file.
pub fn read_doc(text: &str) -> (r: Vec<Section>)
    ensures
        section_views(r@) == sections_of(text@),
        well_ordered(section_views(r@)),
{
    match parse_sections(text) {
        Some(v) => v,
        None => {
            let out: Vec<Section> = Vec::new();
            assert(section_views(out@) =~= Seq::empty());
            out
        },
    }
}

// ---------------------------------------------------------------- counts

/// The key stands for findings of the lint in the file. A key written before
/// the lint was renamed stands for the lint under its name of today.
pub open spec fn names_key(key: Seq<char>, lint: Seq<char>, file: Seq<char>) -> bool {
    match split_first(key, ":"@) {
        Some((l, f)) => current_name(l) == lint && f == file,
        None => false,
    }
}

/// How many findings the entries accept.
pub open spec fn entries_total(
    entries: Seq<(Seq<char>, nat)>,
    lint: Seq<char>,
    file: Seq<char>,
) -> nat
    decreases entries.len(),
{
    if entries.len() == 0 {
        0
    } else {
        entries_total(entries.drop_last(), lint, file) + if names_key(
            entries.last().0,
            lint,
            file,
        ) {
            entries.last().1
        } else {
            0nat
        }
    }
}

/// How many findings the sections accept.
pub open spec fn total(
    doc: Seq<(Seq<char>, Seq<(Seq<char>, nat)>)>,
    lint: Seq<char>,
    file: Seq<char>,
) -> nat
    decreases doc.len(),
{
    if doc.len() == 0 {
        0
    } else {
        total(doc.drop_last(), lint, file) + entries_total(doc.last().1, lint, file)
    }
}

/// The number, or the greatest one a counter holds.
pub open spec fn capped(n: nat) -> nat {
    if n > u64::MAX {
        u64::MAX as nat
    } else {
        n
    }
}

/// What is accepted of one lint in one file.
#[derive(Debug)]
pub struct Allowance {
    pub lint: String,
    pub file: String,
    pub recorded: u64,
    /// What is left of it in this run.
    pub left: u64,
}

/// Where the allowance of the lint in the file stands, or the end.
pub open spec fn allowance_at(v: Seq<Allowance>, lint: Seq<char>, file: Seq<char>, i: int) -> int
    decreases v.len() - i,
{
    if i >= v.len() || (v[i].lint@ == lint && v[i].file@ == file) {
        i
    } else {
        allowance_at(v, lint, file, i + 1)
    }
}

proof fn lemma_allowance_at(v: Seq<Allowance>, lint: Seq<char>, file: Seq<char>, i: int)
    requires
        0 <= i <= v.len(),
    ensures
        i <= allowance_at(v, lint, file, i) <= v.len(),
        allowance_at(v, lint, file, i) < v.len() ==> v[allowance_at(v, lint, file, i)].lint@
            == lint && v[allowance_at(v, lint, file, i)].file@ == file,
    decreases v.len() - i,
{
    if i < v.len() && !(v[i].lint@ == lint && v[i].file@ == file) {
        lemma_allowance_at(v, lint, file, i + 1);
    }
}

/// Where an allowance stands depends only on the names.
proof fn lemma_same_names(
    v: Seq<Allowance>,
    w: Seq<Allowance>,
    lint: Seq<char>,
    file: Seq<char>,
    i: int,
)
    requires
        0 <= i <= v.len() == w.len(),
        forall|k: int|
            0 <= k < v.len() ==> (#[trigger] v[k]).lint@ == w[k].lint@ && v[k].file@ == w[k].file@,
    ensures
        allowance_at(v, lint, file, i) == allowance_at(w, lint, file, i),
    decreases v.len() - i,
{
    if i < v.len() && !(v[i].lint@ == lint && v[i].file@ == file) {
        lemma_same_names(v, w, lint, file, i + 1);
    }
}

/// A further allowance changes only where its own names lead.
proof fn lemma_one_more(
    v: Seq<Allowance>,
    a: Allowance,
    lint: Seq<char>,
    file: Seq<char>,
    i: int,
)
    requires
        0 <= i <= v.len(),
    ensures
        allowance_at(v, lint, file, i) < v.len() ==> allowance_at(v.push(a), lint, file, i)
            == allowance_at(v, lint, file, i),
        allowance_at(v, lint, file, i) == v.len() ==> allowance_at(v.push(a), lint, file, i) == (
        if a.lint@ == lint && a.file@ == file {
            v.len()
        } else {
            v.len() + 1
        }),
    decreases v.len() - i,
{
    if i < v.len() {
        assert(v.push(a)[i] == v[i]);
        if !(v[i].lint@ == lint && v[i].file@ == file) {
            lemma_one_more(v, a, lint, file, i + 1);
        }
    } else {
        assert(v.push(a)[i] == a);
        assert(allowance_at(v.push(a), lint, file, (v.len() + 1) as int) == v.len() + 1);
    }
}

/// How many findings were recorded for the lint in the file.
pub open spec fn recorded_of(v: Seq<Allowance>, lint: Seq<char>, file: Seq<char>) -> nat {
    let i = allowance_at(v, lint, file, 0);
    if i < v.len() {
        v[i].recorded as nat
    } else {
        0
    }
}

/// How many more findings of the lint in the file this run suppresses.
pub open spec fn left_of(v: Seq<Allowance>, lint: Seq<char>, file: Seq<char>) -> nat {
    let i = allowance_at(v, lint, file, 0);
    if i < v.len() {
        v[i].left as nat
    } else {
        0
    }
}

fn find_allowance(v: &Vec<Allowance>, lint: &str, file: &str) -> (r: Option<usize>)
    ensures
        match r {
            Some(i) => i < v@.len() && i == allowance_at(v@, lint@, file@, 0),
            None => allowance_at(v@, lint@, file@, 0) == v@.len(),
        },
{
    let mut i: usize = 0;
    while i < v.len()
        invariant
            i <= v@.len(),
            allowance_at(v@, lint@, file@, 0) == allowance_at(v@, lint@, file@, i as int),
        decreases v.len() - i,
    {
        if same(v[i].lint.as_str(), lint) && same(v[i].file.as_str(), file) {
            return Some(i);
        }
        i = i + 1;
    }
    None
}

/// Accepts `n` more findings of the lint in the file.
fn accept(v: &mut Vec<Allowance>, lint: &str, file: &str, n: u64)
    ensures
        forall|l: Seq<char>, f: Seq<char>| #[trigger]
            recorded_of(final(v)@, l, f) == if l == lint@ && f == file@ {
                capped(recorded_of(old(v)@, l, f) + n as nat)
            } else {
                recorded_of(old(v)@, l, f)
            },
        forall|l: Seq<char>, f: Seq<char>| #[trigger]
            left_of(final(v)@, l, f) == if l == lint@ && f == file@ {
                capped(left_of(old(v)@, l, f) + n as nat)
            } else {
                left_of(old(v)@, l, f)
            },
{
    let ghost before = v@;
    proof {
        lemma_allowance_at(before, lint@, file@, 0);
    }
    match find_allowance(v, lint, file) {
        Some(i) => {
            let recorded: u64 = v[i].recorded.saturating_add(n);
            let left: u64 = v[i].left.saturating_add(n);
            v.set(
                i,
                Allowance {
                    lint: String::from_str(lint),
                    file: String::from_str(file),
                    recorded,
                    left,
                },
            );
            proof {
                assert forall|l: Seq<char>, f: Seq<char>| true implies allowance_at(v@, l, f, 0)
                    == #[trigger] allowance_at(before, l, f, 0) by {
                    lemma_same_names(before, v@, l, f, 0);
                }
                assert forall|l: Seq<char>, f: Seq<char>|
                    !(l == lint@ && f == file@) implies #[trigger] allowance_at(before, l, f, 0)
                    != i by {
                    lemma_allowance_at(before, l, f, 0);
                }
                assert forall|l: Seq<char>, f: Seq<char>| #[trigger]
                    recorded_of(v@, l, f) == if l == lint@ && f == file@ {
                        capped(recorded_of(before, l, f) + n as nat)
                    } else {
                        recorded_of(before, l, f)
                    } by {
                    lemma_allowance_at(before, l, f, 0);
                    assert(allowance_at(before, l, f, 0) == allowance_at(v@, l, f, 0));
                }
                assert forall|l: Seq<char>, f: Seq<char>| #[trigger]
                    left_of(v@, l, f) == if l == lint@ && f == file@ {
                        capped(left_of(before, l, f) + n as nat)
                    } else {
                        left_of(before, l, f)
                    } by {
                    lemma_allowance_at(before, l, f, 0);
                    assert(allowance_at(before, l, f, 0) == allowance_at(v@, l, f, 0));
                }
            }
        },
        None => {
            let a = Allowance {
                lint: String::from_str(lint),
                file: String::from_str(file),
                recorded: n,
                left: n,
            };
            let ghost g = a;
            v.push(a);
            proof {
                assert forall|l: Seq<char>, f: Seq<char>| #[trigger]
                    recorded_of(v@, l, f) == if l == lint@ && f == file@ {
                        capped(recorded_of(before, l, f) + n as nat)
                    } else {
                        recorded_of(before, l, f)
                    } by {
                    lemma_allowance_at(before, l, f, 0);
                    lemma_one_more(before, g, l, f, 0);
                }
                assert forall|l: Seq<char>, f: Seq<char>| #[trigger]
                    left_of(v@, l, f) == if l == lint@ && f == file@ {
                        capped(left_of(before, l, f) + n as nat)
                    } else {
                        left_of(before, l, f)
                    } by {
                    lemma_allowance_at(before, l, f, 0);
                    lemma_one_more(before, g, l, f, 0);
                }
            }
        },
    }
}

/// Accepts what a section accepts.
fn accept_section(v: &mut Vec<Allowance>, entries: &Vec<Entry>, Ghost(so_far): Ghost<
    Seq<(Seq<char>, Seq<(Seq<char>, nat)>)>,
>)
    requires
        forall|l: Seq<char>, f: Seq<char>| #[trigger]
            recorded_of(old(v)@, l, f) == capped(total(so_far, l, f)),
        forall|l: Seq<char>, f: Seq<char>| #[trigger]
            left_of(old(v)@, l, f) == capped(total(so_far, l, f)),
    ensures
        forall|l: Seq<char>, f: Seq<char>| #[trigger]
            recorded_of(final(v)@, l, f) == capped(
                total(so_far, l, f) + entries_total(entry_views(entries@), l, f),
            ),
        forall|l: Seq<char>, f: Seq<char>| #[trigger]
            left_of(final(v)@, l, f) == capped(
                total(so_far, l, f) + entries_total(entry_views(entries@), l, f),
            ),
{
    let ghost all = entry_views(entries@);
    let mut i: usize = 0;
    while i < entries.len()
        invariant
            i <= entries@.len(),
            all == entry_views(entries@),
            forall|l: Seq<char>, f: Seq<char>| #[trigger]
                recorded_of(v@, l, f) == capped(
                    total(so_far, l, f) + entries_total(all.take(i as int), l, f),
                ),
            forall|l: Seq<char>, f: Seq<char>| #[trigger]
                left_of(v@, l, f) == capped(
                    total(so_far, l, f) + entries_total(all.take(i as int), l, f),
                ),
        decreases entries.len() - i,
    {
        let e = &entries[i];
        let ghost before = v@;
        assert(all.take(i + 1).drop_last() =~= all.take(i as int));
        assert(all.take(i + 1).last() == (e.key@, e.count as nat));
        match split_once(e.key.as_str(), ":") {
            Some((lint, file)) => {
                accept(v, current(lint.as_str()), file.as_str(), e.count);
            },
            None => {},
        }
        proof {
            assert forall|l: Seq<char>, f: Seq<char>| #[trigger]
                recorded_of(v@, l, f) == capped(
                    total(so_far, l, f) + entries_total(all.take(i + 1), l, f),
                ) by {
                assert(recorded_of(before, l, f) == capped(
                    total(so_far, l, f) + entries_total(all.take(i as int), l, f),
                ));
            }
            assert forall|l: Seq<char>, f: Seq<char>| #[trigger]
                left_of(v@, l, f) == capped(
                    total(so_far, l, f) + entries_total(all.take(i + 1), l, f),
                ) by {
                assert(left_of(before, l, f) == capped(
                    total(so_far, l, f) + entries_total(all.take(i as int), l, f),
                ));
            }
        }
        i = i + 1;
    }
    assert(all.take(i as int) =~= all);
}

// ---------------------------------------------------------------- a run

/// The ratchet during one run.
#[derive(Debug)]
pub struct Baseline {
    /// Which of the directories the file belongs to.
    pub dir: usize,
    /// Findings are recorded rather than reported.
    pub write: bool,
    pub allowance: Vec<Allowance>,
    /// What was recorded, one key per finding.
    pub recorded: Vec<String>,
    /// How many findings went over.
    pub over: u64,
}

impl Baseline {
    /// How many findings of the lint in the file the baseline file records.
    pub open spec fn accepts(self, lint: Lint, file: Seq<char>) -> nat {
        recorded_of(self.allowance@, lint_name(lint), file)
    }

    /// How many more this run suppresses.
    pub open spec fn left(self, lint: Lint, file: Seq<char>) -> nat {
        left_of(self.allowance@, lint_name(lint), file)
    }

    /// The ratchet at the start of a run, from the sections of its file.
    pub fn new(dir: usize, write: bool, doc: &Vec<Section>) -> (r: Self)
        ensures
            fresh(r, dir, write, section_views(doc@)),
    {
        let ghost all = section_views(doc@);
        let mut allowance: Vec<Allowance> = Vec::new();
        let mut i: usize = 0;
        proof {
            assert forall|l: Seq<char>, f: Seq<char>| #[trigger]
                recorded_of(allowance@, l, f) == capped(total(all.take(0), l, f)) by {}
            assert forall|l: Seq<char>, f: Seq<char>| #[trigger]
                left_of(allowance@, l, f) == capped(total(all.take(0), l, f)) by {}
        }
        while i < doc.len()
            invariant
                i <= doc@.len(),
                all == section_views(doc@),
                forall|l: Seq<char>, f: Seq<char>| #[trigger]
                    recorded_of(allowance@, l, f) == capped(total(all.take(i as int), l, f)),
                forall|l: Seq<char>, f: Seq<char>| #[trigger]
                    left_of(allowance@, l, f) == capped(total(all.take(i as int), l, f)),
            decreases doc.len() - i,
        {
            accept_section(&mut allowance, &doc[i].entries, Ghost(all.take(i as int)));
            proof {
                assert(all.take(i + 1).drop_last() =~= all.take(i as int));
                assert(all.take(i + 1).last().1 == entry_views(doc@[i as int].entries@));
                assert forall|l: Seq<char>, f: Seq<char>| #[trigger]
                    recorded_of(allowance@, l, f) == capped(total(all.take(i + 1), l, f)) by {}
                assert forall|l: Seq<char>, f: Seq<char>| #[trigger]
                    left_of(allowance@, l, f) == capped(total(all.take(i + 1), l, f)) by {}
            }
            i = i + 1;
        }
        assert(all.take(i as int) =~= all);
        let r = Baseline { dir, write, allowance, recorded: Vec::new(), over: 0 };
        assert(texts(r.recorded@) =~= Seq::empty());
        r
    }
}

/// The ratchet is the one the sections start a run with.
pub open spec fn fresh(
    b: Baseline,
    dir: usize,
    write: bool,
    doc: Seq<(Seq<char>, Seq<(Seq<char>, nat)>)>,
) -> bool {
    &&& b.dir == dir
    &&& b.write == write
    &&& texts(b.recorded@) == Seq::<Seq<char>>::empty()
    &&& b.over == 0
    &&& forall|l: Seq<char>, f: Seq<char>| #[trigger]
        recorded_of(b.allowance@, l, f) == capped(total(doc, l, f))
    &&& forall|l: Seq<char>, f: Seq<char>| #[trigger]
        left_of(b.allowance@, l, f) == capped(total(doc, l, f))
}

/// A directory the file may belong to.
#[derive(Debug)]
pub struct Dir {
    /// The baseline file is there.
    pub has_file: bool,
    /// `dylint.toml` is there.
    pub has_config: bool,
    /// What the baseline file holds, where it can be read.
    pub text: Option<String>,
}

/// The baseline file belongs to the directory. In write mode it may not exist
/// yet; it then belongs where the configuration that names it lives.
pub open spec fn anchors(d: Dir, write: bool) -> bool {
    d.has_file || (write && d.has_config)
}

/// The first of the directories from `i` on that the file belongs to.
pub open spec fn anchor(dirs: Seq<Dir>, write: bool, i: int) -> Option<int>
    decreases dirs.len() - i,
{
    if i >= dirs.len() {
        None
    } else if anchors(dirs[i], write) {
        Some(i)
    } else {
        anchor(dirs, write, i + 1)
    }
}

/// The sections a directory's file starts a run with.
pub open spec fn start_sections(d: Dir) -> Seq<(Seq<char>, Seq<(Seq<char>, nat)>)> {
    match d.text {
        Some(t) => sections_of(t@),
        None => Seq::empty(),
    }
}

/// The ratchet for a run, if one is configured and its file is found. The
/// directories are the crate's own and those around it, innermost first.
pub fn setup(file_name: &Option<String>, dirs: &Vec<Dir>, write: bool) -> (r: Option<Baseline>)
    ensures
        match r {
            Some(b) => file_name is Some && (anchor(dirs@, write, 0) matches Some(i) && fresh(
                b,
                i as usize,
                write,
                start_sections(dirs@[i]),
            )),
            None => file_name is None || anchor(dirs@, write, 0) is None,
        },
{
    if file_name.is_none() {
        return None;
    }
    let mut i: usize = 0;
    while i < dirs.len()
        invariant
            i <= dirs@.len(),
            file_name is Some,
            anchor(dirs@, write, 0) == anchor(dirs@, write, i as int),
        decreases dirs.len() - i,
    {
        if dirs[i].has_file || (write && dirs[i].has_config) {
            let doc = match &dirs[i].text {
                Some(t) => read_doc(t.as_str()),
                None => {
                    let none: Vec<Section> = Vec::new();
                    assert(section_views(none@) =~= Seq::empty());
                    none
                },
            };
            return Some(Baseline::new(i, write, &doc));
        }
        i = i + 1;
    }
    None
}

/// The key a finding is recorded under.
pub open spec fn key_of(lint: Lint, file: Seq<char>) -> Seq<char> {
    lint_name(lint) + ":"@ + file
}

/// Nothing but the allowance of the lint in the file went down, by one.
pub open spec fn spent(b: Baseline, n: Baseline, lint: Lint, file: Seq<char>) -> bool {
    &&& n.dir == b.dir
    &&& n.write == b.write
    &&& texts(n.recorded@) == texts(b.recorded@)
    &&& n.over == b.over
    &&& forall|l: Seq<char>, f: Seq<char>| #[trigger]
        recorded_of(n.allowance@, l, f) == recorded_of(b.allowance@, l, f)
    &&& forall|l: Seq<char>, f: Seq<char>| #[trigger]
        left_of(n.allowance@, l, f) == if l == lint_name(lint) && f == file {
            (left_of(b.allowance@, l, f) - 1) as nat
        } else {
            left_of(b.allowance@, l, f)
        }
}

/// Nothing changed but that the finding was recorded.
pub open spec fn noted_down(b: Baseline, n: Baseline, lint: Lint, file: Seq<char>) -> bool {
    &&& n.dir == b.dir
    &&& n.write == b.write
    &&& texts(n.recorded@) == texts(b.recorded@).push(key_of(lint, file))
    &&& n.over == b.over
    &&& n.allowance == b.allowance
}

impl Baseline {
    /// Uses up one of the findings accepted of the lint in the file, if there
    /// is one left, or records the finding.
    fn consume(&mut self, lint: Lint, file: &str) -> (r: bool)
        ensures
            old(self).write ==> r && noted_down(*old(self), *final(self), lint, file@),
            !old(self).write && old(self).left(lint, file@) > 0 ==> r && spent(
                *old(self),
                *final(self),
                lint,
                file@,
            ),
            !old(self).write && old(self).left(lint, file@) == 0 ==> !r
                && *final(self) == *old(self),
    {
        let ghost before = *self;
        if self.write {
            let mut key = String::from_str(lint.name());
            key.append(":");
            key.append(file);
            let ghost text = key@;
            self.recorded.push(key);
            assert(texts(self.recorded@) =~= texts(before.recorded@).push(text));
            return true;
        }
        let ghost v = self.allowance@;
        proof {
            lemma_allowance_at(v, lint_name(lint), file@, 0);
        }
        match find_allowance(&self.allowance, lint.name(), file) {
            Some(i) => {
                let left: u64 = self.allowance[i].left;
                if left == 0 {
                    return false;
                }
                let recorded: u64 = self.allowance[i].recorded;
                self.allowance.set(
                    i,
                    Allowance {
                        lint: String::from_str(lint.name()),
                        file: String::from_str(file),
                        recorded,
                        left: left - 1,
                    },
                );
                proof {
                    let w = self.allowance@;
                    assert forall|l: Seq<char>, f: Seq<char>| #[trigger]
                        recorded_of(w, l, f) == recorded_of(v, l, f) by {
                        lemma_same_names(v, w, l, f, 0);
                        lemma_allowance_at(v, l, f, 0);
                    }
                    assert forall|l: Seq<char>, f: Seq<char>| #[trigger]
                        left_of(w, l, f) == if l == lint_name(lint) && f == file@ {
                            (left_of(v, l, f) - 1) as nat
                        } else {
                            left_of(v, l, f)
                        } by {
                        lemma_same_names(v, w, l, f, 0);
                        lemma_allowance_at(v, l, f, 0);
                    }
                }
                true
            },
            None => false,
        }
    }
}

/// The baseline takes the finding.
pub open spec fn takes(b: Baseline, lint: Lint, file: Seq<char>) -> bool {
    b.write || b.left(lint, file) > 0
}

/// What the finding does to a baseline that takes it.
pub open spec fn taken(b: Baseline, n: Baseline, lint: Lint, file: Seq<char>) -> bool {
    if b.write {
        noted_down(b, n, lint, file)
    } else {
        spent(b, n, lint, file)
    }
}

/// True when the finding is consumed by the baseline (or recorded, in write
/// mode) and must not be reported. A finding in no file on disk never is, and
/// neither is one under an `allow` or `expect`: that one is neither recorded
/// nor counted.
pub fn suppressed(
    state: &mut Option<Baseline>,
    lint: Lint,
    file: &Option<String>,
    allowed: bool,
) -> (r: bool)
    ensures
        match (*old(state), *file) {
            (Some(b), Some(f)) => r == (!allowed && takes(b, lint, f@)) && (*final(state) matches Some(
                n,
            ) && if r {
                taken(b, n, lint, f@)
            } else {
                n == b
            }),
            _ => !r && *final(state) == *old(state),
        },
{
    match (state, file) {
        (Some(b), Some(f)) => !allowed && b.consume(lint, f.as_str()),
        _ => false,
    }
}

/// What becomes of a finding.
#[derive(Debug)]
pub enum Outcome {
    /// Nobody hears of it.
    Silent,
    /// It is reported at its lint's level.
    Report,
    /// It is over the baseline: reported as a plain warning under this title,
    /// which no lint level can raise.
    Over(String),
}

/// The title of a finding over the baseline.
pub open spec fn over_title(b: Baseline, lint: Lint, file: Seq<char>) -> Seq<char> {
    "`"@ + lint_name(lint) + "` over the mordant baseline ("@ + decimal(b.accepts(lint, file))
        + " recorded for "@ + file + ")"@
}

/// Nothing changed but that one more finding went over.
pub open spec fn went_over(b: Baseline, n: Baseline) -> bool {
    &&& n.dir == b.dir
    &&& n.write == b.write
    &&& n.recorded == b.recorded
    &&& n.allowance == b.allowance
    &&& n.over == capped((b.over + 1) as nat)
}

/// Every finding goes through here so the ratchet sees all of them. One under
/// an `allow` or `expect` is neither recorded nor counted: it goes to the
/// compiler as it would without a baseline.
pub fn emit(
    state: &mut Option<Baseline>,
    lint: Lint,
    file: &Option<String>,
    allowed: bool,
) -> (r: Outcome)
    ensures
        match (*old(state), *file) {
            (Some(b), Some(f)) => if allowed {
                r is Report && *final(state) == *old(state)
            } else if takes(b, lint, f@) {
                r is Silent && (*final(state) matches Some(n) && taken(b, n, lint, f@))
            } else {
                (r matches Outcome::Over(t) && t@ == over_title(b, lint, f@))
                    && (*final(state) matches Some(n) && went_over(b, n))
            },
            _ => r is Report && *final(state) == *old(state),
        },
{
    if suppressed(state, lint, file, allowed) {
        return Outcome::Silent;
    }
    if allowed {
        return Outcome::Report;
    }
    match (state, file) {
        (Some(b), Some(f)) => {
            let recorded: u64 = match find_allowance(&b.allowance, lint.name(), f.as_str()) {
                Some(i) => b.allowance[i].recorded,
                None => 0,
            };
            b.over = b.over.saturating_add(1);
            let mut t = String::from_str("`");
            t.append(lint.name());
            t.append("` over the mordant baseline (");
            t.append(number(recorded as u128).as_str());
            t.append(" recorded for ");
            t.append(f.as_str());
            t.append(")");
            Outcome::Over(t)
        },
        _ => Outcome::Report,
    }
}

/// What a crate that went over says: the warning, and the line for the list of
/// crates that went over.
pub open spec fn over_lines(b: Baseline, krate: Seq<char>) -> Option<(Seq<char>, Seq<char>)> {
    if b.write || b.over == 0 {
        None
    } else {
        Some(
            (
                "mordant: "@ + decimal(b.over as nat) + " finding(s) over the baseline in "@
                    + krate,
                krate + " "@ + decimal(b.over as nat),
            ),
        )
    }
}

/// What a crate that went over says; nothing for a clean one.
pub fn over_report(b: &Baseline, krate: &str) -> (r: Option<(String, String)>)
    ensures
        match r {
            Some((w, l)) => over_lines(*b, krate@) == Some((w@, l@)),
            None => over_lines(*b, krate@) is None,
        },
{
    if b.write || b.over == 0 {
        return None;
    }
    let n = number(b.over as u128);
    let mut warning = String::from_str("mordant: ");
    warning.append(n.as_str());
    warning.append(" finding(s) over the baseline in ");
    warning.append(krate);
    let mut line = String::from_str(krate);
    line.append(" ");
    line.append(n.as_str());
    Some((warning, line))
}

// ---------------------------------------------------------------- writing

/// The count at a key, zero where there is none.
pub open spec fn count_at(m: Seq<(Seq<char>, nat)>, key: Seq<char>) -> nat {
    match found(m, key) {
        Some(n) => n,
        None => 0,
    }
}

/// The keys met, each with how often, in order.
pub open spec fn tally(keys: Seq<Seq<char>>) -> Seq<(Seq<char>, nat)>
    decreases keys.len(),
{
    if keys.len() == 0 {
        Seq::empty()
    } else {
        let before = tally(keys.drop_last());
        put(before, keys.last(), count_at(before, keys.last()) + 1)
    }
}

/// How often a key was met.
pub open spec fn times(keys: Seq<Seq<char>>, key: Seq<char>) -> nat
    decreases keys.len(),
{
    if keys.len() == 0 {
        0
    } else {
        times(keys.drop_last(), key) + if keys.last() == key {
            1nat
        } else {
            0nat
        }
    }
}

/// A tally is in order, and counts each key as often as it was met.
pub proof fn lemma_tally(keys: Seq<Seq<char>>)
    ensures
        ascends(tally(keys)),
        forall|key: Seq<char>| #[trigger] count_at(tally(keys), key) == times(keys, key),
        forall|i: int| 0 <= i < tally(keys).len() ==> (#[trigger] tally(keys)[i]).1 <= keys.len(),
        (tally(keys).len() == 0) == (keys.len() == 0),
    decreases keys.len(),
{
    if keys.len() > 0 {
        let before = tally(keys.drop_last());
        let k = keys.last();
        let n = count_at(before, k) + 1;
        lemma_tally(keys.drop_last());
        lemma_put(before, k, n);
        lemma_place(before, k);
        assert forall|key: Seq<char>| #[trigger] count_at(tally(keys), key) == times(keys, key) by {
            assert(count_at(before, key) == times(keys.drop_last(), key));
            if key != k {
                assert(found(put(before, k, n), key) == found(before, key));
            }
        }
        let p = place(before, k);
        if holds(before, k) {
            assert(before[p].1 <= keys.drop_last().len());
        }
        assert forall|i: int| 0 <= i < tally(keys).len() implies (#[trigger] tally(keys)[i]).1
            <= keys.len() by {
            if i != p {
                let j = if holds(before, k) || i < p {
                    i
                } else {
                    i - 1
                };
                assert(tally(keys)[i] == before[j]);
            }
        }
    }
}

fn entry_place(entries: &Vec<Entry>, key: &str) -> (r: usize)
    requires
        ascends(entry_views(entries@)),
    ensures
        r == place(entry_views(entries@), key@),
        r <= entries@.len(),
{
    let ghost all = entry_views(entries@);
    proof {
        lemma_place(all, key@);
    }
    let mut n: usize = entries.len();
    assert(all.take(n as int) =~= all);
    while n > 0 && text_at_most(key, entries[n - 1].key.as_str())
        invariant
            n <= entries@.len(),
            all == entry_views(entries@),
            place(all, key@) == place(all.take(n as int), key@),
        decreases n,
    {
        assert(all.take(n as int).drop_last() =~= all.take(n - 1));
        assert(all.take(n as int).last().0 == entries@[n - 1].key@);
        n = n - 1;
    }
    proof {
        if n > 0 {
            assert(all.take(n as int).last().0 == entries@[n - 1].key@);
        }
    }
    n
}

/// Counts keys.
pub fn count_keys(keys: &Vec<String>) -> (r: Vec<Entry>)
    ensures
        entry_views(r@) == tally(texts(keys@)),
{
    let ghost all = texts(keys@);
    let mut out: Vec<Entry> = Vec::new();
    let mut i: usize = 0;
    assert(entry_views(out@) =~= tally(all.take(0)));
    while i < keys.len()
        invariant
            i <= keys@.len(),
            all == texts(keys@),
            entry_views(out@) == tally(all.take(i as int)),
        decreases keys.len() - i,
    {
        let ghost so_far = all.take(i as int);
        let ghost before = entry_views(out@);
        proof {
            assert(all.take(i + 1).drop_last() =~= so_far);
            assert(all.take(i + 1).last() == keys@[i as int]@);
            lemma_tally(so_far);
            lemma_place(before, keys@[i as int]@);
        }
        let key = keys[i].as_str();
        let p: usize = entry_place(&out, key);
        if p < out.len() && same(out[p].key.as_str(), key) {
            proof {
                assert(before[p as int] == (out@[p as int].key@, out@[p as int].count as nat));
                assert(tally(so_far)[p as int].1 <= so_far.len());
            }
            let n: u64 = out[p].count + 1;
            out.set(p, Entry { key: String::from_str(key), count: n });
            assert(entry_views(out@) =~= before.update(p as int, (key@, n as nat)));
        } else {
            proof {
                if p < out@.len() {
                    assert(before[p as int].0 == out@[p as int].key@);
                }
            }
            out.insert(p, Entry { key: String::from_str(key), count: 1 });
            assert(entry_views(out@) =~= before.insert(p as int, (key@, 1nat)));
        }
        i = i + 1;
    }
    assert(all.take(i as int) =~= all);
    out
}

/// What a crate's section is called. One crate name can cover several targets;
/// binaries carry a suffix so sections never clobber each other.
pub open spec fn section_name(krate: Seq<char>, bin: Option<Seq<char>>) -> Seq<char> {
    match bin {
        Some(b) => krate + " (bin "@ + b + ")"@,
        None => krate,
    }
}

pub open spec fn text_of(t: Option<String>) -> Option<Seq<char>> {
    match t {
        Some(s) => Some(s@),
        None => None,
    }
}

/// What a crate's section is called.
pub fn name_section(krate: &str, bin: &Option<String>) -> (r: String)
    ensures
        r@ == section_name(krate@, text_of(*bin)),
{
    let mut name = String::from_str(krate);
    match bin {
        Some(b) => {
            name.append(" (bin ");
            name.append(b.as_str());
            name.append(")");
        },
        None => {},
    }
    name
}

/// The sections with what one crate recorded in place of its old section. A
/// crate with nothing to record has none.
pub open spec fn rewritten(
    doc: Seq<(Seq<char>, Seq<(Seq<char>, nat)>)>,
    name: Seq<char>,
    keys: Seq<Seq<char>>,
) -> Seq<(Seq<char>, Seq<(Seq<char>, nat)>)> {
    if keys.len() == 0 {
        without(doc, name)
    } else {
        put(doc, name, tally(keys))
    }
}

proof fn lemma_rewritten_ordered(
    doc: Seq<(Seq<char>, Seq<(Seq<char>, nat)>)>,
    name: Seq<char>,
    keys: Seq<Seq<char>>,
)
    requires
        well_ordered(doc),
    ensures
        well_ordered(rewritten(doc, name, keys)),
{
    let r = rewritten(doc, name, keys);
    lemma_place(doc, name);
    lemma_tally(keys);
    let p = place(doc, name);
    if keys.len() == 0 {
        lemma_without(doc, name);
        assert forall|i: int| 0 <= i < r.len() implies ascends((#[trigger] r[i]).1) by {
            if holds(doc, name) {
                let j = if i < p {
                    i
                } else {
                    i + 1
                };
                assert(r[i] == doc[j]);
            }
        }
    } else {
        lemma_put(doc, name, tally(keys));
        assert forall|i: int| 0 <= i < r.len() implies ascends((#[trigger] r[i]).1) by {
            if i != p {
                let j = if holds(doc, name) || i < p {
                    i
                } else {
                    i - 1
                };
                assert(r[i] == doc[j]);
            }
        }
    }
}

fn section_place(doc: &Vec<Section>, name: &str) -> (r: usize)
    requires
        ascends(section_views(doc@)),
    ensures
        r == place(section_views(doc@), name@),
        r <= doc@.len(),
{
    let ghost all = section_views(doc@);
    proof {
        lemma_place(all, name@);
    }
    let mut n: usize = doc.len();
    assert(all.take(n as int) =~= all);
    while n > 0 && text_at_most(name, doc[n - 1].name.as_str())
        invariant
            n <= doc@.len(),
            all == section_views(doc@),
            place(all, name@) == place(all.take(n as int), name@),
        decreases n,
    {
        assert(all.take(n as int).drop_last() =~= all.take(n - 1));
        assert(all.take(n as int).last().0 == doc@[n - 1].name@);
        n = n - 1;
    }
    proof {
        if n > 0 {
            assert(all.take(n as int).last().0 == doc@[n - 1].name@);
        }
    }
    n
}

/// Puts what one crate recorded in place of its old section, and leaves every
/// other section alone.
pub fn rewrite(doc: Vec<Section>, name: &str, keys: &Vec<String>) -> (r: Vec<Section>)
    requires
        well_ordered(section_views(doc@)),
    ensures
        section_views(r@) == rewritten(section_views(doc@), name@, texts(keys@)),
        well_ordered(section_views(r@)),
{
    let ghost before = section_views(doc@);
    proof {
        lemma_rewritten_ordered(before, name@, texts(keys@));
        lemma_place(before, name@);
        lemma_tally(texts(keys@));
    }
    let mut out = doc;
    let entries = count_keys(keys);
    let ghost counted = entry_views(entries@);
    let p: usize = section_place(&out, name);
    let there = p < out.len() && same(out[p].name.as_str(), name);
    proof {
        if p < out@.len() {
            assert(before[p as int].0 == out@[p as int].name@);
        }
        assert(there == holds(before, name@));
        assert(texts(keys@).len() == keys@.len());
    }
    if keys.len() == 0 {
        if there {
            out.remove(p);
            assert(section_views(out@) =~= before.remove(p as int));
        }
    } else {
        let section = Section { name: String::from_str(name), entries };
        if there {
            out.set(p, section);
            assert(section_views(out@) =~= before.update(p as int, (name@, counted)));
        } else {
            out.insert(p, section);
            assert(section_views(out@) =~= before.insert(p as int, (name@, counted)));
        }
    }
    out
}

/// The new text of the baseline file once a crate has recorded its findings;
/// none where it cannot be written. What was recorded is then done with.
/// Outside write mode there is nothing to write.
pub fn flush(
    b: &mut Baseline,
    krate: &str,
    bin: &Option<String>,
    existing: &str,
) -> (r: Option<String>)
    ensures
        !old(b).write ==> r is None && *final(b) == *old(b),
        old(b).write ==> {
            let doc = rewritten(
                sections_of(existing@),
                section_name(krate@, text_of(*bin)),
                texts(old(b).recorded@),
            );
            match r {
                Some(t) => toml_document(doc) == Some(t@) && toml_sections(t@) == Some(doc),
                None => toml_document(doc) is None,
            }
        },
        old(b).write ==> final(b).recorded@.len() == 0,
        final(b).write == old(b).write,
        final(b).dir == old(b).dir,
        final(b).allowance == old(b).allowance,
        final(b).over == old(b).over,
{
    if !b.write {
        return None;
    }
    let name = name_section(krate, bin);
    let doc = rewrite(read_doc(existing), name.as_str(), &b.recorded);
    b.recorded = Vec::new();
    render_sections(&doc)
}

// ---------------------------------------------------------------- laws

/// How many of the keys stand for findings of the lint in the file.
pub open spec fn naming(keys: Seq<Seq<char>>, lint: Seq<char>, file: Seq<char>) -> nat
    decreases keys.len(),
{
    if keys.len() == 0 {
        0
    } else {
        naming(keys.drop_last(), lint, file) + if names_key(keys.last(), lint, file) {
            1nat
        } else {
            0nat
        }
    }
}

proof fn lemma_entries_insert(
    m: Seq<(Seq<char>, nat)>,
    p: int,
    e: (Seq<char>, nat),
    lint: Seq<char>,
    file: Seq<char>,
)
    requires
        0 <= p <= m.len(),
    ensures
        entries_total(m.insert(p, e), lint, file) == entries_total(m, lint, file) + if names_key(
            e.0,
            lint,
            file,
        ) {
            e.1
        } else {
            0nat
        },
    decreases m.len(),
{
    let r = m.insert(p, e);
    if p == m.len() {
        assert(r.drop_last() =~= m);
        assert(r.last() == e);
    } else {
        lemma_entries_insert(m.drop_last(), p, e, lint, file);
        assert(r.drop_last() =~= m.drop_last().insert(p, e));
        assert(r.last() == m.last());
    }
}

proof fn lemma_entries_update(
    m: Seq<(Seq<char>, nat)>,
    p: int,
    n: nat,
    lint: Seq<char>,
    file: Seq<char>,
)
    requires
        0 <= p < m.len(),
    ensures
        entries_total(m.update(p, (m[p].0, n)), lint, file) == entries_total(m, lint, file)
            + if names_key(m[p].0, lint, file) {
            n - m[p].1
        } else {
            0
        },
    decreases m.len(),
{
    let r = m.update(p, (m[p].0, n));
    if p == m.len() - 1 {
        assert(r.drop_last() =~= m.drop_last());
    } else {
        lemma_entries_update(m.drop_last(), p, n, lint, file);
        assert(r.drop_last() =~= m.drop_last().update(p, (m[p].0, n)));
        assert(r.last() == m.last());
    }
}

proof fn lemma_tally_total(keys: Seq<Seq<char>>, lint: Seq<char>, file: Seq<char>)
    ensures
        entries_total(tally(keys), lint, file) == naming(keys, lint, file),
    decreases keys.len(),
{
    if keys.len() > 0 {
        let before = tally(keys.drop_last());
        let k = keys.last();
        lemma_tally_total(keys.drop_last(), lint, file);
        lemma_tally(keys.drop_last());
        lemma_place(before, k);
        let p = place(before, k);
        if holds(before, k) {
            lemma_entries_update(before, p, before[p].1 + 1, lint, file);
        } else {
            lemma_entries_insert(before, p, (k, 1nat), lint, file);
        }
    }
}

proof fn lemma_sections_insert(
    doc: Seq<(Seq<char>, Seq<(Seq<char>, nat)>)>,
    p: int,
    s: (Seq<char>, Seq<(Seq<char>, nat)>),
    lint: Seq<char>,
    file: Seq<char>,
)
    requires
        0 <= p <= doc.len(),
    ensures
        total(doc.insert(p, s), lint, file) == total(doc, lint, file) + entries_total(
            s.1,
            lint,
            file,
        ),
    decreases doc.len(),
{
    let r = doc.insert(p, s);
    if p == doc.len() {
        assert(r.drop_last() =~= doc);
        assert(r.last() == s);
    } else {
        lemma_sections_insert(doc.drop_last(), p, s, lint, file);
        assert(r.drop_last() =~= doc.drop_last().insert(p, s));
        assert(r.last() == doc.last());
    }
}

/// A baseline accepts, once a crate has rewritten its section, what every
/// other section accepts and as many findings as the crate recorded.
pub proof fn lemma_recorded_is_accepted(
    doc: Seq<(Seq<char>, Seq<(Seq<char>, nat)>)>,
    name: Seq<char>,
    keys: Seq<Seq<char>>,
    lint: Seq<char>,
    file: Seq<char>,
)
    requires
        well_ordered(doc),
    ensures
        total(rewritten(doc, name, keys), lint, file) == total(without(doc, name), lint, file)
            + naming(keys, lint, file),
{
    lemma_place(doc, name);
    lemma_tally_total(keys, lint, file);
    let p = place(doc, name);
    if keys.len() > 0 {
        let s = (name, tally(keys));
        if holds(doc, name) {
            assert(doc.update(p, s) =~= doc.remove(p).insert(p, s));
        }
        lemma_sections_insert(without(doc, name), p, s, lint, file);
    }
}

/// Rewriting one crate's section leaves every other crate's alone.
pub proof fn lemma_other_sections_kept(
    doc: Seq<(Seq<char>, Seq<(Seq<char>, nat)>)>,
    name: Seq<char>,
    keys: Seq<Seq<char>>,
    other: Seq<char>,
)
    requires
        well_ordered(doc),
        other != name,
    ensures
        found(rewritten(doc, name, keys), other) == found(doc, other),
{
    lemma_put(doc, name, tally(keys));
    lemma_without(doc, name);
}

proof fn lemma_key_splits(name: Seq<char>, file: Seq<char>)
    requires
        !name.contains(':'),
    ensures
        split_first(name + ":"@ + file, ":"@) == Some((name, file)),
{
    let key = name + ":"@ + file;
    reveal_strlit(":");
    lemma_first_at(key, ":"@);
    let n = name.len() as int;
    assert(key.subrange(n, n + 1) =~= ":"@);
    assert(occurs_at(key, ":"@, n));
    let i = first_at(key, ":"@);
    if i < n {
        assert(key.subrange(i, i + 1)[0] == key[i]);
        assert(name[i] == ':');
        assert(name.contains(':'));
    }
    assert(key.take(n) =~= name);
    assert(key.skip(n + 1) =~= file);
}

/// The key a finding is recorded under stands for exactly its lint and file.
pub proof fn lemma_key_names_its_finding(lint: Lint, file: Seq<char>, l: Seq<char>, f: Seq<char>)
    ensures
        names_key(key_of(lint, file), l, f) == (l == lint_name(lint) && f == file),
{
    lemma_lint_name_is_current(lint);
    lemma_key_splits(lint_name(lint), file);
}

/// A baseline recorded under an old name still holds: an entry under any name
/// the lint ever went by accepts what an entry under its name of today does.
pub proof fn lemma_old_names_still_hold(
    entries: Seq<(Seq<char>, nat)>,
    old_name: Seq<char>,
    lint: Lint,
    file: Seq<char>,
    n: nat,
    l: Seq<char>,
    f: Seq<char>,
)
    requires
        !old_name.contains(':'),
        current_name(old_name) == lint_name(lint),
    ensures
        entries_total(entries.push((old_name + ":"@ + file, n)), l, f) == entries_total(
            entries.push((key_of(lint, file), n)),
            l,
            f,
        ),
        names_key(old_name + ":"@ + file, lint_name(lint), file),
{
    lemma_key_splits(old_name, file);
    lemma_key_names_its_finding(lint, file, l, f);
    assert(entries.push((old_name + ":"@ + file, n)).drop_last() =~= entries);
    assert(entries.push((key_of(lint, file), n)).drop_last() =~= entries);
}

/// What a write records, the next run suppresses: a run that starts from the
/// text a crate's findings were written to suppresses as many findings of a
/// lint in a file as the crate recorded, on top of what other crates' sections
/// accept.
pub proof fn lemma_next_run_suppresses_what_was_recorded(
    written: Baseline,
    existing: Seq<char>,
    name: Seq<char>,
    text: Seq<char>,
    next: Baseline,
    dir: usize,
    lint: Lint,
    file: Seq<char>,
)
    requires
        well_ordered(sections_of(existing)),
        toml_sections(text) == Some(
            rewritten(sections_of(existing), name, texts(written.recorded@)),
        ),
        fresh(next, dir, false, sections_of(text)),
    ensures
        next.left(lint, file) == capped(
            total(without(sections_of(existing), name), lint_name(lint), file) + naming(
                texts(written.recorded@),
                lint_name(lint),
                file,
            ),
        ),
        next.accepts(lint, file) == next.left(lint, file),
{
    lemma_recorded_is_accepted(
        sections_of(existing),
        name,
        texts(written.recorded@),
        lint_name(lint),
        file,
    );
}

/// One finding of a run: its lint and the file it is in.
pub struct Found {
    pub lint: Lint,
    pub file: Seq<char>,
}

/// The states of the ratchet follow one from the other as findings come in:
/// what it takes changes it accordingly, and what it does not goes over.
pub open spec fn follows(states: Seq<Baseline>, findings: Seq<Found>) -> bool {
    &&& states.len() == findings.len() + 1
    &&& forall|i: int|
        0 <= i < findings.len() ==> {
            let b = #[trigger] states[i];
            let f = findings[i];
            if takes(b, f.lint, f.file) {
                taken(b, states[i + 1], f.lint, f.file)
            } else {
                went_over(b, states[i + 1])
            }
        }
}

/// How many findings of the lint in the file came in.
pub open spec fn came(findings: Seq<Found>, lint: Lint, file: Seq<char>) -> nat
    decreases findings.len(),
{
    if findings.len() == 0 {
        0
    } else {
        came(findings.drop_last(), lint, file) + if findings.last().lint == lint
            && findings.last().file == file {
            1nat
        } else {
            0nat
        }
    }
}

/// How many of them were suppressed.
pub open spec fn swallowed(
    states: Seq<Baseline>,
    findings: Seq<Found>,
    lint: Lint,
    file: Seq<char>,
) -> nat
    decreases findings.len(),
{
    if findings.len() == 0 {
        0
    } else {
        let k = findings.len() - 1;
        swallowed(states, findings.drop_last(), lint, file) + if findings[k].lint == lint
            && findings[k].file == file && takes(states[k], lint, file) {
            1nat
        } else {
            0nat
        }
    }
}

/// A run suppresses as many findings of a lint in a file as are accepted, and
/// reports every one beyond them.
pub proof fn lemma_run_suppresses_up_to_the_allowance(
    states: Seq<Baseline>,
    findings: Seq<Found>,
    lint: Lint,
    file: Seq<char>,
)
    requires
        follows(states, findings),
        !states[0].write,
    ensures
        swallowed(states, findings, lint, file) == if came(findings, lint, file)
            < states[0].left(lint, file) {
            came(findings, lint, file)
        } else {
            states[0].left(lint, file)
        },
        states.last().left(lint, file) + swallowed(states, findings, lint, file)
            == states[0].left(lint, file),
        !states.last().write,
    decreases findings.len(),
{
    if findings.len() > 0 {
        let k = findings.len() - 1;
        let f = findings[k];
        assert(follows(states.drop_last(), findings.drop_last())) by {
            assert forall|i: int| 0 <= i < findings.drop_last().len() implies {
                let b = #[trigger] states.drop_last()[i];
                let g = findings.drop_last()[i];
                if takes(b, g.lint, g.file) {
                    taken(b, states.drop_last()[i + 1], g.lint, g.file)
                } else {
                    went_over(b, states.drop_last()[i + 1])
                }
            } by {
                assert(states.drop_last()[i] == states[i]);
                assert(states.drop_last()[i + 1] == states[i + 1]);
            }
        }
        lemma_run_suppresses_up_to_the_allowance(
            states.drop_last(),
            findings.drop_last(),
            lint,
            file,
        );
        lemma_swallowed_prefix(states, states.drop_last(), findings.drop_last(), lint, file);
        assert(states.drop_last().last() == states[k]);
        assert(states.last() == states[k + 1]);
        if lint_name(f.lint) == lint_name(lint) {
            lemma_lint_names_differ(f.lint, lint);
        }
        if takes(states[k], f.lint, f.file) {
            assert(spent(states[k], states[k + 1], f.lint, f.file));
            assert(left_of(states[k + 1].allowance@, lint_name(lint), file) == if lint_name(lint)
                == lint_name(f.lint) && file == f.file {
                (left_of(states[k].allowance@, lint_name(lint), file) - 1) as nat
            } else {
                left_of(states[k].allowance@, lint_name(lint), file)
            });
        } else {
            assert(went_over(states[k], states[k + 1]));
        }
    }
}

proof fn lemma_swallowed_prefix(
    a: Seq<Baseline>,
    b: Seq<Baseline>,
    findings: Seq<Found>,
    lint: Lint,
    file: Seq<char>,
)
    requires
        findings.len() <= a.len(),
        findings.len() <= b.len(),
        forall|i: int| 0 <= i < findings.len() ==> #[trigger] a[i] == b[i],
    ensures
        swallowed(a, findings, lint, file) == swallowed(b, findings, lint, file),
    decreases findings.len(),
{
    if findings.len() > 0 {
        lemma_swallowed_prefix(a, b, findings.drop_last(), lint, file);
        assert(a[findings.len() - 1] == b[findings.len() - 1]);
    }
}

/// In write mode nothing is reported: every finding in a file is taken.
pub proof fn lemma_write_mode_takes_everything(b: Baseline, lint: Lint, file: Seq<char>)
    requires
        b.write,
    ensures
        takes(b, lint, file),
{
}

/// The ratchet file belongs to the nearest directory that has one, or, when it
/// is to be written, that has the configuration; without either there is none.
pub proof fn lemma_nearest_anchor(dirs: Seq<Dir>, write: bool, from: int)
    requires
        0 <= from,
    ensures
        anchor(dirs, write, from) matches Some(i) ==> from <= i < dirs.len() && (dirs[i].has_file
            || (write && dirs[i].has_config)) && forall|j: int|
            from <= j < i ==> !(#[trigger] dirs[j]).has_file && !(write && dirs[j].has_config),
        anchor(dirs, write, from) is None ==> forall|j: int|
            from <= j < dirs.len() ==> !(#[trigger] dirs[j]).has_file && !(write
                && dirs[j].has_config),
    decreases dirs.len() - from,
{
    if from < dirs.len() && !anchors(dirs[from], write) {
        lemma_nearest_anchor(dirs, write, from + 1);
    }
}

/// A binary's section is told apart from its library's, and from that of any
/// other binary of the crate.
pub proof fn lemma_sections_stay_apart(krate: Seq<char>, a: Seq<char>, b: Seq<char>)
    ensures
        section_name(krate, None) == krate,
        section_name(krate, Some(a)) != krate,
        section_name(krate, Some(a)) == section_name(krate, Some(b)) ==> a == b,
        section_name(krate, Some(a)) == krate + " (bin "@ + a + ")"@,
{
    reveal_strlit(" (bin ");
    reveal_strlit(")");
    let x = section_name(krate, Some(a));
    let y = section_name(krate, Some(b));
    assert(x.len() == krate.len() + 7 + a.len());
    assert(y.len() == krate.len() + 7 + b.len());
    let n = krate.len() as int + 6;
    if x == y {
        assert(a =~= x.subrange(n, n + a.len()));
        assert(b =~= y.subrange(n, n + b.len()));
    }
}

/// A count is capped at what fits, never wrapped.
pub proof fn lemma_counts_saturate(n: nat, m: nat)
    ensures
        capped(n) <= u64::MAX,
        n <= u64::MAX ==> capped(n) == n,
        n >= u64::MAX ==> capped(n) == u64::MAX,
        n <= m ==> capped(n) <= capped(m),
{
}

/// A run says that it went over exactly if it did and was not writing.
pub proof fn lemma_over_is_told(b: Baseline, krate: Seq<char>)
    ensures
        over_lines(b, krate) is Some <==> !b.write && b.over > 0,
{
}

} // verus!
