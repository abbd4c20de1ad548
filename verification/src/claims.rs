//! Prose as checkable claims: comment harvesting, backticked-name extraction,
//! and the scopes a name can legitimately live in (the file's code, this
//! crate's definitions, and the definitions of every crate it links).

use crate::defs::{DefKind, Definitions, FieldDef, VariantDef};
use crate::ids::{DefId, Span};
use crate::text::{
    chars_of, join, joined, reads_as, rsplit_once, same, slice_of, split_last, string_of, texts,
    trim_start_char, trimmed_start,
};
use vstd::prelude::*;
use vstd::string::*;

verus! {

// ---------------------------------------------------------------- characters

/// What `char::is_alphabetic` says of a character.
pub uninterp spec fn alphabetic(c: char) -> bool;

/// What `char::is_alphanumeric` says of a character.
pub uninterp spec fn alphanumeric(c: char) -> bool;

/// A letter of ASCII.
pub open spec fn ascii_letter(c: char) -> bool {
    'a' <= c <= 'z' || 'A' <= c <= 'Z'
}

/// The characters with Unicode's `White_Space` property.
pub open spec fn whitespace(c: char) -> bool {
    let n = c as u32;
    ||| 0x9 <= n <= 0xd
    ||| n == 0x20
    ||| n == 0x85
    ||| n == 0xa0
    ||| n == 0x1680
    ||| 0x2000 <= n <= 0x200a
    ||| n == 0x2028
    ||| n == 0x2029
    ||| n == 0x202f
    ||| n == 0x205f
    ||| n == 0x3000
}

/// `char::is_alphabetic` depends on the character alone. Of ASCII it holds of
/// the letters and of nothing else.
pub assume_specification[ char::is_alphabetic ](c: char) -> (r: bool)
    ensures
        r == alphabetic(c),
        (c as u32) < 0x80 ==> r == ascii_letter(c),
;

/// `char::is_alphanumeric` depends on the character alone, and holds of every
/// alphabetic one. Of ASCII it holds of the letters and the digits and of
/// nothing else.
pub assume_specification[ char::is_alphanumeric ](c: char) -> (r: bool)
    ensures
        r == alphanumeric(c),
        alphabetic(c) ==> r,
        (c as u32) < 0x80 ==> r == (ascii_letter(c) || '0' <= c <= '9'),
;

/// `char::is_whitespace` tells Unicode's `White_Space` property, which the
/// characters listed in [`whitespace`] have.
pub assume_specification[ char::is_whitespace ](c: char) -> (r: bool)
    ensures
        r == whitespace(c),
;

/// The character can stand in an identifier.
pub open spec fn word_char(c: char) -> bool {
    alphanumeric(c) || c == '_'
}

fn is_word_char(c: char) -> (r: bool)
    ensures
        r == word_char(c),
{
    c.is_alphanumeric() || c == '_'
}

// ---------------------------------------------------------------- word lists

/// Words a claim does not rest on.
pub open spec fn stop_words() -> Seq<Seq<char>> {
    seq![
        "self"@, "Self"@, "mut"@, "true"@, "false"@, "None"@, "Some"@, "Ok"@, "Err"@, "Vec"@,
        "Box"@, "drop"@, "u8"@, "u16"@, "u32"@, "u64"@, "u128"@, "usize"@, "i8"@, "i16"@, "i32"@,
        "i64"@, "i128"@, "isize"@, "f32"@, "f64"@, "bool"@, "str"@, "String"@, "unsafe"@, "SAFETY"@,
    ]
}

/// A backticked `name.ext` with one of these extensions is a file, not a path
/// expression whose last segment is an identifier.
pub open spec fn file_extensions() -> Seq<Seq<char>> {
    seq![
        "rs"@, "toml"@, "md"@, "txt"@, "json"@, "yaml"@, "yml"@, "lock"@, "c"@, "h"@, "cc"@,
        "cpp"@, "hpp"@, "zig"@, "js"@, "ts"@, "py"@, "go"@,
    ]
}

/// The texts of a list of literals.
pub open spec fn literal_texts(v: Seq<&'static str>) -> Seq<Seq<char>> {
    v.map_values(|s: &'static str| s@)
}

fn ident_stoplist() -> (r: Vec<&'static str>)
    ensures
        literal_texts(r@) == stop_words(),
{
    let words: Vec<&'static str> = vec![
        "self", "Self", "mut", "true", "false", "None", "Some", "Ok", "Err", "Vec", "Box", "drop",
        "u8", "u16", "u32", "u64", "u128", "usize", "i8", "i16", "i32", "i64", "i128", "isize",
        "f32", "f64", "bool", "str", "String", "unsafe", "SAFETY",
    ];
    assert(literal_texts(words@) =~= stop_words());
    words
}

fn known_extensions() -> (r: Vec<&'static str>)
    ensures
        literal_texts(r@) == file_extensions(),
{
    let words: Vec<&'static str> = vec![
        "rs", "toml", "md", "txt", "json", "yaml", "yml", "lock", "c", "h", "cc", "cpp", "hpp",
        "zig", "js", "ts", "py", "go",
    ];
    assert(literal_texts(words@) =~= file_extensions());
    words
}

fn one_of(words: &Vec<&'static str>, s: &str) -> (r: bool)
    ensures
        r == literal_texts(words@).contains(s@),
{
    let ghost all = literal_texts(words@);
    let mut i: usize = 0;
    while i < words.len()
        invariant
            i <= words@.len(),
            all == literal_texts(words@),
            forall|k: int| 0 <= k < i ==> #[trigger] all[k] != s@,
        decreases words.len() - i,
    {
        if same(words[i], s) {
            assert(all[i as int] == s@);
            return true;
        }
        i = i + 1;
    }
    false
}

// ---------------------------------------------------------------- mentions

/// The first position from `k` on of `c`, or the end.
pub open spec fn char_from(s: Seq<char>, c: char, k: int) -> int
    decreases s.len() - k,
{
    if k >= s.len() || s[k] == c {
        k
    } else {
        char_from(s, c, k + 1)
    }
}

/// The position found is never before where the search starts.
pub proof fn lemma_char_from(s: Seq<char>, c: char, k: int)
    ensures
        char_from(s, c, k) >= k,
    decreases s.len() - k,
{
    if !(k >= s.len() || s[k] == c) {
        lemma_char_from(s, c, k + 1);
    }
}

fn find_char(s: &Vec<char>, c: char, from: usize) -> (r: usize)
    requires
        from <= s@.len(),
    ensures
        r == char_from(s@, c, from as int),
        from <= r <= s@.len(),
{
    let mut k: usize = from;
    while k < s.len() && s[k] != c
        invariant
            from <= k <= s@.len(),
            char_from(s@, c, from as int) == char_from(s@, c, k as int),
        decreases s.len() - k,
    {
        k = k + 1;
    }
    k
}

/// What stands between backticks, from position `k` on. An unpaired backtick
/// opens nothing.
pub open spec fn backticked(s: Seq<char>, k: int) -> Seq<Seq<char>>
    decreases s.len() - k,
{
    let a = char_from(s, '`', k);
    let b = char_from(s, '`', a + 1);
    if a >= s.len() || b >= s.len() {
        Seq::empty()
    } else {
        proof {
            lemma_char_from(s, '`', k);
            lemma_char_from(s, '`', a + 1);
        }
        seq![s.subrange(a + 1, b)] + backticked(s, b + 1)
    }
}

/// The token without the `()`s it ends in.
pub open spec fn without_calls(s: Seq<char>) -> Seq<char>
    decreases s.len(),
{
    if s.len() >= 2 && s[s.len() - 2] == '(' && s.last() == ')' {
        without_calls(s.take(s.len() - 2))
    } else {
        s
    }
}

/// What stands behind the last `:` or `.`.
pub open spec fn tail_name(s: Seq<char>) -> Seq<char>
    decreases s.len(),
{
    if s.len() == 0 || s.last() == ':' || s.last() == '.' {
        Seq::empty()
    } else {
        tail_name(s.drop_last()).push(s.last())
    }
}

/// The token names a file.
pub open spec fn names_file(token: Seq<char>) -> bool {
    token.contains('/') || match split_last(token, "."@) {
        Some((_, ext)) => file_extensions().contains(ext),
        None => false,
    }
}

/// The text has the shape of an identifier.
pub open spec fn is_ident(s: Seq<char>) -> bool {
    &&& s.len() > 0
    &&& alphabetic(s[0]) || s[0] == '_'
    &&& forall|i: int| 0 <= i < s.len() ==> word_char(#[trigger] s[i])
}

/// The identifier a token claims, if any.
pub open spec fn claimed_ident(token: Seq<char>) -> Option<Seq<char>> {
    let last = tail_name(without_calls(token));
    if !names_file(token) && is_ident(last) && !stop_words().contains(last) {
        Some(last)
    } else {
        None
    }
}

/// The identifiers the tokens claim, in order.
pub open spec fn idents_of(tokens: Seq<Seq<char>>) -> Seq<Seq<char>>
    decreases tokens.len(),
{
    if tokens.len() == 0 {
        Seq::empty()
    } else {
        let before = idents_of(tokens.drop_last());
        match claimed_ident(tokens.last()) {
            Some(x) => before.push(x),
            None => before,
        }
    }
}

/// Backticked mentions in a text, reduced to their final identifier:
/// `` `self.frames` `` and `` `VM::wake()` `` both yield their last segment,
/// and anything that is not identifier-shaped after that is skipped.
pub open spec fn claimed_idents(text: Seq<char>) -> Seq<Seq<char>> {
    idents_of(backticked(text, 0))
}

fn strip_calls(s: &Vec<char>) -> (r: Vec<char>)
    ensures
        r@ == without_calls(s@),
{
    let mut n: usize = s.len();
    assert(s@.take(n as int) =~= s@);
    while n >= 2 && s[n - 2] == '(' && s[n - 1] == ')'
        invariant
            n <= s@.len(),
            without_calls(s@) == without_calls(s@.take(n as int)),
        decreases n,
    {
        assert(s@.take(n as int).take(n - 2) =~= s@.take(n - 2));
        n = n - 2;
    }
    let r = slice_of(s, 0, n);
    assert(r@ =~= s@.take(n as int));
    r
}

fn name_at_end(s: &Vec<char>) -> (r: Vec<char>)
    ensures
        r@ == tail_name(s@),
{
    let mut n: usize = s.len();
    assert(s@.take(n as int) =~= s@);
    assert(s@.skip(n as int) =~= Seq::<char>::empty());
    assert(tail_name(s@.take(n as int)) + s@.skip(n as int) =~= tail_name(s@));
    while n > 0 && s[n - 1] != ':' && s[n - 1] != '.'
        invariant
            n <= s@.len(),
            tail_name(s@) == tail_name(s@.take(n as int)) + s@.skip(n as int),
        decreases n,
    {
        assert(s@.take(n as int).drop_last() =~= s@.take(n - 1));
        assert(tail_name(s@.take(n - 1)).push(s@[n - 1]) + s@.skip(n as int) =~= tail_name(
            s@.take(n - 1),
        ) + s@.skip(n - 1));
        n = n - 1;
    }
    let r = slice_of(s, n, s.len());
    assert(tail_name(s@.take(n as int)) =~= Seq::<char>::empty());
    assert(r@ =~= tail_name(s@));
    r
}

fn has_char(s: &Vec<char>, c: char) -> (r: bool)
    ensures
        r == s@.contains(c),
{
    let mut i: usize = 0;
    while i < s.len()
        invariant
            i <= s@.len(),
            forall|k: int| 0 <= k < i ==> s@[k] != c,
        decreases s.len() - i,
    {
        if s[i] == c {
            assert(s@[i as int] == c);
            return true;
        }
        i = i + 1;
    }
    false
}

fn ident_shaped(s: &Vec<char>) -> (r: bool)
    ensures
        r == is_ident(s@),
{
    if s.len() == 0 || !(s[0].is_alphabetic() || s[0] == '_') {
        return false;
    }
    let mut i: usize = 0;
    while i < s.len()
        invariant
            i <= s@.len(),
            forall|k: int| 0 <= k < i ==> word_char(#[trigger] s@[k]),
        decreases s.len() - i,
    {
        if !is_word_char(s[i]) {
            assert(!word_char(s@[i as int]));
            return false;
        }
        i = i + 1;
    }
    true
}

fn ident_claimed(token: &Vec<char>) -> (r: Option<String>)
    ensures
        match r {
            Some(x) => claimed_ident(token@) == Some(x@),
            None => claimed_ident(token@) is None,
        },
{
    if has_char(token, '/') {
        return None;
    }
    let whole = string_of(token);
    match rsplit_once(whole.as_str(), ".") {
        Some((_, ext)) => {
            if one_of(&known_extensions(), ext.as_str()) {
                return None;
            }
        },
        None => {},
    }
    let last = name_at_end(&strip_calls(token));
    if !ident_shaped(&last) {
        return None;
    }
    let name = string_of(&last);
    if one_of(&ident_stoplist(), name.as_str()) {
        None
    } else {
        Some(name)
    }
}

/// Backticked mentions in a text, reduced to their final identifier.
pub fn backticked_idents(text: &str) -> (r: Vec<String>)
    ensures
        texts(r@) == claimed_idents(text@),
{
    let s = chars_of(text);
    let mut out: Vec<String> = Vec::new();
    let mut k: usize = 0;
    let ghost mut seen: Seq<Seq<char>> = Seq::empty();
    assert(texts(out@) =~= idents_of(seen));
    assert(seen + backticked(s@, 0) =~= backticked(s@, 0));
    loop
        invariant
            k <= s@.len(),
            s@ == text@,
            seen + backticked(s@, k as int) == backticked(s@, 0),
            texts(out@) == idents_of(seen),
        decreases s.len() - k,
    {
        let a: usize = find_char(&s, '`', k);
        if a >= s.len() {
            assert(seen + Seq::<Seq<char>>::empty() =~= seen);
            return out;
        }
        let b: usize = find_char(&s, '`', a + 1);
        if b >= s.len() {
            assert(seen + Seq::<Seq<char>>::empty() =~= seen);
            return out;
        }
        let token = slice_of(&s, a + 1, b);
        let ghost before = out@;
        proof {
            assert(seen.push(token@).drop_last() =~= seen);
            assert(seen + (seq![token@] + backticked(s@, b + 1)) =~= seen.push(token@)
                + backticked(s@, b + 1));
            seen = seen.push(token@);
        }
        match ident_claimed(&token) {
            Some(x) => {
                out.push(x);
                assert(texts(out@) =~= texts(before).push(x@));
            },
            None => {},
        }
        k = b + 1;
    }
}

// ---------------------------------------------------------------- words

/// The characters from `a` to `b` are a word with no word on either side.
pub open spec fn whole_word(s: Seq<char>, a: int, b: int) -> bool {
    &&& 0 <= a <= b <= s.len()
    &&& forall|i: int| a <= i < b ==> word_char(#[trigger] s[i])
    &&& a == 0 || !word_char(s[a - 1])
    &&& b == s.len() || !word_char(s[b])
}

/// The identifier stands in the text as a word of its own.
pub open spec fn has_word(s: Seq<char>, ident: Seq<char>) -> bool {
    exists|a: int, b: int| #[trigger] whole_word(s, a, b) && s.subrange(a, b) == ident
}

/// Whether the identifier stands in the text as a word of its own.
pub fn word_in(haystack: &str, ident: &str) -> (r: bool)
    ensures
        r == has_word(haystack@, ident@),
{
    let s = chars_of(haystack);
    let mut a: usize = 0;
    loop
        invariant
            a <= s@.len(),
            s@ == haystack@,
            a == 0 || !word_char(s@[a - 1]),
            forall|x: int, y: int| #[trigger]
                whole_word(s@, x, y) && x < a ==> s@.subrange(x, y) != ident@,
        decreases s.len() - a,
    {
        let mut b: usize = a;
        while b < s.len() && is_word_char(s[b])
            invariant
                a <= b <= s@.len(),
                forall|i: int| a <= i < b ==> word_char(#[trigger] s@[i]),
            decreases s.len() - b,
        {
            b = b + 1;
        }
        assert(whole_word(s@, a as int, b as int));
        let word = slice_of(&s, a, b);
        if reads_as(&word, ident) {
            return true;
        }
        proof {
            assert forall|x: int, y: int| #[trigger]
                whole_word(s@, x, y) && x <= b implies s@.subrange(x, y) != ident@ by {
                if x == a {
                    if y < b {
                        assert(word_char(s@[y]));
                    }
                    if y > b {
                        assert(word_char(s@[b as int]));
                    }
                } else if x > a {
                    assert(word_char(s@[x - 1]));
                }
            }
        }
        if b >= s.len() {
            assert forall|x: int, y: int| #[trigger] whole_word(s@, x, y) implies s@.subrange(
                x,
                y,
            ) != ident@ by {}
            return false;
        }
        a = b + 1;
    }
}

// ---------------------------------------------------------------- comments

/// One line of a source file, and where it stands.
#[derive(Debug)]
pub struct SourceLine {
    pub text: String,
    pub lo: u32,
    pub hi: u32,
}

/// A source file by lines; none where the source is not at hand.
#[derive(Debug)]
pub struct SourceFile {
    pub lines: Vec<SourceLine>,
}

/// The text without the whitespace it starts with.
pub open spec fn without_indent(s: Seq<char>) -> Seq<char>
    decreases s.len(),
{
    if s.len() > 0 && whitespace(s[0]) {
        without_indent(s.drop_first())
    } else {
        s
    }
}

fn strip_indent(s: &Vec<char>) -> (r: Vec<char>)
    ensures
        r@ == without_indent(s@),
{
    let mut i: usize = 0;
    assert(s@.skip(0) =~= s@);
    while i < s.len() && s[i].is_whitespace()
        invariant
            i <= s@.len(),
            without_indent(s@) == without_indent(s@.skip(i as int)),
        decreases s.len() - i,
    {
        assert(s@.skip(i as int).drop_first() =~= s@.skip(i + 1));
        i = i + 1;
    }
    let r = slice_of(s, i, s.len());
    assert(r@ =~= s@.skip(i as int));
    r
}

/// What a comment line says; none for a line that is not all comment.
pub open spec fn comment_text(line: Seq<char>) -> Option<Seq<char>> {
    let t = without_indent(line);
    if t.len() >= 2 && t[0] == '/' && t[1] == '/' {
        Some(trimmed_start(t, '/'))
    } else {
        None
    }
}

fn comment_of(line: &str) -> (r: Option<String>)
    ensures
        match r {
            Some(t) => comment_text(line@) == Some(t@),
            None => comment_text(line@) is None,
        },
{
    let t = strip_indent(&chars_of(line));
    if t.len() >= 2 && t[0] == '/' && t[1] == '/' {
        Some(string_of(&trim_start_char(&t, '/')))
    } else {
        None
    }
}

/// Where the run of comment lines that ends above line `i` starts.
pub open spec fn run_top(lines: Seq<SourceLine>, i: int) -> int
    decreases i,
{
    if i <= 0 || comment_text(lines[i - 1].text@) is None {
        i
    } else {
        run_top(lines, i - 1)
    }
}

/// What the comment lines from `from` to `to` say, line by line.
pub open spec fn run_texts(lines: Seq<SourceLine>, from: int, to: int) -> Seq<Seq<char>> {
    Seq::new(
        (to - from) as nat,
        |k: int|
            match comment_text(lines[from + k].text@) {
                Some(t) => t,
                None => Seq::empty(),
            },
    )
}

/// The run of `//` lines directly above line `first`, joined, and the span of
/// those lines.
pub open spec fn comment_run(f: SourceFile, first: int) -> Option<(Seq<char>, Span)> {
    let top = run_top(f.lines@, first);
    if first > f.lines@.len() || top >= first {
        None
    } else {
        Some(
            (
                joined(run_texts(f.lines@, top, first), "\n"@),
                Span { lo: f.lines@[top].lo, hi: f.lines@[first - 1].hi },
            ),
        )
    }
}

/// The contiguous run of `//` comment lines directly above line `first`,
/// joined, with the span covering those lines.
pub fn comment_above(f: &SourceFile, first: usize) -> (r: Option<(String, Span)>)
    ensures
        match r {
            Some((t, s)) => comment_run(*f, first as int) == Some((t@, s)),
            None => comment_run(*f, first as int) is None,
        },
{
    let lines = &f.lines;
    if first > lines.len() {
        return None;
    }
    let mut top: usize = first;
    while top > 0 && comment_of(lines[top - 1].text.as_str()).is_some()
        invariant
            top <= first <= lines@.len(),
            run_top(lines@, first as int) == run_top(lines@, top as int),
        decreases top,
    {
        top = top - 1;
    }
    if top >= first {
        return None;
    }
    assert(top == run_top(lines@, first as int));
    let mut parts: Vec<String> = Vec::new();
    let mut i: usize = top;
    assert(texts(parts@) =~= run_texts(lines@, top as int, top as int));
    while i < first
        invariant
            top <= i <= first <= lines@.len(),
            texts(parts@) == run_texts(lines@, top as int, i as int),
        decreases first - i,
    {
        let ghost before = parts@;
        let part = match comment_of(lines[i].text.as_str()) {
            Some(t) => t,
            None => String::new(),
        };
        parts.push(part);
        assert(texts(parts@) =~= texts(before).push(part@));
        assert(run_texts(lines@, top as int, i + 1) =~= run_texts(
            lines@,
            top as int,
            i as int,
        ).push(part@));
        i = i + 1;
    }
    Some((join(&parts, "\n"), Span { lo: lines[top].lo, hi: lines[first - 1].hi }))
}

/// What stands before the first `//`.
pub open spec fn code_part(s: Seq<char>) -> Seq<char>
    decreases s.len(),
{
    if s.len() == 0 || (s.len() >= 2 && s[0] == '/' && s[1] == '/') {
        Seq::empty()
    } else {
        seq![s[0]] + code_part(s.drop_first())
    }
}

fn code_before(s: &Vec<char>) -> (r: Vec<char>)
    ensures
        r@ == code_part(s@),
{
    let mut i: usize = 0;
    assert(s@.skip(0) =~= s@);
    assert(s@.take(0) + code_part(s@) =~= code_part(s@));
    while i < s.len() && !(s.len() - i >= 2 && s[i] == '/' && s[i + 1] == '/')
        invariant
            i <= s@.len(),
            code_part(s@) == s@.take(i as int) + code_part(s@.skip(i as int)),
        decreases s.len() - i,
    {
        assert(s@.skip(i as int).drop_first() =~= s@.skip(i + 1));
        assert(s@.take(i as int) + (seq![s@[i as int]] + code_part(s@.skip(i + 1)))
            =~= s@.take(i + 1) + code_part(s@.skip(i + 1)));
        i = i + 1;
    }
    let r = slice_of(s, 0, i);
    assert(r@ =~= code_part(s@));
    r
}

/// The lines of a file with every `//` comment stripped.
pub open spec fn code_lines(lines: Seq<SourceLine>) -> Seq<Seq<char>> {
    lines.map_values(|l: SourceLine| code_part(l.text@))
}

/// The file with every `//` comment stripped, so a comment can never vouch
/// for its own claims.
pub open spec fn code_of(f: SourceFile) -> Seq<char> {
    joined(code_lines(f.lines@), "\n"@)
}

/// The file with every `//` comment stripped.
pub fn file_code_only(f: &SourceFile) -> (r: String)
    ensures
        r@ == code_of(*f),
{
    let mut parts: Vec<String> = Vec::new();
    let mut i: usize = 0;
    assert(texts(parts@) =~= code_lines(f.lines@.take(0)));
    while i < f.lines.len()
        invariant
            i <= f.lines@.len(),
            texts(parts@) == code_lines(f.lines@.take(i as int)),
        decreases f.lines.len() - i,
    {
        let ghost before = parts@;
        let part = string_of(&code_before(&chars_of(f.lines[i].text.as_str())));
        parts.push(part);
        assert(texts(parts@) =~= texts(before).push(part@));
        assert(code_lines(f.lines@.take(i + 1)) =~= code_lines(f.lines@.take(i as int)).push(
            part@,
        ));
        i = i + 1;
    }
    assert(f.lines@.take(i as int) =~= f.lines@);
    join(&parts, "\n")
}

// ---------------------------------------------------------------- definitions

/// A name and the definition it belongs to; none where that is not one
/// definition.
pub struct NameEntry {
    pub name: Seq<char>,
    pub def: Option<DefId>,
}

/// The names a struct, enum or union brings with it: those of its variants
/// and of their fields.
pub open spec fn member_names(defs: Definitions, id: DefId) -> Seq<NameEntry> {
    match defs.adt(id) {
        Some(a) => variant_names(defs, a.variants@),
        None => Seq::empty(),
    }
}

pub open spec fn variant_names(
    defs: Definitions,
    variants: Seq<VariantDef>,
) -> Seq<NameEntry>
    decreases variants.len(),
{
    if variants.len() == 0 {
        Seq::empty()
    } else {
        let v = variants.last();
        variant_names(defs, variants.drop_last()) + (seq![
            NameEntry { name: defs.text(v.name), def: None },
        ] + v.fields@.map_values(
            |f: FieldDef| NameEntry { name: defs.text(f.name), def: None },
        ))
    }
}

/// The definition is a struct, an enum or a union.
pub open spec fn holds_members(defs: Definitions, id: DefId) -> bool {
    defs.kind(id) == DefKind::Struct || defs.kind(id) == DefKind::Enum || defs.kind(id)
        == DefKind::Union
}

/// The names one definition of the crate brings with it, its own first.
pub open spec fn names_of(defs: Definitions, id: DefId) -> Seq<NameEntry> {
    (if defs.name_text(id).len() > 0 {
        seq![NameEntry { name: defs.name_text(id), def: Some(id) }]
    } else {
        Seq::empty()
    }) + (if holds_members(defs, id) {
        member_names(defs, id)
    } else {
        Seq::empty()
    })
}

/// The names the definitions bring with them, in order.
pub open spec fn all_names(defs: Definitions, items: Seq<DefId>) -> Seq<NameEntry>
    decreases items.len(),
{
    if items.len() == 0 {
        Seq::empty()
    } else {
        all_names(defs, items.drop_last()) + names_of(defs, items.last())
    }
}

/// Where the name stands in the index, or -1.
pub open spec fn entry_at(index: Seq<NameEntry>, name: Seq<char>) -> int
    decreases index.len(),
{
    if index.len() == 0 {
        -1
    } else if index.last().name == name {
        index.len() - 1
    } else {
        entry_at(index.drop_last(), name)
    }
}

/// The index once a name has been met: a name met before belongs to no one
/// definition.
pub open spec fn indexed(index: Seq<NameEntry>, e: NameEntry) -> Seq<NameEntry> {
    let i = entry_at(index, e.name);
    if i < 0 {
        index.push(e)
    } else {
        index.update(i, NameEntry { name: e.name, def: None })
    }
}

/// The index of the names met, in order.
pub open spec fn index_of(met: Seq<NameEntry>) -> Seq<NameEntry>
    decreases met.len(),
{
    if met.len() == 0 {
        Seq::empty()
    } else {
        indexed(index_of(met.drop_last()), met.last())
    }
}

proof fn lemma_entry_at(index: Seq<NameEntry>, name: Seq<char>)
    ensures
        -1 <= entry_at(index, name) < index.len(),
        entry_at(index, name) >= 0 ==> index[entry_at(index, name)].name == name,
        entry_at(index, name) < 0 ==> forall|i: int|
            0 <= i < index.len() ==> (#[trigger] index[i]).name != name,
    decreases index.len(),
{
    if index.len() > 0 && index.last().name != name {
        lemma_entry_at(index.drop_last(), name);
        assert forall|i: int| entry_at(index, name) < 0 && 0 <= i < index.len() implies (
        #[trigger] index[i]).name != name by {
            if i < index.len() - 1 {
                assert(index.drop_last()[i] == index[i]);
            }
        }
    }
}

/// How often the name was met.
pub open spec fn times_met(met: Seq<NameEntry>, name: Seq<char>) -> nat
    decreases met.len(),
{
    if met.len() == 0 {
        0
    } else {
        times_met(met.drop_last(), name) + if met.last().name == name {
            1nat
        } else {
            0nat
        }
    }
}

/// The index has one entry for each name that was met and none for any other,
/// and an entry for a name met more than once gives no definition.
pub proof fn lemma_index_is_unambiguous(met: Seq<NameEntry>, name: Seq<char>)
    ensures
        (times_met(met, name) == 0) == (entry_at(index_of(met), name) < 0),
        times_met(met, name) > 1 ==> index_of(met)[entry_at(index_of(met), name)].def is None,
        times_met(met, name) == 1 ==> exists|i: int|
            0 <= i < met.len() && (#[trigger] met[i]).name == name && index_of(met)[entry_at(
                index_of(met),
                name,
            )].def == met[i].def,
        forall|i: int, j: int|
            0 <= i < j < index_of(met).len() ==> (#[trigger] index_of(met)[i]).name != (
            #[trigger] index_of(met)[j]).name,
    decreases met.len(),
{
    if met.len() > 0 {
        let old_met = met.drop_last();
        let old_index = index_of(old_met);
        let e = met.last();
        let new_index = index_of(met);
        lemma_index_is_unambiguous(old_met, name);
        lemma_entry_at(old_index, e.name);
        lemma_entry_at(old_index, name);
        lemma_entry_at(new_index, name);
        let k = entry_at(old_index, e.name);
        if k < 0 {
            assert(new_index.drop_last() =~= old_index);
            assert(new_index[old_index.len() as int] == e);
        } else {
            assert(new_index.len() == old_index.len());
            assert(new_index[k].name == old_index[k].name);
            assert forall|i: int| 0 <= i < old_index.len() implies (#[trigger] new_index[i]).name
                == old_index[i].name by {}
        }
        if times_met(met, name) == 1 {
            if e.name == name {
                assert(met[met.len() - 1].name == name);
            } else {
                let i = choose|i: int|
                    0 <= i < old_met.len() && (#[trigger] old_met[i]).name == name
                        && old_index[entry_at(old_index, name)].def == old_met[i].def;
                assert(met[i] == old_met[i]);
                assert(new_index[entry_at(old_index, name)].def == old_met[i].def);
            }
        }
    }
}

/// The definition names a claim may point at beyond its own file: everything
/// this crate defines, each name with the one definition it belongs to.
#[derive(Debug)]
pub struct DefNames {
    pub names: Vec<String>,
    pub owners: Vec<Option<DefId>>,
}

impl View for DefNames {
    type V = Seq<NameEntry>;

    open spec fn view(&self) -> Seq<NameEntry> {
        Seq::new(
            self.names@.len(),
            |i: int| NameEntry { name: self.names@[i]@, def: self.owners@[i] },
        )
    }
}

/// One slot of a linked crate's definition table: the hash of the definition's
/// path, and its name if it has one. A slot nothing was encoded in has the
/// hash zero.
#[derive(Debug)]
pub struct LinkedDef {
    pub path_hash: u64,
    pub name: Option<String>,
}

/// A linked crate defines the name.
pub open spec fn defines(d: LinkedDef, name: Seq<char>) -> bool {
    d.path_hash != 0 && (d.name matches Some(n) && n@ == name)
}

/// Some linked crate defines the name.
pub open spec fn linked(upstream: Seq<LinkedDef>, name: Seq<char>) -> bool {
    exists|i: int| 0 <= i < upstream.len() && defines(#[trigger] upstream[i], name)
}

/// Whether some linked crate defines the name.
pub fn upstream_has(upstream: &Vec<LinkedDef>, name: &str) -> (r: bool)
    ensures
        r == linked(upstream@, name@),
{
    let mut i: usize = 0;
    while i < upstream.len()
        invariant
            i <= upstream@.len(),
            forall|k: int| 0 <= k < i ==> !defines(#[trigger] upstream@[k], name@),
        decreases upstream.len() - i,
    {
        let here = upstream[i].path_hash != 0 && match &upstream[i].name {
            Some(n) => same(n.as_str(), name),
            None => false,
        };
        if here {
            assert(defines(upstream@[i as int], name@));
            return true;
        }
        i = i + 1;
    }
    false
}

impl DefNames {
    /// Each name has its owner.
    pub open spec fn valid(self) -> bool {
        self.names@.len() == self.owners@.len()
    }

    fn slot(&self, name: &str) -> (r: Option<usize>)
        ensures
            match r {
                Some(i) => i == entry_at(self@, name@) && i < self.names@.len(),
                None => entry_at(self@, name@) < 0,
            },
    {
        let ghost v = self@;
        let mut n: usize = self.names.len();
        assert(v.take(n as int) =~= v);
        while n > 0
            invariant
                n <= self.names@.len(),
                v == self@,
                entry_at(v, name@) == entry_at(v.take(n as int), name@),
            decreases n,
        {
            assert(v.take(n as int).drop_last() =~= v.take(n - 1));
            assert(v.take(n as int).last() == v[n - 1]);
            if same(self.names[n - 1].as_str(), name) {
                return Some(n - 1);
            }
            n = n - 1;
        }
        None
    }

    fn meet(&mut self, name: &str, def: Option<DefId>)
        requires
            old(self).valid(),
        ensures
            final(self).valid(),
            final(self)@ == indexed(old(self)@, (NameEntry { name: name@, def })),
    {
        let ghost before = self@;
        proof {
            lemma_entry_at(before, name@);
        }
        match self.slot(name) {
            Some(i) => {
                self.owners.set(i, None);
                assert(self@ =~= before.update(i as int, NameEntry { name: name@, def: None }));
            },
            None => {
                self.names.push(String::from_str(name));
                self.owners.push(def);
                assert(self@ =~= before.push(NameEntry { name: name@, def }));
            },
        }
    }

    fn meet_members(&mut self, defs: &Definitions, id: DefId, Ghost(met): Ghost<Seq<NameEntry>>)
        requires
            old(self).valid(),
            old(self)@ == index_of(met),
        ensures
            final(self).valid(),
            final(self)@ == index_of(met + member_names(*defs, id)),
    {
        let a = match defs.adt_of(id) {
            Some(a) => a,
            None => {
                assert(met + Seq::<NameEntry>::empty() =~= met);
                return ;
            },
        };
        let mut i: usize = 0;
        assert(met + variant_names(*defs, a.variants@.take(0)) =~= met);
        while i < a.variants.len()
            invariant
                i <= a.variants@.len(),
                self.valid(),
                self@ == index_of(met + variant_names(*defs, a.variants@.take(i as int))),
            decreases a.variants.len() - i,
        {
            let v = &a.variants[i];
            let ghost base = met + variant_names(*defs, a.variants@.take(i as int));
            let ghost own = NameEntry { name: defs.text(v.name), def: None };
            let ghost fields = v.fields@.map_values(
                |f: FieldDef| NameEntry { name: defs.text(f.name), def: None },
            );
            self.meet(defs.text_of(v.name), None);
            assert(base.push(own).drop_last() =~= base);
            let mut k: usize = 0;
            assert(base.push(own) + fields.take(0) =~= base.push(own));
            while k < v.fields.len()
                invariant
                    k <= v.fields@.len(),
                    self.valid(),
                    fields == v.fields@.map_values(
                        |f: FieldDef| NameEntry { name: defs.text(f.name), def: None },
                    ),
                    self@ == index_of(base.push(own) + fields.take(k as int)),
                decreases v.fields.len() - k,
            {
                let ghost so_far = base.push(own) + fields.take(k as int);
                self.meet(defs.text_of(v.fields[k].name), None);
                proof {
                    let next = base.push(own) + fields.take(k + 1);
                    assert(next =~= so_far.push(fields[k as int]));
                    assert(next.drop_last() =~= so_far);
                }
                k = k + 1;
            }
            proof {
                assert(fields.take(k as int) =~= fields);
                assert(a.variants@.take(i + 1).drop_last() =~= a.variants@.take(i as int));
                assert(met + variant_names(*defs, a.variants@.take(i + 1)) =~= base.push(own)
                    + fields);
            }
            i = i + 1;
        }
        assert(a.variants@.take(i as int) =~= a.variants@);
    }

    /// The names of the crate's definitions: a name several of them share has
    /// no owner, so nobody takes one of them for the other.
    pub fn collect(defs: &Definitions, items: &Vec<DefId>) -> (r: Self)
        ensures
            r.valid(),
            r@ == index_of(all_names(*defs, items@)),
    {
        let mut out = DefNames { names: Vec::new(), owners: Vec::new() };
        let mut i: usize = 0;
        assert(out@ =~= Seq::<NameEntry>::empty());
        while i < items.len()
            invariant
                i <= items@.len(),
                out.valid(),
                out@ == index_of(all_names(*defs, items@.take(i as int))),
            decreases items.len() - i,
        {
            let id = items[i];
            let ghost base = all_names(*defs, items@.take(i as int));
            let ghost own = NameEntry { name: defs.name_text(id), def: Some(id) };
            let ghost mut met = base;
            let name = defs.name_of(id);
            if chars_of(name).len() > 0 {
                out.meet(name, Some(id));
                proof {
                    met = base.push(own);
                    assert(met.drop_last() =~= base);
                }
            }
            match defs.kind_of(id) {
                DefKind::Struct | DefKind::Enum | DefKind::Union => {
                    out.meet_members(defs, id, Ghost(met));
                    proof {
                        met = met + member_names(*defs, id);
                    }
                },
                _ => {},
            }
            proof {
                assert(items@.take(i + 1).drop_last() =~= items@.take(i as int));
                assert(met =~= all_names(*defs, items@.take(i + 1)));
            }
            i = i + 1;
        }
        assert(items@.take(i as int) =~= items@);
        out
    }

    /// Whether this crate or one it links defines the name.
    pub fn contains(&self, upstream: &Vec<LinkedDef>, name: &str) -> (r: bool)
        ensures
            r == (entry_at(self@, name@) >= 0 || linked(upstream@, name@)),
    {
        self.slot(name).is_some() || upstream_has(upstream, name)
    }
}

/// A file without a word of its own outside comments vouches for nothing: a
/// comment line contributes no code.
pub proof fn lemma_comment_is_no_code(line: Seq<char>)
    requires
        line.len() >= 2,
        line[0] == '/',
        line[1] == '/',
    ensures
        code_part(line).len() == 0,
{
}

proof fn lemma_char_from_is(s: Seq<char>, c: char, from: int, p: int)
    requires
        0 <= from <= p < s.len(),
        s[p] == c,
        forall|i: int| from <= i < p ==> s[i] != c,
    ensures
        char_from(s, c, from) == p,
    decreases p - from,
{
    if from < p {
        assert(s[from] != c);
        lemma_char_from_is(s, c, from + 1, p);
    }
}

proof fn lemma_no_char_from(s: Seq<char>, c: char, from: int)
    requires
        0 <= from <= s.len(),
        forall|i: int| from <= i < s.len() ==> s[i] != c,
    ensures
        char_from(s, c, from) == s.len(),
    decreases s.len() - from,
{
    if from < s.len() {
        assert(s[from] != c);
        lemma_no_char_from(s, c, from + 1);
    }
}

/// What stands between two backticks is a token, and the search goes on behind
/// the second; an open backtick holds nothing.
pub proof fn lemma_tokens_stand_between_backticks(s: Seq<char>, k: int, p: int, q: int)
    requires
        0 <= k <= p < q <= s.len(),
        s[p] == '`',
        forall|i: int| k <= i < p ==> s[i] != '`',
        forall|i: int| p < i < q ==> s[i] != '`',
        q < s.len() ==> s[q] == '`',
    ensures
        q < s.len() ==> backticked(s, k) == seq![s.subrange(p + 1, q)] + backticked(s, q + 1),
        q == s.len() ==> backticked(s, k).len() == 0,
        backticked(s, s.len() as int).len() == 0,
{
    lemma_char_from_is(s, '`', k, p);
    if q < s.len() {
        lemma_char_from_is(s, '`', p + 1, q);
    } else {
        lemma_no_char_from(s, '`', p + 1);
    }
}

/// Empty call brackets behind a name are taken off, and so is the path in
/// front of it.
pub proof fn lemma_name_is_the_end_of_the_path(head: Seq<char>, name: Seq<char>)
    requires
        !name.contains(':'),
        !name.contains('.'),
    ensures
        tail_name(name) == name,
        tail_name(head + seq![':'] + name) == name,
        tail_name(head + seq!['.'] + name) == name,
        without_calls(head + seq!['(', ')']) == without_calls(head),
        head.len() > 0 && head.last() != ')' ==> without_calls(head) == head,
    decreases name.len(),
{
    let s = head + seq!['(', ')'];
    assert(s.take(s.len() - 2) =~= head);
    if name.len() == 0 {
        assert(name =~= Seq::empty());
    } else {
        let front = name.drop_last();
        let c = name.last();
        assert(name[name.len() - 1] == c);
        assert(c != ':' && c != '.') by {
            assert(name.contains(c));
        }
        assert forall|i: int| 0 <= i < front.len() implies front[i] != ':' && front[i] != '.' by {
            assert(name[i] == front[i]);
            assert(name.contains(front[i]));
        }
        lemma_name_is_the_end_of_the_path(head, front);
        assert(front.push(c) =~= name);
        assert((head + seq![':'] + name).drop_last() =~= head + seq![':'] + front);
        assert((head + seq!['.'] + name).drop_last() =~= head + seq!['.'] + front);
    }
}

/// A token with a slash, or with the ending of a source or text file, names a
/// file and claims nothing.
pub proof fn lemma_files_are_no_claims(head: Seq<char>, ext: Seq<char>, token: Seq<char>)
    requires
        !ext.contains('.'),
    ensures
        token.contains('/') ==> claimed_ident(token) is None,
        ext == "rs"@ || ext == "toml"@ || ext == "md"@ || ext == "txt"@ || ext == "json"@ || ext
            == "yaml"@ || ext == "yml"@ || ext == "lock"@ || ext == "c"@ || ext == "h"@ || ext
            == "cc"@ || ext == "cpp"@ || ext == "hpp"@ || ext == "zig"@ || ext == "js"@ || ext
            == "ts"@ || ext == "py"@ || ext == "go"@ ==> claimed_ident(head + seq!['.'] + ext)
            is None,
{
    reveal_strlit(".");
    assert("."@ =~= seq!['.']);
    crate::text::lemma_split_last_char(head, '.', ext);
    let v = file_extensions();
    assert(v[0] == "rs"@ && v[1] == "toml"@ && v[2] == "md"@ && v[3] == "txt"@);
    assert(v[4] == "json"@ && v[5] == "yaml"@ && v[6] == "yml"@ && v[7] == "lock"@);
    assert(v[8] == "c"@ && v[9] == "h"@ && v[10] == "cc"@ && v[11] == "cpp"@);
    assert(v[12] == "hpp"@ && v[13] == "zig"@ && v[14] == "js"@ && v[15] == "ts"@);
    assert(v[16] == "py"@ && v[17] == "go"@);
}

/// Keywords, the prelude's names and the primitive types are nobody's guard.
pub proof fn lemma_common_words_are_no_claims(token: Seq<char>)
    ensures
        ({
            let w = tail_name(without_calls(token));
            w == "self"@ || w == "Self"@ || w == "mut"@ || w == "true"@ || w == "false"@ || w
                == "None"@ || w == "Some"@ || w == "Ok"@ || w == "Err"@ || w == "Vec"@ || w
                == "Box"@ || w == "drop"@ || w == "u8"@ || w == "u16"@ || w == "u32"@ || w
                == "u64"@ || w == "u128"@ || w == "usize"@ || w == "i8"@ || w == "i16"@ || w
                == "i32"@ || w == "i64"@ || w == "i128"@ || w == "isize"@ || w == "f32"@ || w
                == "f64"@ || w == "bool"@ || w == "str"@ || w == "String"@ || w == "unsafe"@ || w
                == "SAFETY"@
        }) ==> claimed_ident(token) is None,
{
    let v = stop_words();
    assert(v[0] == "self"@ && v[1] == "Self"@ && v[2] == "mut"@ && v[3] == "true"@);
    assert(v[4] == "false"@ && v[5] == "None"@ && v[6] == "Some"@ && v[7] == "Ok"@);
    assert(v[8] == "Err"@ && v[9] == "Vec"@ && v[10] == "Box"@ && v[11] == "drop"@);
    assert(v[12] == "u8"@ && v[13] == "u16"@ && v[14] == "u32"@ && v[15] == "u64"@);
    assert(v[16] == "u128"@ && v[17] == "usize"@ && v[18] == "i8"@ && v[19] == "i16"@);
    assert(v[20] == "i32"@ && v[21] == "i64"@ && v[22] == "i128"@ && v[23] == "isize"@);
    assert(v[24] == "f32"@ && v[25] == "f64"@ && v[26] == "bool"@ && v[27] == "str"@);
    assert(v[28] == "String"@ && v[29] == "unsafe"@ && v[30] == "SAFETY"@);
}

/// A word that is in none of these lists is claimed, by itself or at the end
/// of a path.
pub proof fn lemma_identifier_is_claimed(head: Seq<char>, name: Seq<char>)
    requires
        is_ident(name),
        !name.contains(':') && !name.contains('.') && !name.contains('/') && !name.contains(')'),
        !head.contains('.') && !head.contains('/'),
        !stop_words().contains(name),
    ensures
        claimed_ident(name) == Some(name),
        claimed_ident(head + seq![':', ':'] + name) == Some(name),
        claimed_ident(name + seq!['(', ')']) == Some(name),
{
    lemma_name_is_the_end_of_the_path(head + seq![':'], name);
    lemma_name_is_the_end_of_the_path(name, name);
    let path = head + seq![':', ':'] + name;
    assert(head + seq![':'] + seq![':'] + name =~= path);
    assert(name[name.len() - 1] == name.last());
    assert(name.last() != ')') by {
        assert(name.contains(name.last()));
    }
    assert(path.last() == name.last());
    let call = name + seq!['(', ')'];
    assert(without_calls(name) == name);
    assert(without_calls(path) == path);
    assert(without_calls(call) == name);
    reveal_strlit(".");
    assert("."@ =~= seq!['.']);
    lemma_no_dot(name);
    assert forall|i: int| 0 <= i < path.len() implies path[i] != '.' && path[i] != '/' by {
        if i < head.len() {
            assert(head.contains(path[i]));
        } else if i >= head.len() + 2 {
            assert(name[i - head.len() - 2] == path[i]);
            assert(name.contains(path[i]));
        }
    }
    assert forall|i: int| 0 <= i < call.len() implies call[i] != '.' && call[i] != '/' by {
        if i < name.len() {
            assert(name.contains(call[i]));
        }
    }
    lemma_no_dot(path);
    lemma_no_dot(call);
}

proof fn lemma_no_dot(s: Seq<char>)
    requires
        !s.contains('.'),
    ensures
        split_last(s, "."@) is None,
{
    reveal_strlit(".");
    crate::text::lemma_last_at(s, "."@);
    let i = crate::text::last_at(s, "."@);
    if i >= 0 {
        assert(s.subrange(i, i + 1)[0] == s[i]);
    }
}

/// A word between what is no part of a word is there as a whole; one that is
/// only a part of another word is not.
pub proof fn lemma_word_between_others(head: Seq<char>, word: Seq<char>, tail: Seq<char>)
    requires
        forall|i: int| 0 <= i < word.len() ==> word_char(#[trigger] word[i]),
        head.len() == 0 || !word_char(head.last()),
        tail.len() == 0 || !word_char(tail[0]),
    ensures
        has_word(head + word + tail, word),
{
    let s = head + word + tail;
    let a = head.len() as int;
    let b = a + word.len();
    assert(s.subrange(a, b) =~= word);
    assert forall|i: int| a <= i < b implies word_char(#[trigger] s[i]) by {
        assert(s[i] == word[i - a]);
    }
    if head.len() > 0 {
        assert(s[a - 1] == head.last());
    }
    if tail.len() > 0 {
        assert(s[b] == tail[0]);
    }
    assert(whole_word(s, a, b));
}

/// A text without the word in it anywhere does not have it.
pub proof fn lemma_absent_word(s: Seq<char>, word: Seq<char>)
    requires
        !crate::text::occurs_in(s, word),
    ensures
        !has_word(s, word),
{
    if has_word(s, word) {
        let (a, b) = choose|a: int, b: int| #[trigger]
            whole_word(s, a, b) && s.subrange(a, b) == word;
        assert(crate::text::occurs_at(s, word, a));
    }
}

/// A line is a comment if two slashes come first behind its indent.
pub proof fn lemma_comment_lines(indent: Seq<char>, rest: Seq<char>)
    requires
        forall|i: int| 0 <= i < indent.len() ==> whitespace(#[trigger] indent[i]),
    ensures
        comment_text(indent + seq!['/', '/'] + rest) == Some(
            trimmed_start(seq!['/', '/'] + rest, '/'),
        ),
        rest.len() > 0 && rest[0] != '/' && !whitespace(rest[0]) ==> comment_text(indent + rest)
            is None,
    decreases indent.len(),
{
    let a = indent + seq!['/', '/'] + rest;
    let b = indent + rest;
    if indent.len() == 0 {
        assert(a =~= seq!['/', '/'] + rest);
        assert(b =~= rest);
        assert(!whitespace('/'));
    } else {
        let less = indent.drop_first();
        assert forall|i: int| 0 <= i < less.len() implies whitespace(#[trigger] less[i]) by {
            assert(less[i] == indent[i + 1]);
        }
        lemma_comment_lines(less, rest);
        assert(a[0] == indent[0] && b[0] == indent[0]);
        assert(a.drop_first() =~= less + seq!['/', '/'] + rest);
        assert(b.drop_first() =~= less + rest);
    }
}

/// The run of comments above a line is as long as it can be: comments all the
/// way, and none on top of it.
pub proof fn lemma_run_is_all_comments(lines: Seq<SourceLine>, first: int)
    requires
        0 <= first <= lines.len(),
    ensures
        0 <= run_top(lines, first) <= first,
        forall|i: int|
            run_top(lines, first) <= i < first ==> comment_text((#[trigger] lines[i]).text@)
                is Some,
        run_top(lines, first) > 0 ==> comment_text(lines[run_top(lines, first) - 1].text@) is None,
    decreases first,
{
    if first > 0 && comment_text(lines[first - 1].text@) is Some {
        lemma_run_is_all_comments(lines, first - 1);
    }
}

/// A line without two slashes in a row is code, and in one with a comment at
/// its end the code is what stands before.
pub proof fn lemma_code_is_what_no_comment_hides(code: Seq<char>, rest: Seq<char>)
    requires
        forall|i: int|
            #![trigger code[i]]
            0 <= i < code.len() - 1 ==> !(code[i] == '/' && code[i + 1] == '/'),
    ensures
        code_part(code) == code,
        code.len() == 0 || code.last() != '/' ==> code_part(code + seq!['/', '/'] + rest) == code,
    decreases code.len(),
{
    let s = code + seq!['/', '/'] + rest;
    if code.len() == 0 {
        assert(code =~= Seq::empty());
        assert(s[0] == '/' && s[1] == '/');
    } else {
        let less = code.drop_first();
        assert forall|i: int|
            #![trigger less[i]]
            0 <= i < less.len() - 1 implies !(less[i] == '/' && less[i + 1] == '/') by {
            assert(code[i + 1] == less[i] && code[i + 2] == less[i + 1]);
        }
        lemma_code_is_what_no_comment_hides(less, rest);
        assert(s.drop_first() =~= less + seq!['/', '/'] + rest);
        assert(seq![code[0]] + less =~= code);
        assert(s[0] == code[0]);
        if code.len() >= 2 {
            assert(s[1] == code[1]);
            assert(!(code[0] == '/' && code[1] == '/'));
        } else {
            assert(code.last() == code[0]);
        }
    }
}

proof fn lemma_all_names(defs: Definitions, items: Seq<DefId>, i: int, e: NameEntry)
    requires
        0 <= i < items.len(),
        names_of(defs, items[i]).contains(e),
    ensures
        all_names(defs, items).contains(e),
    decreases items.len(),
{
    crate::table::lemma_either(
        all_names(defs, items.drop_last()),
        names_of(defs, items.last()),
        e,
    );
    if i < items.len() - 1 {
        lemma_all_names(defs, items.drop_last(), i, e);
    }
}

proof fn lemma_variant_names(
    defs: Definitions,
    variants: Seq<VariantDef>,
    v: int,
    f: int,
)
    requires
        0 <= v < variants.len(),
    ensures
        variant_names(defs, variants).contains(
            NameEntry { name: defs.text(variants[v].name), def: None },
        ),
        0 <= f < variants[v].fields@.len() ==> variant_names(defs, variants).contains(
            NameEntry { name: defs.text(variants[v].fields@[f].name), def: None },
        ),
    decreases variants.len(),
{
    let last = variants.last();
    let own = NameEntry { name: defs.text(last.name), def: None };
    let fields = last.fields@.map_values(
        |x: FieldDef| NameEntry { name: defs.text(x.name), def: None },
    );
    let before = variant_names(defs, variants.drop_last());
    let here = seq![own] + fields;
    let a = NameEntry { name: defs.text(variants[v].name), def: None };
    let b = NameEntry { name: defs.text(variants[v].fields@[f].name), def: None };
    crate::table::lemma_either(before, here, a);
    crate::table::lemma_either(before, here, b);
    if v < variants.len() - 1 {
        lemma_variant_names(defs, variants.drop_last(), v, f);
    } else {
        assert(here[0] == own);
        if 0 <= f < last.fields@.len() {
            assert(here[f + 1] == fields[f]);
            assert(fields[f] == b);
        }
    }
}

/// Every item's name is known, and with a struct, an enum or a union those of
/// its variants and fields.
pub proof fn lemma_names_are_known(
    defs: Definitions,
    items: Seq<DefId>,
    i: int,
    a: crate::defs::AdtDef,
    v: int,
    f: int,
)
    requires
        0 <= i < items.len(),
    ensures
        defs.name_text(items[i]).len() > 0 ==> all_names(defs, items).contains(
            NameEntry { name: defs.name_text(items[i]), def: Some(items[i]) },
        ),
        defs.adt(items[i]) == Some(a) && (defs.kind(items[i]) == DefKind::Struct || defs.kind(
            items[i],
        ) == DefKind::Enum || defs.kind(items[i]) == DefKind::Union) && 0 <= v < a.variants@.len()
            ==> all_names(defs, items).contains(
            NameEntry { name: defs.text(a.variants@[v].name), def: None },
        ),
        defs.adt(items[i]) == Some(a) && (defs.kind(items[i]) == DefKind::Struct || defs.kind(
            items[i],
        ) == DefKind::Enum || defs.kind(items[i]) == DefKind::Union) && 0 <= v < a.variants@.len()
            && 0 <= f < a.variants@[v].fields@.len() ==> all_names(defs, items).contains(
            NameEntry { name: defs.text(a.variants@[v].fields@[f].name), def: None },
        ),
{
    let id = items[i];
    let own = NameEntry { name: defs.name_text(id), def: Some(id) };
    let mine = if defs.name_text(id).len() > 0 {
        seq![own]
    } else {
        Seq::<NameEntry>::empty()
    };
    let theirs = if holds_members(defs, id) {
        member_names(defs, id)
    } else {
        Seq::<NameEntry>::empty()
    };
    assert(names_of(defs, id) == mine + theirs);
    if defs.name_text(id).len() > 0 {
        assert(mine[0] == own);
        crate::table::lemma_either(mine, theirs, own);
        lemma_all_names(defs, items, i, own);
    }
    if defs.adt(id) == Some(a) && holds_members(defs, id) && 0 <= v < a.variants@.len() {
        lemma_variant_names(defs, a.variants@, v, f);
        let x = NameEntry { name: defs.text(a.variants@[v].name), def: None };
        crate::table::lemma_either(mine, theirs, x);
        lemma_all_names(defs, items, i, x);
        if 0 <= f < a.variants@[v].fields@.len() {
            let y = NameEntry { name: defs.text(a.variants@[v].fields@[f].name), def: None };
            crate::table::lemma_either(mine, theirs, y);
            lemma_all_names(defs, items, i, y);
        }
    }
}

/// A name is in the index exactly if it was met.
pub proof fn lemma_index_knows_what_was_met(met: Seq<NameEntry>, name: Seq<char>)
    ensures
        entry_at(index_of(met), name) >= 0 <==> exists|i: int|
            0 <= i < met.len() && (#[trigger] met[i]).name == name,
    decreases met.len(),
{
    if met.len() > 0 {
        let front = met.drop_last();
        let e = met.last();
        let before = index_of(front);
        lemma_index_knows_what_was_met(front, name);
        assert(met[met.len() - 1] == e);
        lemma_entry_at(before, e.name);
        lemma_entry_at(before, name);
        lemma_entry_at(index_of(met), name);
        let k = entry_at(before, e.name);
        let after = index_of(met);
        if k < 0 {
            assert(after[before.len() as int] == e);
            assert(after.drop_last() =~= before);
        } else {
            assert forall|i: int| 0 <= i < before.len() implies #[trigger] after[i].name
                == before[i].name by {}
        }
        if entry_at(before, name) >= 0 {
            let i = choose|i: int| 0 <= i < front.len() && (#[trigger] front[i]).name == name;
            assert(met[i] == front[i]);
        }
        if exists|i: int| 0 <= i < met.len() && (#[trigger] met[i]).name == name {
            let i = choose|i: int| 0 <= i < met.len() && (#[trigger] met[i]).name == name;
            if i < front.len() {
                assert(front[i] == met[i]);
            }
        }
        if k >= 0 && entry_at(before, name) >= 0 {
            assert(after[entry_at(before, name)].name == name);
        }
        if k >= 0 && entry_at(after, name) >= 0 {
            assert(before[entry_at(after, name)].name == name);
        }
    }
}

} // verus!
