//! Strings as sequences of characters: searching, splitting, joining.

use vstd::prelude::*;
use vstd::string::*;

verus! {

/// `String::push` appends one character.
pub assume_specification[ std::string::String::push ](s: &mut std::string::String, c: char)
    ensures
        final(s)@ == old(s)@.push(c),
;

/// A string's characters.
pub fn chars_of(s: &str) -> (r: Vec<char>)
    ensures
        r@ == s@,
{
    let mut out: Vec<char> = Vec::new();
    for c in it: s.chars()
        invariant
            out@ == s@.take(it.index() as int),
            it.seq() == s@,
    {
        proof {
            assert(s@.take(it.index() as int + 1) == s@.take(it.index() as int).push(c));
        }
        out.push(c);
    }
    assert(s@.take(s@.len() as int) == s@);
    out
}

/// The string with the given characters.
pub fn string_of(v: &Vec<char>) -> (r: String)
    ensures
        r@ == v@,
{
    let mut out = String::new();
    let mut i: usize = 0;
    while i < v.len()
        invariant
            i <= v@.len(),
            out@ == v@.take(i as int),
        decreases v.len() - i,
    {
        proof {
            assert(v@.take(i + 1) == v@.take(i as int).push(v@[i as int]));
        }
        out.push(v[i]);
        i = i + 1;
    }
    assert(v@.take(v@.len() as int) == v@);
    out
}

/// The characters from `from` up to `to`.
pub fn slice_of(v: &Vec<char>, from: usize, to: usize) -> (r: Vec<char>)
    requires
        from <= to <= v@.len(),
    ensures
        r@ == v@.subrange(from as int, to as int),
{
    let mut out: Vec<char> = Vec::new();
    let mut i: usize = from;
    while i < to
        invariant
            from <= i <= to <= v@.len(),
            out@ == v@.subrange(from as int, i as int),
        decreases to - i,
    {
        proof {
            assert(v@.subrange(from as int, i + 1) == v@.subrange(from as int, i as int).push(
                v@[i as int],
            ));
        }
        out.push(v[i]);
        i = i + 1;
    }
    out
}

/// Whether two strings have the same characters.
pub fn same(a: &str, b: &str) -> (r: bool)
    ensures
        r == (a@ == b@),
{
    let x = chars_of(a);
    let y = chars_of(b);
    same_chars(&x, &y)
}

pub fn same_chars(x: &Vec<char>, y: &Vec<char>) -> (r: bool)
    ensures
        r == (x@ == y@),
{
    if x.len() != y.len() {
        return false;
    }
    let mut i: usize = 0;
    while i < x.len()
        invariant
            i <= x@.len() == y@.len(),
            forall|k: int| 0 <= k < i ==> x@[k] == y@[k],
        decreases x.len() - i,
    {
        if x[i] != y[i] {
            return false;
        }
        i = i + 1;
    }
    assert(x@ =~= y@);
    true
}

/// The texts of a list of strings.
pub open spec fn texts(v: Seq<String>) -> Seq<Seq<char>> {
    v.map_values(|s: String| s@)
}

/// Whether some string of the list reads `s`.
pub fn listed(v: &Vec<String>, s: &str) -> (r: bool)
    ensures
        r == texts(v@).contains(s@),
{
    let mut i: usize = 0;
    while i < v.len()
        invariant
            i <= v@.len(),
            forall|k: int| 0 <= k < i ==> (#[trigger] v@[k])@ != s@,
        decreases v.len() - i,
    {
        if same(v[i].as_str(), s) {
            assert(texts(v@)[i as int] == s@);
            return true;
        }
        i = i + 1;
    }
    proof {
        assert forall|k: int| 0 <= k < texts(v@).len() implies texts(v@)[k] != s@ by {
            assert(v@[k]@ != s@);
        }
    }
    false
}

// ---------------------------------------------------------------- searching

/// `sub` stands in `s` at position `i`.
pub open spec fn occurs_at(s: Seq<char>, sub: Seq<char>, i: int) -> bool {
    0 <= i && i + sub.len() <= s.len() && s.subrange(i, i + sub.len()) == sub
}

/// `sub` stands somewhere in `s`.
pub open spec fn occurs_in(s: Seq<char>, sub: Seq<char>) -> bool {
    exists|i: int| #[trigger] occurs_at(s, sub, i)
}

/// `s` starts with `sub`.
pub open spec fn has_prefix(s: Seq<char>, sub: Seq<char>) -> bool {
    occurs_at(s, sub, 0)
}

/// `s` ends with `sub`.
pub open spec fn has_suffix(s: Seq<char>, sub: Seq<char>) -> bool {
    occurs_at(s, sub, s.len() - sub.len())
}

/// The last position up to `k` at which `sub` stands in `s`, or -1.
pub open spec fn last_at_most(s: Seq<char>, sub: Seq<char>, k: int) -> int
    decreases k + 1,
{
    if k < 0 {
        -1
    } else if occurs_at(s, sub, k) {
        k
    } else {
        last_at_most(s, sub, k - 1)
    }
}

/// The last position at which `sub` stands in `s`, or -1.
pub open spec fn last_at(s: Seq<char>, sub: Seq<char>) -> int {
    last_at_most(s, sub, s.len() as int)
}

/// The first position from `k` on at which `sub` stands in `s`, or -1.
pub open spec fn first_from(s: Seq<char>, sub: Seq<char>, k: int) -> int
    decreases s.len() + 1 - k,
{
    if k > s.len() {
        -1
    } else if occurs_at(s, sub, k) {
        k
    } else {
        first_from(s, sub, k + 1)
    }
}

/// The first position at which `sub` stands in `s`, or -1.
pub open spec fn first_at(s: Seq<char>, sub: Seq<char>) -> int {
    first_from(s, sub, 0)
}

/// What stands before and after the last `sep`, if there is one.
pub open spec fn split_last(s: Seq<char>, sep: Seq<char>) -> Option<(Seq<char>, Seq<char>)> {
    let i = last_at(s, sep);
    if i < 0 {
        None
    } else {
        Some((s.take(i), s.skip(i + sep.len())))
    }
}

/// What stands before and after the first `sep`, if there is one.
pub open spec fn split_first(s: Seq<char>, sep: Seq<char>) -> Option<(Seq<char>, Seq<char>)> {
    let i = first_at(s, sep);
    if i < 0 {
        None
    } else {
        Some((s.take(i), s.skip(i + sep.len())))
    }
}

/// `last_at` is -1 exactly where there is no occurrence, and otherwise the
/// greatest one.
pub proof fn lemma_last_at(s: Seq<char>, sub: Seq<char>)
    ensures
        last_at(s, sub) >= -1,
        last_at(s, sub) >= 0 ==> occurs_at(s, sub, last_at(s, sub)),
        forall|i: int| #[trigger] occurs_at(s, sub, i) ==> i <= last_at(s, sub),
{
    lemma_last_at_most(s, sub, s.len() as int);
}

proof fn lemma_last_at_most(s: Seq<char>, sub: Seq<char>, k: int)
    requires
        k >= -1,
    ensures
        -1 <= last_at_most(s, sub, k) <= k,
        last_at_most(s, sub, k) >= 0 ==> occurs_at(s, sub, last_at_most(s, sub, k)),
        forall|i: int| #[trigger] occurs_at(s, sub, i) && i <= k ==> i <= last_at_most(s, sub, k),
    decreases k + 1,
{
    if k >= 0 && !occurs_at(s, sub, k) {
        lemma_last_at_most(s, sub, k - 1);
    }
}

/// A text splits at the last of a separating character: what comes behind it
/// is the part without one.
pub proof fn lemma_split_last_char(head: Seq<char>, sep: char, tail: Seq<char>)
    requires
        !tail.contains(sep),
    ensures
        split_last(head + seq![sep] + tail, seq![sep]) == Some((head, tail)),
{
    let s = head + seq![sep] + tail;
    let one = seq![sep];
    let n = head.len() as int;
    lemma_last_at(s, one);
    assert(s.subrange(n, n + 1) =~= one);
    assert(occurs_at(s, one, n));
    let i = last_at(s, one);
    if i > n {
        assert(s.subrange(i, i + 1)[0] == s[i]);
        assert(tail[i - n - 1] == sep);
    }
    assert(s.take(n) =~= head);
    assert(s.skip(n + 1) =~= tail);
}

/// `first_at` is -1 exactly where there is no occurrence, and otherwise the
/// least one.
pub proof fn lemma_first_at(s: Seq<char>, sub: Seq<char>)
    ensures
        first_at(s, sub) >= -1,
        first_at(s, sub) >= 0 ==> occurs_at(s, sub, first_at(s, sub)),
        forall|i: int| #[trigger]
            occurs_at(s, sub, i) ==> first_at(s, sub) >= 0 && first_at(s, sub) <= i,
{
    lemma_first_from(s, sub, 0);
}

proof fn lemma_first_from(s: Seq<char>, sub: Seq<char>, k: int)
    requires
        k >= 0,
    ensures
        first_from(s, sub, k) == -1 || first_from(s, sub, k) >= k,
        first_from(s, sub, k) >= 0 ==> occurs_at(s, sub, first_from(s, sub, k)),
        forall|i: int| #[trigger]
            occurs_at(s, sub, i) && i >= k ==> first_from(s, sub, k) >= 0 && first_from(s, sub, k)
                <= i,
    decreases s.len() + 1 - k,
{
    if k <= s.len() && !occurs_at(s, sub, k) {
        lemma_first_from(s, sub, k + 1);
    }
}

pub fn stands_at(s: &Vec<char>, sub: &Vec<char>, i: usize) -> (r: bool)
    ensures
        r == occurs_at(s@, sub@, i as int),
{
    if i > s.len() || sub.len() > s.len() - i {
        return false;
    }
    let mut k: usize = 0;
    while k < sub.len()
        invariant
            k <= sub@.len(),
            i + sub@.len() <= s.len(),
            forall|j: int| 0 <= j < k ==> s@[i + j] == sub@[j],
        decreases sub.len() - k,
    {
        if s[i + k] != sub[k] {
            assert(s@.subrange(i as int, i + sub@.len())[k as int] != sub@[k as int]);
            return false;
        }
        k = k + 1;
    }
    assert(s@.subrange(i as int, i + sub@.len()) =~= sub@);
    true
}

/// The position of the last occurrence.
pub fn find_last(s: &Vec<char>, sub: &Vec<char>) -> (r: Option<usize>)
    ensures
        match r {
            Some(i) => i == last_at(s@, sub@) && i + sub@.len() <= s.len(),
            None => last_at(s@, sub@) == -1,
        },
{
    let mut k: usize = s.len();
    loop
        invariant
            k <= s@.len(),
            last_at(s@, sub@) == last_at_most(s@, sub@, k as int),
        decreases k,
    {
        if stands_at(s, sub, k) {
            return Some(k);
        }
        if k == 0 {
            assert(last_at_most(s@, sub@, -1) == -1);
            return None;
        }
        k = k - 1;
    }
}

/// The position of the first occurrence at `from` or behind it.
pub fn find_from(s: &Vec<char>, sub: &Vec<char>, from: usize) -> (r: Option<usize>)
    requires
        from <= s@.len(),
    ensures
        match r {
            Some(i) => i == first_from(s@, sub@, from as int) && from <= i && i + sub@.len()
                <= s.len(),
            None => first_from(s@, sub@, from as int) == -1,
        },
{
    let mut k: usize = from;
    loop
        invariant
            from <= k <= s@.len(),
            first_from(s@, sub@, from as int) == first_from(s@, sub@, k as int),
        decreases s.len() - k,
    {
        if stands_at(s, sub, k) {
            return Some(k);
        }
        if k == s.len() {
            assert(first_from(s@, sub@, k + 1) == -1);
            return None;
        }
        k = k + 1;
    }
}

/// Whether `s` starts with `sub`.
pub fn starts_with(s: &str, sub: &str) -> (r: bool)
    ensures
        r == has_prefix(s@, sub@),
{
    let a = chars_of(s);
    let b = chars_of(sub);
    stands_at(&a, &b, 0)
}

/// Whether `s` ends with `sub`.
pub fn ends_with(s: &str, sub: &str) -> (r: bool)
    ensures
        r == has_suffix(s@, sub@),
{
    let a = chars_of(s);
    let b = chars_of(sub);
    if b.len() > a.len() {
        return false;
    }
    stands_at(&a, &b, a.len() - b.len())
}

/// Whether `sub` stands somewhere in `s`.
pub fn has_text(s: &str, sub: &str) -> (r: bool)
    ensures
        r == occurs_in(s@, sub@),
{
    let a = chars_of(s);
    let b = chars_of(sub);
    proof {
        lemma_first_at(s@, sub@);
    }
    find_from(&a, &b, 0).is_some()
}

/// What stands before and after the last `sep`.
pub fn rsplit_once(s: &str, sep: &str) -> (r: Option<(String, String)>)
    ensures
        match r {
            Some(p) => split_last(s@, sep@) == Some((p.0@, p.1@)),
            None => split_last(s@, sep@) is None,
        },
{
    let a = chars_of(s);
    let b = chars_of(sep);
    match find_last(&a, &b) {
        Some(i) => {
            let before = string_of(&slice_of(&a, 0, i));
            let after = string_of(&slice_of(&a, i + b.len(), a.len()));
            proof {
                assert(s@.subrange(0, i as int) =~= s@.take(i as int));
                assert(s@.subrange(i + sep@.len(), s@.len() as int) =~= s@.skip(i + sep@.len()));
            }
            Some((before, after))
        },
        None => None,
    }
}

/// What stands before and after the first `sep`.
pub fn split_once(s: &str, sep: &str) -> (r: Option<(String, String)>)
    ensures
        match r {
            Some(p) => split_first(s@, sep@) == Some((p.0@, p.1@)),
            None => split_first(s@, sep@) is None,
        },
{
    let a = chars_of(s);
    let b = chars_of(sep);
    match find_from(&a, &b, 0) {
        Some(i) => {
            let before = string_of(&slice_of(&a, 0, i));
            let after = string_of(&slice_of(&a, i + b.len(), a.len()));
            proof {
                assert(s@.subrange(0, i as int) =~= s@.take(i as int));
                assert(s@.subrange(i + sep@.len(), s@.len() as int) =~= s@.skip(i + sep@.len()));
            }
            Some((before, after))
        },
        None => None,
    }
}

// ---------------------------------------------------------------- numbers

/// The character of a decimal digit.
pub open spec fn digit_char(d: nat) -> char {
    if d == 0 {
        '0'
    } else if d == 1 {
        '1'
    } else if d == 2 {
        '2'
    } else if d == 3 {
        '3'
    } else if d == 4 {
        '4'
    } else if d == 5 {
        '5'
    } else if d == 6 {
        '6'
    } else if d == 7 {
        '7'
    } else if d == 8 {
        '8'
    } else {
        '9'
    }
}

/// A number in decimal, without leading zeros.
pub open spec fn decimal(n: nat) -> Seq<char>
    decreases n,
{
    if n < 10 {
        seq![digit_char(n)]
    } else {
        decimal(n / 10).push(digit_char(n % 10))
    }
}

fn digit(d: u128) -> (r: char)
    requires
        d < 10,
    ensures
        r == digit_char(d as nat),
{
    if d == 0 {
        '0'
    } else if d == 1 {
        '1'
    } else if d == 2 {
        '2'
    } else if d == 3 {
        '3'
    } else if d == 4 {
        '4'
    } else if d == 5 {
        '5'
    } else if d == 6 {
        '6'
    } else if d == 7 {
        '7'
    } else if d == 8 {
        '8'
    } else {
        '9'
    }
}

/// A number in decimal.
pub fn number(n: u128) -> (r: String)
    ensures
        r@ == decimal(n as nat),
    decreases n,
{
    if n < 10 {
        let mut s = String::new();
        s.push(digit(n));
        s
    } else {
        let mut s = number(n / 10);
        s.push(digit(n % 10));
        s
    }
}

// ---------------------------------------------------------------- joining

/// The parts one behind the other, with `sep` between each two.
pub open spec fn joined(parts: Seq<Seq<char>>, sep: Seq<char>) -> Seq<char>
    decreases parts.len(),
{
    if parts.len() == 0 {
        Seq::empty()
    } else if parts.len() == 1 {
        parts[0]
    } else {
        joined(parts.drop_last(), sep) + sep + parts.last()
    }
}

/// Joins strings.
pub fn join(parts: &Vec<String>, sep: &str) -> (r: String)
    ensures
        r@ == joined(texts(parts@), sep@),
{
    let mut out = String::new();
    let mut i: usize = 0;
    while i < parts.len()
        invariant
            i <= parts@.len(),
            out@ == joined(texts(parts@.take(i as int)), sep@),
        decreases parts.len() - i,
    {
        proof {
            let shorter = texts(parts@.take(i as int));
            let longer = texts(parts@.take(i + 1));
            assert(longer.drop_last() =~= shorter);
            assert(longer.last() == parts@[i as int]@);
            assert(i > 0 || longer[0] == parts@[0]@);
        }
        if i > 0 {
            out.append(sep);
        }
        out.append(parts[i].as_str());
        proof {
            if i == 0 {
                assert(Seq::<char>::empty() + parts@[0]@ =~= parts@[0]@);
            }
        }
        i = i + 1;
    }
    assert(parts@.take(parts@.len() as int) == parts@);
    out
}

// ---------------------------------------------------------------- trimming

/// `s` without the `c`s it starts with.
pub open spec fn trimmed_start(s: Seq<char>, c: char) -> Seq<char>
    decreases s.len(),
{
    if s.len() > 0 && s[0] == c {
        trimmed_start(s.drop_first(), c)
    } else {
        s
    }
}

/// `s` without the `c`s it ends with.
pub open spec fn trimmed_end(s: Seq<char>, c: char) -> Seq<char>
    decreases s.len(),
{
    if s.len() > 0 && s.last() == c {
        trimmed_end(s.drop_last(), c)
    } else {
        s
    }
}

/// Drops the `c`s a text starts with.
pub fn trim_start_char(v: &Vec<char>, c: char) -> (r: Vec<char>)
    ensures
        r@ == trimmed_start(v@, c),
{
    let mut i: usize = 0;
    assert(v@.skip(0) =~= v@);
    while i < v.len() && v[i] == c
        invariant
            i <= v@.len(),
            trimmed_start(v@, c) == trimmed_start(v@.skip(i as int), c),
        decreases v.len() - i,
    {
        assert(v@.skip(i as int).drop_first() =~= v@.skip(i + 1));
        i = i + 1;
    }
    let r = slice_of(v, i, v.len());
    assert(r@ =~= v@.skip(i as int));
    r
}

/// Drops the `c`s a text ends with.
pub fn trim_end_char(v: &Vec<char>, c: char) -> (r: Vec<char>)
    ensures
        r@ == trimmed_end(v@, c),
{
    let mut i: usize = v.len();
    assert(v@.take(i as int) =~= v@);
    while i > 0 && v[i - 1] == c
        invariant
            i <= v@.len(),
            trimmed_end(v@, c) == trimmed_end(v@.take(i as int), c),
        decreases i,
    {
        assert(v@.take(i as int).drop_last() =~= v@.take(i - 1));
        i = i - 1;
    }
    let r = slice_of(v, 0, i);
    assert(r@ =~= v@.take(i as int));
    r
}

/// `s` without `sub` in front, if it starts with it.
pub open spec fn without_prefix(s: Seq<char>, sub: Seq<char>) -> Option<Seq<char>> {
    if has_prefix(s, sub) {
        Some(s.skip(sub.len() as int))
    } else {
        None
    }
}

/// `s` without `sub` behind, if it ends with it.
pub open spec fn without_suffix(s: Seq<char>, sub: Seq<char>) -> Option<Seq<char>> {
    if has_suffix(s, sub) {
        Some(s.take(s.len() - sub.len()))
    } else {
        None
    }
}

pub fn strip_prefix(s: &Vec<char>, sub: &str) -> (r: Option<Vec<char>>)
    ensures
        match r {
            Some(v) => without_prefix(s@, sub@) == Some(v@),
            None => without_prefix(s@, sub@) is None,
        },
{
    let b = chars_of(sub);
    if stands_at(s, &b, 0) {
        let v = slice_of(s, b.len(), s.len());
        assert(v@ =~= s@.skip(sub@.len() as int));
        Some(v)
    } else {
        None
    }
}

pub fn strip_suffix(s: &Vec<char>, sub: &str) -> (r: Option<Vec<char>>)
    ensures
        match r {
            Some(v) => without_suffix(s@, sub@) == Some(v@),
            None => without_suffix(s@, sub@) is None,
        },
{
    let b = chars_of(sub);
    if b.len() <= s.len() && stands_at(s, &b, s.len() - b.len()) {
        let v = slice_of(s, 0, s.len() - b.len());
        assert(v@ =~= s@.take(s@.len() - sub@.len()));
        Some(v)
    } else {
        None
    }
}

// ---------------------------------------------------------------- pieces

/// What stands between the `c`s of `s`.
pub open spec fn pieces(s: Seq<char>, c: char) -> Seq<Seq<char>>
    decreases s.len(),
{
    if s.len() == 0 {
        seq![Seq::empty()]
    } else {
        let before = pieces(s.drop_last(), c);
        if s.last() == c {
            before.push(Seq::empty())
        } else {
            before.drop_last().push(before.last().push(s.last()))
        }
    }
}

/// Lists of characters as texts.
pub open spec fn char_texts(v: Seq<Vec<char>>) -> Seq<Seq<char>> {
    v.map_values(|x: Vec<char>| x@)
}

/// Splits a text at every `c`.
pub fn split_char(s: &str, c: char) -> (r: Vec<Vec<char>>)
    ensures
        char_texts(r@) == pieces(s@, c),
{
    let chars = chars_of(s);
    let mut done: Vec<Vec<char>> = Vec::new();
    let mut last: Vec<char> = Vec::new();
    let mut i: usize = 0;
    assert(char_texts(done@).push(last@) =~= pieces(s@.take(0), c));
    while i < chars.len()
        invariant
            i <= chars@.len(),
            chars@ == s@,
            char_texts(done@).push(last@) == pieces(s@.take(i as int), c),
        decreases chars.len() - i,
    {
        assert(s@.take(i + 1).drop_last() =~= s@.take(i as int));
        let ghost before = pieces(s@.take(i as int), c);
        let ghost was = done@;
        let ghost tail = last@;
        if chars[i] == c {
            done.push(last);
            last = Vec::new();
            assert(char_texts(done@) =~= char_texts(was).push(tail));
            assert(char_texts(done@).push(last@) =~= before.push(Seq::empty()));
        } else {
            last.push(chars[i]);
            assert(char_texts(done@).push(last@) =~= before.drop_last().push(
                before.last().push(s@[i as int]),
            ));
        }
        i = i + 1;
    }
    assert(s@.take(i as int) =~= s@);
    let ghost was = done@;
    let ghost tail = last@;
    done.push(last);
    assert(char_texts(done@) =~= char_texts(was).push(tail));
    done
}

/// Whether a list of characters reads `b`.
pub fn reads_as(a: &Vec<char>, b: &str) -> (r: bool)
    ensures
        r == (a@ == b@),
{
    same_chars(a, &chars_of(b))
}

/// A list of its own that reads the same.
pub fn copy_texts(v: &Vec<String>) -> (r: Vec<String>)
    ensures
        texts(r@) == texts(v@),
{
    let mut out: Vec<String> = Vec::new();
    let mut i: usize = 0;
    while i < v.len()
        invariant
            i <= v@.len(),
            texts(out@) == texts(v@).take(i as int),
        decreases v.len() - i,
    {
        let ghost before = out@;
        out.push(String::from_str(v[i].as_str()));
        assert(texts(out@) =~= texts(before).push(v@[i as int]@));
        i = i + 1;
        assert(texts(out@) =~= texts(v@).take(i as int));
    }
    assert(texts(out@) =~= texts(v@));
    out
}

/// A text ends with another exactly if it is something followed by it.
pub proof fn lemma_suffix(s: Seq<char>, sub: Seq<char>)
    ensures
        has_suffix(s, sub) <==> exists|head: Seq<char>| s == #[trigger] (head + sub),
{
    if has_suffix(s, sub) {
        let head = s.take(s.len() - sub.len());
        assert(head + sub =~= s);
    }
    assert forall|head: Seq<char>| s == #[trigger] (head + sub) implies has_suffix(s, sub) by {
        assert(s.subrange(s.len() - sub.len(), s.len() as int) =~= sub);
    }
}

/// A text starts with another exactly if it is it followed by something.
pub proof fn lemma_prefix(s: Seq<char>, sub: Seq<char>)
    ensures
        has_prefix(s, sub) <==> exists|tail: Seq<char>| s == #[trigger] (sub + tail),
{
    if has_prefix(s, sub) {
        let tail = s.skip(sub.len() as int);
        assert(sub + tail =~= s);
    }
    assert forall|tail: Seq<char>| s == #[trigger] (sub + tail) implies has_prefix(s, sub) by {
        assert(s.subrange(0, sub.len() as int) =~= sub);
    }
}

/// A text without the character is one piece.
pub proof fn lemma_one_piece(s: Seq<char>, c: char)
    requires
        !s.contains(c),
    ensures
        pieces(s, c) == seq![s],
    decreases s.len(),
{
    if s.len() > 0 {
        let front = s.drop_last();
        assert(s[s.len() - 1] == s.last());
        assert forall|i: int| 0 <= i < front.len() implies front[i] != c by {
            assert(s[i] == front[i]);
        }
        lemma_one_piece(front, c);
        assert(front.push(s.last()) =~= s);
        assert(pieces(s, c) =~= seq![s]);
    } else {
        assert(s =~= Seq::empty());
    }
}

/// The pieces of two texts with the character between them are the pieces of
/// the one and then those of the other.
pub proof fn lemma_pieces_join(a: Seq<char>, c: char, b: Seq<char>)
    ensures
        pieces(a, c).len() > 0,
        pieces(b, c).len() > 0,
        pieces(a + seq![c] + b, c) == pieces(a, c) + pieces(b, c),
    decreases b.len(),
{
    let s = a + seq![c] + b;
    lemma_some_piece(a, c);
    lemma_some_piece(b, c);
    if b.len() == 0 {
        assert(s.drop_last() =~= a);
        assert(b =~= Seq::empty());
        assert(pieces(s, c) =~= pieces(a, c) + pieces(b, c));
    } else {
        assert(s.drop_last() =~= a + seq![c] + b.drop_last());
        lemma_pieces_join(a, c, b.drop_last());
        assert(s.last() == b.last());
        lemma_some_piece(b.drop_last(), c);
        assert(pieces(s, c) =~= pieces(a, c) + pieces(b, c));
    }
}

proof fn lemma_some_piece(s: Seq<char>, c: char)
    ensures
        pieces(s, c).len() > 0,
    decreases s.len(),
{
    if s.len() > 0 {
        lemma_some_piece(s.drop_last(), c);
    }
}

/// Joining puts the separator between neighbours and nowhere else.
pub proof fn lemma_joined_pushed(parts: Seq<Seq<char>>, sep: Seq<char>, last: Seq<char>)
    ensures
        joined(seq![last], sep) == last,
        parts.len() > 0 ==> joined(parts.push(last), sep) == joined(parts, sep) + sep + last,
{
    assert(parts.push(last).drop_last() =~= parts);
}

/// A number's digits stand for it: the last one is the remainder by ten, and
/// what comes before it is the tenth part.
pub proof fn lemma_decimal(n: nat)
    ensures
        n == 0 ==> decimal(n) == seq!['0'],
        0 < n < 10 ==> decimal(n) == seq![(('0' as u32) + n) as char],
        n >= 10 ==> decimal(n) == decimal(n / 10) + decimal(n % 10),
{
    if n >= 10 {
        assert(decimal(n / 10) + decimal(n % 10) =~= decimal(n));
    }
}

/// Trimming takes every such character off the end it trims and nothing else.
pub proof fn lemma_trimmed_start(s: Seq<char>, c: char)
    ensures
        trimmed_start(s, c).len() > 0 ==> trimmed_start(s, c)[0] != c,
        exists|n: int|
            0 <= n <= s.len() && trimmed_start(s, c) == #[trigger] s.skip(n) && forall|i: int|
                0 <= i < n ==> s[i] == c,
    decreases s.len(),
{
    if s.len() > 0 && s[0] == c {
        let rest = s.drop_first();
        lemma_trimmed_start(rest, c);
        let n = choose|n: int|
            0 <= n <= rest.len() && trimmed_start(rest, c) == #[trigger] rest.skip(n) && forall|
                i: int,
            |
                0 <= i < n ==> rest[i] == c;
        assert(s.skip(n + 1) =~= rest.skip(n));
        assert forall|i: int| 0 <= i < n + 1 implies s[i] == c by {
            if i > 0 {
                assert(rest[i - 1] == s[i]);
            }
        }
    } else {
        assert(s.skip(0) =~= s);
    }
}

} // verus!
