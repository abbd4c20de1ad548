//! Types with and without a constructor that checks what it stores.

use crate::text::{chars_of, same};
use vstd::prelude::*;
use vstd::string::*;

verus! {

// ---------------------------------------------------------------- a port

#[derive(Debug)]
pub struct Port {
    pub n: u16,
}

impl Port {
    /// This literal is the validator.
    pub fn new(n: u32) -> (r: Result<Port, ()>)
        ensures
            match r {
                Ok(p) => p.n == n,
                Err(_) => n > u16::MAX,
            },
    {
        if n <= 0xffff {
            Ok(Port { n: n as u16 })
        } else {
            Err(())
        }
    }
}

/// Same module as the type: not a bypass.
pub fn well_known() -> (r: Port)
    ensures
        r.n == 443,
{
    Port { n: 443 }
}

impl Default for Port {
    fn default() -> (r: Self)
        ensures
            r.n == 80,
    {
        Port { n: 80 }
    }
}

// ---------------------------------------------------------------- no constructors

/// A method with a receiver is not a constructor: `parent` navigates and
/// `try_clone` copies a value that already exists.
#[derive(Debug)]
pub struct Node {
    pub depth: u8,
    pub up: Option<Box<Node>>,
}

impl Node {
    pub fn parent(&self) -> (r: Option<&Node>)
        ensures
            match r {
                Some(n) => self.up matches Some(u) && *n == *u,
                None => self.up is None,
            },
    {
        match &self.up {
            Some(n) => Some(&**n),
            None => None,
        }
    }

    pub fn try_clone(&self) -> (r: Result<Node, ()>)
        ensures
            match r {
                Ok(n) => self.up is None && n.depth == self.depth && n.up is None,
                Err(_) => self.up is Some,
            },
    {
        if self.up.is_some() {
            Err(())
        } else {
            Ok(Node { depth: self.depth, up: None })
        }
    }
}

/// A lookup hands back a row of a table; it validates nothing.
#[derive(Clone, Copy, Debug)]
pub struct Alias {
    pub from: &'static str,
    pub to: &'static str,
}

/// What an alias stands for.
pub open spec fn alias_of(name: Seq<char>) -> Option<Seq<char>> {
    if name == "fs"@ {
        Some("node:fs"@)
    } else if name == "path"@ {
        Some("node:path"@)
    } else {
        None
    }
}

impl Alias {
    pub fn get(name: &str) -> (r: Option<Alias>)
        ensures
            match r {
                Some(a) => a.from@ == name@ && alias_of(name@) == Some(a.to@),
                None => alias_of(name@) is None,
            },
    {
        if same(name, "fs") {
            Some(Alias { from: "fs", to: "node:fs" })
        } else if same(name, "path") {
            Some(Alias { from: "path", to: "node:path" })
        } else {
            None
        }
    }
}

// ---------------------------------------------------------------- failing without checking

/// The narrower field type carries the guarantee.
#[derive(Debug)]
pub struct Narrow {
    pub n: u16,
}

impl Narrow {
    pub fn new(n: u32) -> (r: Result<Narrow, std::num::TryFromIntError>)
        ensures
            match r {
                Ok(x) => x.n == n,
                Err(_) => n > u16::MAX,
            },
    {
        match u16::try_from(n) {
            Ok(small) => Ok(Narrow { n: small }),
            Err(e) => Err(e),
        }
    }
}

/// Calls `Vec::try_reserve`, which asks for room for `additional` more bytes
/// and leaves the contents as they are. A vector's capacity never exceeds
/// `isize::MAX` bytes, so asking for more than that is refused, and where the
/// capacity suffices already, as it does for nothing more, nothing is asked of
/// the allocator and the call succeeds. Whether the allocator has the room
/// otherwise, and how much of it the vector then holds, is left unsaid: both
/// depend on the machine.
#[verifier::external_body]
fn make_room(bytes: &mut Vec<u8>, additional: usize) -> (r: Result<
    (),
    std::collections::TryReserveError,
>)
    ensures
        final(bytes)@ == old(bytes)@,
        match r {
            Ok(_) => old(bytes)@.len() + additional <= isize::MAX,
            Err(_) => additional > 0,
        },
{
    bytes.try_reserve(additional)
}

/// Allocation says nothing about `cap`.
#[derive(Debug)]
pub struct Buf {
    pub bytes: Vec<u8>,
    pub cap: usize,
}

impl Buf {
    /// An empty buffer with room for `cap` bytes. No room is always to be had,
    /// more than `isize::MAX` bytes never; in between it depends on the
    /// machine.
    pub fn with_capacity(cap: usize) -> (r: Result<Buf, std::collections::TryReserveError>)
        ensures
            match r {
                Ok(b) => b.bytes@.len() == 0 && b.cap == cap && cap <= isize::MAX,
                Err(_) => cap > 0,
            },
    {
        let mut bytes: Vec<u8> = Vec::new();
        match make_room(&mut bytes, cap) {
            Ok(_) => Ok(Buf { bytes, cap }),
            Err(e) => Err(e),
        }
    }
}

/// The value of a digit.
pub open spec fn digit_value(c: char) -> Option<nat> {
    if '0' <= c && c <= '9' {
        Some((c as int - '0' as int) as nat)
    } else {
        None
    }
}

/// What digits read; none for anything that is not all digits.
pub open spec fn digits_value(s: Seq<char>) -> Option<nat>
    decreases s.len(),
{
    if s.len() == 0 {
        Some(0)
    } else {
        match (digits_value(s.drop_last()), digit_value(s.last())) {
            (Some(n), Some(d)) => Some(n * 10 + d),
            _ => None,
        }
    }
}

/// The number a text reads: an optional plus, and digits that fit.
pub open spec fn number_read(s: Seq<char>) -> Option<nat> {
    let digits = if s.len() > 0 && s[0] == '+' {
        s.drop_first()
    } else {
        s
    };
    match digits_value(digits) {
        Some(n) => if digits.len() > 0 && n <= u32::MAX {
            Some(n)
        } else {
            None
        },
        None => None,
    }
}

proof fn lemma_digits_grow(s: Seq<char>, i: int)
    requires
        0 <= i <= s.len(),
    ensures
        digits_value(s.take(i)) is None ==> digits_value(s) is None,
        digits_value(s) matches Some(b) ==> digits_value(s.take(i)) matches Some(a) && a <= b,
    decreases s.len() - i,
{
    if i < s.len() {
        lemma_digits_grow(s, i + 1);
        assert(s.take(i + 1).drop_last() =~= s.take(i));
    } else {
        assert(s.take(i) =~= s);
    }
}

fn read_number(s: &str) -> (r: Option<u32>)
    ensures
        match r {
            Some(n) => number_read(s@) == Some(n as nat),
            None => number_read(s@) is None,
        },
{
    let chars = chars_of(s);
    let from: usize = if chars.len() > 0 && chars[0] == '+' {
        1
    } else {
        0
    };
    let ghost digits = chars@.skip(from as int);
    assert(digits == if s@.len() > 0 && s@[0] == '+' {
        s@.drop_first()
    } else {
        s@
    });
    if chars.len() == from {
        return None;
    }
    let mut n: u32 = 0;
    let mut i: usize = from;
    assert(digits.take(0) =~= Seq::empty());
    while i < chars.len()
        invariant
            from <= i <= chars@.len(),
            from < chars@.len(),
            digits == chars@.skip(from as int),
            number_read(s@) == match digits_value(digits) {
                Some(v) => if v <= u32::MAX {
                    Some(v)
                } else {
                    None
                },
                None => None,
            },
            digits_value(digits.take(i - from)) == Some(n as nat),
        decreases chars.len() - i,
    {
        let c = chars[i];
        proof {
            assert(digits.take(i + 1 - from).drop_last() =~= digits.take(i - from));
            assert(digits.take(i + 1 - from).last() == c);
            lemma_digits_grow(digits, i + 1 - from);
        }
        if !('0' <= c && c <= '9') {
            return None;
        }
        let d: u32 = c as u32 - '0' as u32;
        let wide: u64 = n as u64 * 10 + d as u64;
        if wide > 0xffff_ffff {
            return None;
        }
        n = wide as u32;
        i = i + 1;
    }
    assert(digits.take(i - from) =~= digits);
    Some(n)
}

/// Where the first pair with the key stands, or the end.
pub open spec fn pair_at(pairs: Seq<(&str, &str)>, key: Seq<char>, i: int) -> int
    decreases pairs.len() - i,
{
    if i >= pairs.len() || pairs[i].0@ == key {
        i
    } else {
        pair_at(pairs, key, i + 1)
    }
}

/// The value of the first pair with the key.
pub open spec fn value_of(pairs: Seq<(&str, &str)>, key: Seq<char>) -> Option<Seq<char>> {
    let i = pair_at(pairs, key, 0);
    if 0 <= i < pairs.len() {
        Some(pairs[i].1@)
    } else {
        None
    }
}

fn find_value<'a>(pairs: &[(&'a str, &'a str)], key: &str) -> (r: Option<&'a str>)
    ensures
        match r {
            Some(v) => value_of(pairs@, key@) == Some(v@),
            None => value_of(pairs@, key@) is None,
        },
{
    let mut i: usize = 0;
    while i < pairs.len()
        invariant
            i <= pairs@.len(),
            pair_at(pairs@, key@, 0) == pair_at(pairs@, key@, i as int),
        decreases pairs.len() - i,
    {
        if same(pairs[i].0, key) {
            return Some(pairs[i].1);
        }
        i = i + 1;
    }
    None
}

/// The port and the host that pairs give.
pub open spec fn port_and_host(pairs: Seq<(&str, &str)>) -> Option<(nat, Seq<char>)> {
    match (value_of(pairs, "port"@), value_of(pairs, "host"@)) {
        (Some(p), Some(h)) => match number_read(p) {
            Some(n) => Some((n, h)),
            None => None,
        },
        _ => None,
    }
}

fn read_pairs(pairs: &[(&str, &str)]) -> (r: Option<(u32, String)>)
    ensures
        match r {
            Some((p, h)) => port_and_host(pairs@) == Some((p as nat, h@)),
            None => port_and_host(pairs@) is None,
        },
{
    match (find_value(pairs, "port"), find_value(pairs, "host")) {
        (Some(p), Some(h)) => match read_number(p) {
            Some(n) => Some((n, String::from_str(h))),
            None => None,
        },
        _ => None,
    }
}

/// Checks the input object, then stores things read out of it.
#[derive(Debug)]
pub struct Config {
    pub port: u32,
    pub host: String,
}

impl Config {
    pub fn from_pairs(pairs: &[(&str, &str)]) -> (r: Result<Config, ()>)
        ensures
            match r {
                Ok(c) => port_and_host(pairs@) == Some((c.port as nat, c.host@)),
                Err(_) => port_and_host(pairs@) is None,
            },
    {
        match read_pairs(pairs) {
            Some((port, host)) => Ok(Config { port, host }),
            None => Err(()),
        }
    }
}

/// A length check on the input is not a check on the byte stored.
#[derive(Debug)]
pub struct Header {
    pub kq: i32,
    pub tag: u8,
    pub port: u32,
}

impl Header {
    pub fn decode(kq: i32, bytes: &[u8], port: u32) -> (r: Result<Header, ()>)
        requires
            kq > -1,
        ensures
            match r {
                Ok(h) => bytes@.len() >= 2 && port != 0 && h.kq == kq && h.tag == bytes@[1]
                    && h.port == port,
                Err(_) => bytes@.len() < 2 || port == 0,
            },
    {
        if bytes.len() < 2 {
            return Err(());
        }
        if port == 0 {
            return Err(());
        }
        Ok(Header { kq, tag: bytes[1], port })
    }
}

/// A check on a value only part of which is stored says nothing about that
/// part.
#[derive(Debug)]
pub struct Parser {
    pub log: u32,
    pub pos: usize,
}

#[derive(Debug)]
pub struct Lexer {
    pub log: u32,
    pub pos: usize,
}

impl Lexer {
    fn advance(&mut self) -> (r: Result<(), ()>)
        requires
            old(self).pos < usize::MAX,
        ensures
            final(self).log == old(self).log,
            final(self).pos == old(self).pos + 1,
            r is Ok == (final(self).pos <= 10),
    {
        self.pos = self.pos + 1;
        if self.pos > 10 {
            Err(())
        } else {
            Ok(())
        }
    }
}

impl Parser {
    pub fn init(lexer: Lexer) -> (r: Result<Parser, ()>)
        requires
            lexer.pos < usize::MAX,
        ensures
            match r {
                Ok(p) => lexer.pos < 10 && p.log == lexer.log && p.pos == 0,
                Err(_) => lexer.pos >= 10,
            },
    {
        let mut lexer = lexer;
        match lexer.advance() {
            Ok(_) => Ok(Parser { log: lexer.log, pos: 0 }),
            Err(_) => Err(()),
        }
    }
}

// ---------------------------------------------------------------- checking what is stored

/// Checked through a helper predicate.
#[derive(Debug)]
pub struct Even {
    pub n: u32,
}

fn is_even(n: u32) -> (r: bool)
    ensures
        r == (n % 2 == 0),
{
    n % 2 == 0
}

impl Even {
    pub fn new(n: u32) -> (r: Option<Even>)
        ensures
            match r {
                Some(e) => n % 2 == 0 && e.n == n,
                None => n % 2 != 0,
            },
    {
        if !is_even(n) {
            return None;
        }
        Some(Even { n })
    }
}

/// Only `port` is checked, `host` is not.
#[derive(Debug)]
pub struct Checked {
    pub port: u32,
    pub host: String,
}

impl Checked {
    pub fn from_pairs(pairs: &[(&str, &str)]) -> (r: Result<Checked, ()>)
        ensures
            match r {
                Ok(c) => c.port <= 65535 && port_and_host(pairs@) == Some((c.port as nat, c.host@)),
                Err(_) => port_and_host(pairs@) matches Some(p) ==> p.0 > 65535,
            },
    {
        match read_pairs(pairs) {
            Some((port, host)) => {
                if port > 65535 {
                    return Err(());
                }
                Ok(Checked { port, host })
            },
            None => Err(()),
        }
    }
}

/// Checked and constructed in one place.
#[derive(Debug)]
pub struct Small {
    pub n: u8,
}

impl Small {
    pub fn new(n: Option<u8>) -> (r: Option<Small>)
        ensures
            match r {
                Some(s) => n == Some(s.n) && s.n < 10,
                None => n matches Some(v) ==> v >= 10,
            },
    {
        match n {
            Some(v) => if v < 10 {
                Some(Small { n: v })
            } else {
                None
            },
            None => None,
        }
    }
}

/// A rejecting arm on the stored value.
#[derive(Debug)]
pub struct NonZero {
    pub n: i32,
}

impl NonZero {
    pub fn new(n: i32) -> (r: Result<NonZero, ()>)
        ensures
            match r {
                Ok(z) => n != 0 && z.n == n,
                Err(_) => n == 0,
            },
    {
        match n {
            0 => Err(()),
            n => Ok(NonZero { n }),
        }
    }
}

/// Validated, but any holder assigns around the check.
#[derive(Debug)]
pub struct Level {
    pub value: u8,
}

impl Level {
    pub fn new(v: u8) -> (r: Result<Level, ()>)
        ensures
            match r {
                Ok(l) => v <= 10 && l.value == v,
                Err(_) => v > 10,
            },
    {
        if v <= 10 {
            Ok(Level { value: v })
        } else {
            Err(())
        }
    }
}

/// Validated with a private field.
#[derive(Debug)]
pub struct Sealed {
    value: u8,
}

impl Sealed {
    /// What it holds.
    pub closed spec fn held(self) -> u8 {
        self.value
    }

    /// What it holds passed the check.
    #[verifier::type_invariant]
    spec fn checked(self) -> bool {
        self.value <= 10
    }

    pub fn new(v: u8) -> (r: Result<Sealed, ()>)
        ensures
            match r {
                Ok(s) => v <= 10 && s.held() == v,
                Err(_) => v > 10,
            },
    {
        if v <= 10 {
            Ok(Sealed { value: v })
        } else {
            Err(())
        }
    }

    /// What it holds, which no one can have put there around the check.
    pub fn value(&self) -> (r: u8)
        ensures
            r == self.held(),
            r <= 10,
    {
        proof {
            use_type_invariant(self);
        }
        self.value
    }
}

/// A number is read back from how it is written, with a plus or without.
pub proof fn lemma_written_number_is_read(n: nat)
    ensures
        digits_value(crate::text::decimal(n)) == Some(n),
        n <= u32::MAX ==> number_read(crate::text::decimal(n)) == Some(n),
        n <= u32::MAX ==> number_read(seq!['+'] + crate::text::decimal(n)) == Some(n),
        n > u32::MAX ==> number_read(crate::text::decimal(n)) is None,
        number_read(Seq::empty()) is None,
        number_read(seq!['+']) is None,
    decreases n,
{
    let s = crate::text::decimal(n);
    reveal_with_fuel(digits_value, 2);
    if n < 10 {
        assert(s.drop_last() =~= Seq::empty());
    } else {
        lemma_written_number_is_read(n / 10);
        assert(s.drop_last() =~= crate::text::decimal(n / 10));
    }
    assert(s.len() > 0);
    assert(s[0] != '+') by {
        lemma_starts_with_a_digit(n);
    }
    let t = seq!['+'] + s;
    assert(t.drop_first() =~= s);
    assert(seq!['+'].drop_first() =~= Seq::empty());
}

proof fn lemma_starts_with_a_digit(n: nat)
    ensures
        crate::text::decimal(n).len() > 0,
        '0' <= crate::text::decimal(n)[0] <= '9',
    decreases n,
{
    if n >= 10 {
        lemma_starts_with_a_digit(n / 10);
    }
}

/// One character that is no digit spoils a number.
pub proof fn lemma_letters_are_no_number(a: Seq<char>, c: char, b: Seq<char>)
    requires
        !('0' <= c <= '9'),
    ensures
        digits_value(a + seq![c] + b) is None,
    decreases b.len(),
{
    let s = a + seq![c] + b;
    if b.len() == 0 {
        assert(s.last() == c);
    } else {
        assert(s.drop_last() =~= a + seq![c] + b.drop_last());
        lemma_letters_are_no_number(a, c, b.drop_last());
    }
}

/// The first pair of a key gives its value.
pub proof fn lemma_first_pair_counts(pairs: Seq<(&str, &str)>, key: Seq<char>, from: int, i: int)
    requires
        0 <= from <= i < pairs.len(),
        pairs[i].0@ == key,
        forall|j: int| from <= j < i ==> (#[trigger] pairs[j]).0@ != key,
    ensures
        pair_at(pairs, key, from) == i,
        from == 0 ==> value_of(pairs, key) == Some(pairs[i].1@),
    decreases i - from,
{
    if from < i {
        assert(pairs[from].0@ != key);
        lemma_first_pair_counts(pairs, key, from + 1, i);
    }
}

} // verus!
