//! Sets and tables kept as vectors in the order their entries were made.

use crate::ids::{DefId, HirId, Span, Symbol};
use vstd::prelude::*;

verus! {

/// Values that can be told apart at run time.
pub trait Same: Sized {
    fn same(&self, other: &Self) -> (r: bool)
        ensures
            r == (*self == *other),
    ;
}

impl Same for DefId {
    fn same(&self, other: &Self) -> (r: bool) {
        self.0 == other.0
    }
}

impl Same for Symbol {
    fn same(&self, other: &Self) -> (r: bool) {
        self.0 == other.0
    }
}

impl Same for HirId {
    fn same(&self, other: &Self) -> (r: bool) {
        self.0 == other.0
    }
}

impl Same for Span {
    fn same(&self, other: &Self) -> (r: bool) {
        self.lo == other.lo && self.hi == other.hi
    }
}

impl Same for bool {
    fn same(&self, other: &Self) -> (r: bool) {
        *self == *other
    }
}

impl Same for usize {
    fn same(&self, other: &Self) -> (r: bool) {
        *self == *other
    }
}

impl Same for u64 {
    fn same(&self, other: &Self) -> (r: bool) {
        *self == *other
    }
}

impl<A: Same, B: Same> Same for (A, B) {
    fn same(&self, other: &Self) -> (r: bool) {
        self.0.same(&other.0) && self.1.same(&other.1)
    }
}

impl<A: Same, B: Same, C: Same> Same for (A, B, C) {
    fn same(&self, other: &Self) -> (r: bool) {
        self.0.same(&other.0) && self.1.same(&other.1) && self.2.same(&other.2)
    }
}

impl<A: Same> Same for Option<A> {
    fn same(&self, other: &Self) -> (r: bool) {
        match (self, other) {
            (Some(a), Some(b)) => a.same(b),
            (None, None) => true,
            _ => false,
        }
    }
}

/// Where `k` first stands.
pub fn index_of<K: Same>(v: &Vec<K>, k: &K) -> (r: Option<usize>)
    ensures
        match r {
            Some(i) => i < v@.len() && v@[i as int] == *k && forall|j: int|
                0 <= j < i ==> v@[j] != *k,
            None => !v@.contains(*k),
        },
{
    let mut i: usize = 0;
    while i < v.len()
        invariant
            i <= v@.len(),
            forall|j: int| 0 <= j < i ==> v@[j] != *k,
        decreases v.len() - i,
    {
        if v[i].same(k) {
            return Some(i);
        }
        i = i + 1;
    }
    None
}

/// Whether `k` is among the entries.
pub fn is_in<K: Same>(v: &Vec<K>, k: &K) -> (r: bool)
    ensures
        r == v@.contains(*k),
{
    match index_of(v, k) {
        Some(i) => {
            assert(v@[i as int] == *k);
            true
        },
        None => false,
    }
}

/// `s`, and behind it `k` unless it is there.
pub open spec fn with_added<K>(s: Seq<K>, k: K) -> Seq<K> {
    if s.contains(k) {
        s
    } else {
        s.push(k)
    }
}

/// Adds `k` unless it is there.
pub fn add_new<K: Same>(v: &mut Vec<K>, k: K)
    ensures
        final(v)@ == with_added(old(v)@, k),
{
    if !is_in(v, &k) {
        v.push(k);
    }
}

/// Adding keeps what was there and adds the one.
pub proof fn lemma_added<K>(s: Seq<K>, k: K)
    ensures
        forall|x: K| #[trigger] with_added(s, k).contains(x) <==> s.contains(x) || x == k,
        s.no_duplicates() ==> with_added(s, k).no_duplicates(),
{
    let t = with_added(s, k);
    assert forall|x: K| #[trigger] t.contains(x) <==> s.contains(x) || x == k by {
        if !s.contains(k) {
            assert(t[s.len() as int] == k);
            if s.contains(x) {
                let i = choose|i: int| 0 <= i < s.len() && s[i] == x;
                assert(t[i] == x);
            }
            if t.contains(x) && x != k {
                let i = choose|i: int| 0 <= i < t.len() && t[i] == x;
                assert(s[i] == x);
            }
        }
    }
    if s.no_duplicates() && !s.contains(k) {
        assert forall|i: int, j: int| 0 <= i < t.len() && 0 <= j < t.len() && i != j implies t[i]
            != t[j] by {
            if i < s.len() && j == s.len() {
                assert(s.contains(s[i]));
            }
            if j < s.len() && i == s.len() {
                assert(s.contains(s[j]));
            }
        }
    }
}

/// The position of the first entry of a table with the key, or its length.
pub open spec fn key_at<K, V>(t: Seq<(K, V)>, k: K) -> int
    decreases t.len(),
{
    if t.len() == 0 {
        0
    } else if t[0].0 == k {
        0
    } else {
        1 + key_at(t.drop_first(), k)
    }
}

/// The table has an entry for the key.
pub open spec fn has_key<K, V>(t: Seq<(K, V)>, k: K) -> bool {
    key_at(t, k) < t.len()
}

/// What the table holds for the key.
pub open spec fn value_at<K, V>(t: Seq<(K, V)>, k: K) -> Option<V> {
    if has_key(t, k) {
        Some(t[key_at(t, k)].1)
    } else {
        None
    }
}

/// `key_at` is the first position with the key.
pub proof fn lemma_key_at<K, V>(t: Seq<(K, V)>, k: K)
    ensures
        0 <= key_at(t, k) <= t.len(),
        key_at(t, k) < t.len() ==> t[key_at(t, k)].0 == k,
        forall|j: int| 0 <= j < key_at(t, k) ==> (#[trigger] t[j]).0 != k,
    decreases t.len(),
{
    if t.len() > 0 && t[0].0 != k {
        let rest = t.drop_first();
        lemma_key_at(rest, k);
        assert forall|j: int| 0 <= j < key_at(t, k) implies (#[trigger] t[j]).0 != k by {
            if j > 0 {
                assert(rest[j - 1] == t[j]);
            }
        }
    }
}

/// A position with the key, behind none with it, is `key_at`.
pub proof fn lemma_key_at_is<K, V>(t: Seq<(K, V)>, k: K, i: int)
    requires
        0 <= i <= t.len(),
        i < t.len() ==> t[i].0 == k,
        forall|j: int| 0 <= j < i ==> (#[trigger] t[j]).0 != k,
    ensures
        key_at(t, k) == i,
{
    lemma_key_at(t, k);
    if key_at(t, k) < i {
        assert(t[key_at(t, k)].0 != k);
    }
}

/// The position of the entry with the key.
pub fn find_key<K: Same, V>(t: &Vec<(K, V)>, k: &K) -> (r: Option<usize>)
    ensures
        match r {
            Some(i) => i < t@.len() && i == key_at(t@, *k) && t@[i as int].0 == *k && has_key(
                t@,
                *k,
            ),
            None => !has_key(t@, *k) && key_at(t@, *k) == t@.len(),
        },
{
    let mut i: usize = 0;
    while i < t.len()
        invariant
            i <= t@.len(),
            forall|j: int| 0 <= j < i ==> (#[trigger] t@[j]).0 != *k,
        decreases t.len() - i,
    {
        if t[i].0.same(k) {
            proof {
                lemma_key_at_is(t@, *k, i as int);
            }
            return Some(i);
        }
        i = i + 1;
    }
    proof {
        lemma_key_at_is(t@, *k, i as int);
    }
    None
}

/// The values behind a list of references.
pub open spec fn behind<T>(v: Seq<&T>) -> Seq<T> {
    Seq::new(v.len(), |i: int| *v[i])
}

/// One list of references after another.
pub fn concat<'a, T>(a: Vec<&'a T>, b: Vec<&'a T>) -> (r: Vec<&'a T>)
    ensures
        behind(r@) == behind(a@) + behind(b@),
{
    let mut out = a;
    let mut i: usize = 0;
    assert(behind(out@) =~= behind(a@) + behind(b@).take(0));
    while i < b.len()
        invariant
            i <= b@.len(),
            behind(out@) == behind(a@) + behind(b@).take(i as int),
        decreases b.len() - i,
    {
        let ghost before = out@;
        out.push(b[i]);
        assert(behind(out@) =~= behind(before).push(*b@[i as int]));
        assert(behind(b@).take(i + 1) =~= behind(b@).take(i as int).push(*b@[i as int]));
        i = i + 1;
        assert(behind(out@) =~= behind(a@) + behind(b@).take(i as int));
    }
    assert(behind(b@).take(i as int) =~= behind(b@));
    out
}

/// The table with the key's value replaced, or the entry added.
pub open spec fn put<K, V>(t: Seq<(K, V)>, k: K, v: V) -> Seq<(K, V)> {
    if has_key(t, k) {
        t.update(key_at(t, k), (k, v))
    } else {
        t.push((k, v))
    }
}

pub fn put_key<K: Same, V>(t: &mut Vec<(K, V)>, k: K, v: V)
    ensures
        final(t)@ == put(old(t)@, k, v),
{
    match find_key(t, &k) {
        Some(i) => {
            t.set(i, (k, v));
        },
        None => {
            t.push((k, v));
        },
    }
}

/// Where an entry with the key goes among entries ordered by key: behind
/// those with the same one.
pub open spec fn key_slot<V>(s: Seq<(u64, V)>, key: u64) -> int
    decreases s.len(),
{
    if s.len() == 0 {
        0
    } else if s.last().0 <= key {
        s.len() as int
    } else {
        key_slot(s.drop_last(), key)
    }
}

/// The entries by ascending key, those with one key in the order they had.
pub open spec fn by_key<V>(s: Seq<(u64, V)>) -> Seq<(u64, V)>
    decreases s.len(),
{
    if s.len() == 0 {
        Seq::empty()
    } else {
        let rest = by_key(s.drop_last());
        rest.insert(key_slot(rest, s.last().0), s.last())
    }
}

pub proof fn lemma_key_slot<V>(s: Seq<(u64, V)>, key: u64)
    ensures
        0 <= key_slot(s, key) <= s.len(),
    decreases s.len(),
{
    if s.len() > 0 && s.last().0 > key {
        lemma_key_slot(s.drop_last(), key);
    }
}

pub fn sort_by_key<V: Copy>(v: &Vec<(u64, V)>) -> (r: Vec<(u64, V)>)
    ensures
        r@ == by_key(v@),
{
    let mut out: Vec<(u64, V)> = Vec::new();
    let mut i: usize = 0;
    assert(out@ =~= by_key(v@.take(0)));
    while i < v.len()
        invariant
            i <= v@.len(),
            out@ == by_key(v@.take(i as int)),
        decreases v.len() - i,
    {
        assert(v@.take(i + 1).drop_last() =~= v@.take(i as int));
        let (key, value) = v[i];
        let mut at: usize = out.len();
        assert(out@.take(at as int) =~= out@);
        while at > 0 && out[at - 1].0 > key
            invariant
                at <= out@.len(),
                key_slot(out@, key) == key_slot(out@.take(at as int), key),
            decreases at,
        {
            assert(out@.take(at as int).drop_last() =~= out@.take(at - 1));
            at = at - 1;
        }
        assert(key_slot(out@, key) == at);
        out.insert(at, (key, value));
        i = i + 1;
    }
    assert(v@.take(i as int) =~= v@);
    out
}

/// No entry has a greater key than one behind it.
pub open spec fn keys_ascend<V>(s: Seq<(u64, V)>) -> bool {
    forall|i: int, j: int| 0 <= i <= j < s.len() ==> (#[trigger] s[i]).0 <= (#[trigger] s[j]).0
}

proof fn lemma_slot_separates<V>(s: Seq<(u64, V)>, key: u64)
    requires
        keys_ascend(s),
    ensures
        0 <= key_slot(s, key) <= s.len(),
        forall|i: int| 0 <= i < key_slot(s, key) ==> (#[trigger] s[i]).0 <= key,
        forall|i: int| key_slot(s, key) <= i < s.len() ==> (#[trigger] s[i]).0 > key,
    decreases s.len(),
{
    if s.len() > 0 {
        let n = s.len() - 1;
        if s.last().0 <= key {
            assert forall|i: int| 0 <= i < s.len() implies (#[trigger] s[i]).0 <= key by {
                assert(s[i].0 <= s[n].0);
            }
        } else {
            let rest = s.drop_last();
            assert forall|i: int, j: int| 0 <= i <= j < rest.len() implies (#[trigger] rest[i]).0
                <= (#[trigger] rest[j]).0 by {
                assert(s[i].0 <= s[j].0);
            }
            lemma_slot_separates(rest, key);
            assert forall|i: int| 0 <= i < key_slot(s, key) implies (#[trigger] s[i]).0 <= key by {
                assert(rest[i].0 <= key);
            }
            assert forall|i: int| key_slot(s, key) <= i < s.len() implies (#[trigger] s[i]).0
                > key by {
                if i < n {
                    assert(rest[i].0 > key);
                }
            }
        }
    }
}

/// Ordering entries by key keeps every entry and leaves the keys ascending.
pub proof fn lemma_by_key<V>(s: Seq<(u64, V)>)
    ensures
        keys_ascend(by_key(s)),
        by_key(s).to_multiset() == s.to_multiset(),
        forall|x: (u64, V)| by_key(s).contains(x) <==> #[trigger] s.contains(x),
    decreases s.len(),
{
    if s.len() > 0 {
        let rest = by_key(s.drop_last());
        let x = s.last();
        let k = key_slot(rest, x.0);
        lemma_by_key(s.drop_last());
        lemma_slot_separates(rest, x.0);
        let all = by_key(s);
        assert forall|i: int, j: int| 0 <= i <= j < all.len() implies (#[trigger] all[i]).0 <= (
        #[trigger] all[j]).0 by {
            let a = if i < k { i } else { i - 1 };
            let b = if j < k { j } else { j - 1 };
            if i == k && j > k {
                assert(rest[b].0 > x.0);
            } else if j == k && i < k {
                assert(rest[a].0 <= x.0);
            } else if i != k && j != k {
                assert(rest[a].0 <= rest[b].0);
            }
        }
        vstd::seq_lib::to_multiset_insert(rest, k, x);
        vstd::seq_lib::to_multiset_build(s.drop_last(), x);
        assert(s =~= s.drop_last().push(x));
    } else {
        assert(by_key(s) =~= s);
    }
    by_key(s).to_multiset_ensures();
    s.to_multiset_ensures();
    assert forall|x: (u64, V)| by_key(s).contains(x) <==> #[trigger] s.contains(x) by {
        assert(by_key(s).contains(x) <==> by_key(s).to_multiset().count(x) > 0);
        assert(s.contains(x) <==> s.to_multiset().count(x) > 0);
    }
}

/// What is put under a key is what is found there, and every other key keeps
/// what it had.
pub proof fn lemma_put_and_get<K, V>(t: Seq<(K, V)>, k: K, v: V)
    ensures
        value_at(put(t, k, v), k) == Some(v),
        forall|other: K|
            other != k ==> #[trigger] value_at(put(t, k, v), other) == value_at(t, other),
{
    let u = put(t, k, v);
    let at = key_at(t, k);
    lemma_key_at(t, k);
    assert forall|j: int| 0 <= j < at implies (#[trigger] u[j]).0 != k by {
        assert(t[j].0 != k);
    }
    lemma_key_at_is(u, k, at);
    assert forall|other: K| other != k implies #[trigger] value_at(u, other) == value_at(
        t,
        other,
    ) by {
        let i = key_at(t, other);
        lemma_key_at(t, other);
        if i < t.len() {
            assert forall|j: int| 0 <= j < i implies (#[trigger] u[j]).0 != other by {
                assert(t[j].0 != other);
            }
            lemma_key_at_is(u, other, i);
        } else {
            assert forall|j: int| 0 <= j < u.len() implies (#[trigger] u[j]).0 != other by {
                if j < t.len() {
                    assert(t[j].0 != other);
                }
            }
            lemma_key_at_is(u, other, u.len() as int);
        }
    }
}

/// A key that is in the table has a value, that of its first entry.
pub proof fn lemma_first_entry<K, V>(t: Seq<(K, V)>, i: int)
    requires
        0 <= i < t.len(),
    ensures
        value_at(t, t[i].0) is Some,
        (forall|j: int| 0 <= j < i ==> (#[trigger] t[j]).0 != t[i].0) ==> value_at(t, t[i].0)
            == Some(t[i].1),
{
    lemma_key_at(t, t[i].0);
    if forall|j: int| 0 <= j < i ==> (#[trigger] t[j]).0 != t[i].0 {
        lemma_key_at_is(t, t[i].0, i);
    }
}

/// What is in two lists in a row is in one of them.
pub proof fn lemma_either<T>(a: Seq<T>, b: Seq<T>, x: T)
    ensures
        (a + b).contains(x) <==> a.contains(x) || b.contains(x),
{
    let s = a + b;
    if s.contains(x) {
        let i = choose|i: int| 0 <= i < s.len() && s[i] == x;
        if i < a.len() {
            assert(a[i] == x);
        } else {
            assert(b[i - a.len()] == x);
        }
    }
    if a.contains(x) {
        let i = choose|i: int| 0 <= i < a.len() && a[i] == x;
        assert(s[i] == x);
    }
    if b.contains(x) {
        let i = choose|i: int| 0 <= i < b.len() && b[i] == x;
        assert(s[a.len() + i] == x);
    }
}

/// A list with one more at its end holds that and what it held.
pub proof fn lemma_pushed<T>(s: Seq<T>, a: T, x: T)
    ensures
        s.push(a).contains(x) <==> s.contains(x) || a == x,
{
    let t = s.push(a);
    assert(t[s.len() as int] == a);
    if s.contains(x) {
        let i = choose|i: int| 0 <= i < s.len() && s[i] == x;
        assert(t[i] == x);
    }
    if t.contains(x) {
        let i = choose|i: int| 0 <= i < t.len() && t[i] == x;
        if i < s.len() {
            assert(s[i] == x);
        }
    }
}

} // verus!
