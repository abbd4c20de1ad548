//! A set of small numbers, one bit each.

use vstd::prelude::*;

verus! {

/// A set of numbers below some bound, packed into words.
#[derive(Debug)]
pub struct Bits {
    pub words: Vec<u64>,
}

/// Bit `i` of `word`.
pub open spec fn bit(word: u64, i: int) -> bool {
    word & (1u64 << (i as u64)) != 0
}

/// How many words hold `n` bits.
pub open spec fn words_for(n: nat) -> nat {
    if n % 64 == 0 {
        n / 64
    } else {
        n / 64 + 1
    }
}

/// The words' sum, which shrinks whenever a bit is lost.
pub open spec fn total(words: Seq<u64>) -> nat
    decreases words.len(),
{
    if words.len() == 0 {
        0
    } else {
        total(words.drop_last()) + words.last() as nat
    }
}

impl Bits {
    /// The number `i` is in the set.
    pub open spec fn contains(self, i: int) -> bool {
        0 <= i < 64 * self.words@.len() && bit(self.words@[i / 64], i % 64)
    }

    /// The set can hold exactly the numbers below `n`.
    pub open spec fn sized(self, n: nat) -> bool {
        self.words@.len() == words_for(n)
    }

    /// Every number below `n`.
    pub fn full(n: usize) -> (r: Bits)
        ensures
            r.sized(n as nat),
            forall|i: int| #[trigger] r.contains(i) == (0 <= i < n),
    {
        let len: usize = word_count(n);
        let mut words: Vec<u64> = Vec::new();
        let mut k: usize = 0;
        while k < len
            invariant
                k <= len,
                len == words_for(n as nat),
                words@.len() == k,
                forall|j: int| 0 <= j < k ==> #[trigger] words@[j] == full_word(n, j),
            decreases len - k,
        {
            if k == n / 64 {
                let s: u64 = (n % 64) as u64;
                proof {
                    assert(s < 64 ==> (1u64 << s) >= 1) by (bit_vector);
                }
                words.push((1u64 << s) - 1);
            } else {
                words.push(0xffff_ffff_ffff_ffff);
            }
            k = k + 1;
        }
        let r = Bits { words };
        proof {
            assert forall|i: int| #[trigger] r.contains(i) == (0 <= i < n) by {
                if 0 <= i < 64 * r.words@.len() {
                    lemma_full_word(n, i);
                }
            }
        }
        r
    }

    /// No number.
    pub fn empty(n: usize) -> (r: Bits)
        ensures
            r.sized(n as nat),
            forall|i: int| !#[trigger] r.contains(i),
    {
        let len: usize = word_count(n);
        let mut words: Vec<u64> = Vec::new();
        let mut k: usize = 0;
        while k < len
            invariant
                k <= len,
                words@.len() == k,
                forall|j: int| 0 <= j < k ==> #[trigger] words@[j] == 0,
            decreases len - k,
        {
            words.push(0);
            k = k + 1;
        }
        let r = Bits { words };
        proof {
            assert forall|i: int| !#[trigger] r.contains(i) by {
                if 0 <= i < 64 * r.words@.len() {
                    let s: u64 = (i % 64) as u64;
                    assert(0u64 & (1u64 << s) == 0) by (bit_vector);
                }
            }
        }
        r
    }

    /// Adds `i`.
    pub fn set(&mut self, i: usize)
        requires
            i < 64 * old(self).words@.len(),
        ensures
            final(self).words@.len() == old(self).words@.len(),
            forall|j: int| #[trigger]
                final(self).contains(j) == (old(self).contains(j) || j == i),
    {
        let ghost before = *self;
        let w: usize = i / 64;
        let s: u64 = (i % 64) as u64;
        let word = self.words[w] | (1u64 << s);
        self.words.set(w, word);
        proof {
            let old_word = before.words@[w as int];
            assert forall|j: int| #[trigger] self.contains(j) == (before.contains(j) || j == i) by {
                if 0 <= j < 64 * self.words@.len() && j / 64 == w {
                    let t: u64 = (j % 64) as u64;
                    assert(s < 64 && t < 64 ==> ((old_word | (1u64 << s)) & (1u64 << t) != 0) == (
                    old_word & (1u64 << t) != 0 || s == t)) by (bit_vector);
                }
            }
        }
    }

    /// Whether `i` is in the set.
    pub fn has(&self, i: usize) -> (r: bool)
        requires
            i < 64 * self.words@.len(),
        ensures
            r == self.contains(i as int),
    {
        self.words[i / 64] & (1u64 << ((i % 64) as u64)) != 0
    }

    /// Keeps only what `o` holds too.
    pub fn and_assign(&mut self, o: &Bits)
        requires
            old(self).words@.len() == o.words@.len(),
        ensures
            final(self).words@.len() == old(self).words@.len(),
            forall|j: int| #[trigger]
                final(self).contains(j) == (old(self).contains(j) && o.contains(j)),
    {
        let ghost before = *self;
        let mut k: usize = 0;
        while k < self.words.len()
            invariant
                k <= self.words@.len() == before.words@.len() == o.words@.len(),
                forall|j: int|
                    0 <= j < k ==> #[trigger] self.words@[j] == before.words@[j] & o.words@[j],
                forall|j: int| k <= j < self.words@.len() ==> self.words@[j] == before.words@[j],
            decreases self.words.len() - k,
        {
            let word = self.words[k] & o.words[k];
            self.words.set(k, word);
            k = k + 1;
        }
        proof {
            assert forall|j: int| #[trigger] self.contains(j) == (before.contains(j) && o.contains(
                j,
            )) by {
                if 0 <= j < 64 * self.words@.len() {
                    let a = before.words@[j / 64];
                    let b = o.words@[j / 64];
                    let t: u64 = (j % 64) as u64;
                    assert(((a & b) & (1u64 << t) != 0) == (a & (1u64 << t) != 0 && b & (1u64 << t)
                        != 0)) by (bit_vector);
                }
            }
        }
    }

    /// Whether two sets are stored alike.
    pub fn same(&self, o: &Bits) -> (r: bool)
        ensures
            r == (self.words@ == o.words@),
    {
        if self.words.len() != o.words.len() {
            return false;
        }
        let mut k: usize = 0;
        while k < self.words.len()
            invariant
                k <= self.words@.len() == o.words@.len(),
                forall|j: int| 0 <= j < k ==> self.words@[j] == o.words@[j],
            decreases self.words.len() - k,
        {
            if self.words[k] != o.words[k] {
                return false;
            }
            k = k + 1;
        }
        assert(self.words@ =~= o.words@);
        true
    }
}

fn word_count(n: usize) -> (r: usize)
    ensures
        r == words_for(n as nat),
{
    if n % 64 == 0 {
        n / 64
    } else {
        n / 64 + 1
    }
}

/// Word `k` of the full set of the numbers below `n`.
spec fn full_word(n: usize, k: int) -> u64 {
    if k == n / 64 {
        ((1u64 << ((n % 64) as u64)) - 1) as u64
    } else {
        0xffff_ffff_ffff_ffff
    }
}

proof fn lemma_full_word(n: usize, i: int)
    requires
        0 <= i < 64 * words_for(n as nat),
    ensures
        bit(full_word(n, i / 64), i % 64) == (i < n),
{
    let s: u64 = (n % 64) as u64;
    let t: u64 = (i % 64) as u64;
    assert(s < 64 && t < 64 ==> ((((1u64 << s) - 1) as u64) & (1u64 << t) != 0) == (t < s))
        by (bit_vector);
    assert(t < 64 ==> 0xffff_ffff_ffff_ffffu64 & (1u64 << t) != 0) by (bit_vector);
}

/// A word all of whose bits another word has is no larger.
proof fn lemma_subset_word_le(a: u64, b: u64, k: u64)
    requires
        k <= 63,
        forall|t: int| k <= t < 64 ==> (#[trigger] bit(a, t) ==> bit(b, t)),
    ensures
        a >> k <= b >> k,
    decreases 64 - k,
{
    assert(bit(a, k as int) ==> bit(b, k as int));
    if k == 63 {
        assert((a & (1u64 << 63) != 0 ==> b & (1u64 << 63) != 0) ==> (a >> 63) <= (b >> 63))
            by (bit_vector);
    } else {
        let k1: u64 = (k + 1) as u64;
        lemma_subset_word_le(a, b, k1);
        assert(k < 63 && k1 == k + 1 && (a >> k1) <= (b >> k1) && (a & (1u64 << k) != 0 ==> b & (
        1u64 << k) != 0) ==> (a >> k) <= (b >> k)) by (bit_vector);
    }
}

/// Sets of one size with the same numbers are stored alike.
pub proof fn lemma_same_numbers_same_words(a: Bits, b: Bits)
    requires
        a.words@.len() == b.words@.len(),
        forall|i: int| #[trigger] a.contains(i) == b.contains(i),
    ensures
        a.words@ == b.words@,
{
    assert forall|k: int| 0 <= k < a.words@.len() implies a.words@[k] == b.words@[k] by {
        lemma_subset_words_le(a, b, k);
        lemma_subset_words_le(b, a, k);
    }
}

/// A subset's words are no larger.
proof fn lemma_subset_words_le(a: Bits, b: Bits, k: int)
    requires
        a.words@.len() == b.words@.len(),
        forall|i: int| #[trigger] a.contains(i) ==> b.contains(i),
        0 <= k < a.words@.len(),
    ensures
        a.words@[k] <= b.words@[k],
{
    let x = a.words@[k];
    let y = b.words@[k];
    assert forall|t: int| 0 <= t < 64 && #[trigger] bit(x, t) implies bit(y, t) by {
        let i = 64 * k + t;
        assert(i / 64 == k && i % 64 == t);
        assert(a.contains(i) ==> b.contains(i));
    }
    lemma_subset_word_le(x, y, 0);
    assert(x >> 0 == x && y >> 0 == y) by (bit_vector);
}

/// A subset stored differently has a smaller total.
pub proof fn lemma_proper_subset_total(a: Bits, b: Bits)
    requires
        a.words@.len() == b.words@.len(),
        forall|i: int| #[trigger] a.contains(i) ==> b.contains(i),
        a.words@ != b.words@,
    ensures
        total(a.words@) < total(b.words@),
{
    assert forall|k: int| 0 <= k < a.words@.len() implies a.words@[k] <= b.words@[k] by {
        lemma_subset_words_le(a, b, k);
    }
    lemma_total_lt(a.words@, b.words@);
}

proof fn lemma_total_lt(a: Seq<u64>, b: Seq<u64>)
    requires
        a.len() == b.len(),
        forall|k: int| 0 <= k < a.len() ==> a[k] <= b[k],
    ensures
        total(a) <= total(b),
        a != b ==> total(a) < total(b),
    decreases a.len(),
{
    if a.len() > 0 {
        assert forall|k: int| 0 <= k < a.drop_last().len() implies a.drop_last()[k]
            <= b.drop_last()[k] by {
            assert(a[k] <= b[k]);
        }
        lemma_total_lt(a.drop_last(), b.drop_last());
        assert(a[a.len() - 1] <= b[b.len() - 1]);
        if a != b && a.last() == b.last() && a.drop_last() == b.drop_last() {
            assert(a == a.drop_last().push(a.last()));
            assert(b == b.drop_last().push(b.last()));
        }
    } else {
        assert(a == b);
    }
}

} // verus!
