//! A function whose signature and body repeat another function's is one helper
//! written twice; anything that differs in type or shape is not.

use vstd::prelude::*;

verus! {

/// The sum, or the limit if that is less.
pub open spec fn clamped(a: int, b: int, limit: int) -> int {
    if a + b > limit {
        limit
    } else {
        a + b
    }
}

pub fn clamp_add(base: u32, delta: u32, limit: u32) -> (r: u32)
    ensures
        r == clamped(base as int, delta as int, limit as int),
{
    let sum: u32 = base.saturating_add(delta);
    if sum > limit {
        limit
    } else {
        sum
    }
}

/// `clamp_add` again with the parameters renamed.
pub fn bounded_sum(a: u32, b: u32, max: u32) -> (r: u32)
    ensures
        r == clamped(a as int, b as int, max as int),
{
    let total: u32 = a.saturating_add(b);
    if total > max {
        max
    } else {
        total
    }
}

/// The same shape over wider numbers.
pub fn clamp_add_wide(base: u64, delta: u64, limit: u64) -> (r: u64)
    ensures
        r == clamped(base as int, delta as int, limit as int),
{
    let sum: u64 = base.saturating_add(delta);
    if sum > limit {
        limit
    } else {
        sum
    }
}

/// The same shape with one operator changed.
pub fn clamp_add_inclusive(base: u32, delta: u32, limit: u32) -> (r: u32)
    ensures
        r == clamped(base as int, delta as int, limit as int),
{
    let sum: u32 = base.saturating_add(delta);
    if sum >= limit {
        limit
    } else {
        sum
    }
}

#[derive(Debug)]
pub struct Row {
    pub cells: Vec<u32>,
    pub pad: u32,
}

#[derive(Debug)]
pub struct Column {
    pub cells: Vec<u32>,
    pub pad: u32,
}

/// What the cells add up to.
pub open spec fn total(cells: Seq<u32>) -> nat
    decreases cells.len(),
{
    if cells.len() == 0 {
        0
    } else {
        total(cells.drop_last()) + cells.last() as nat
    }
}

proof fn lemma_total_take(cells: Seq<u32>, i: int)
    requires
        0 <= i <= cells.len(),
    ensures
        total(cells.take(i)) <= total(cells),
    decreases cells.len() - i,
{
    if i < cells.len() {
        lemma_total_take(cells, i + 1);
        assert(cells.take(i + 1).drop_last() =~= cells.take(i));
    } else {
        assert(cells.take(i) =~= cells);
    }
}

fn sum(cells: &Vec<u32>) -> (r: u32)
    requires
        total(cells@) <= u32::MAX,
    ensures
        r == total(cells@),
{
    let mut out: u32 = 0;
    let mut i: usize = 0;
    while i < cells.len()
        invariant
            i <= cells@.len(),
            total(cells@) <= u32::MAX,
            out == total(cells@.take(i as int)),
        decreases cells.len() - i,
    {
        proof {
            lemma_total_take(cells@, i + 1);
            assert(cells@.take(i + 1).drop_last() =~= cells@.take(i as int));
        }
        out = out + cells[i];
        i = i + 1;
    }
    assert(cells@.take(i as int) =~= cells@);
    out
}

impl Row {
    pub fn extent(&self) -> (r: u32)
        requires
            total(self.cells@) + self.pad * 2 + 1 <= u32::MAX,
        ensures
            r == total(self.cells@) + self.pad * 2 + 1,
    {
        sum(&self.cells) + self.pad * 2 + 1
    }

    /// The same computation as `extent` on the same type.
    pub fn footprint(&self) -> (r: u32)
        requires
            total(self.cells@) + self.pad * 2 + 1 <= u32::MAX,
        ensures
            r == total(self.cells@) + self.pad * 2 + 1,
    {
        sum(&self.cells) + self.pad * 2 + 1
    }

    /// Too small to compare.
    pub fn pad(&self) -> (r: u32)
        ensures
            r == self.pad,
    {
        self.pad
    }

    /// An accessor as small as `pad`.
    pub fn margin(&self) -> (r: u32)
        ensures
            r == self.pad,
    {
        self.pad
    }

    fn remap(&self, from: u32, to: u32) -> (r: u32)
        requires
            from <= to,
            self.pad + (to - from) <= u32::MAX,
        ensures
            r == self.pad + (to - from),
    {
        if to > from {
            self.pad + (to - from)
        } else {
            self.pad.saturating_sub(from - to)
        }
    }
}

impl Column {
    /// Spelled like `Row::extent`, but of another type.
    pub fn extent(&self) -> (r: u32)
        requires
            total(self.cells@) + self.pad * 2 + 1 <= u32::MAX,
        ensures
            r == total(self.cells@) + self.pad * 2 + 1,
    {
        sum(&self.cells) + self.pad * 2 + 1
    }
}

pub trait Resize {
    /// The size after a change from one number to another.
    spec fn resized(&self, from: u32, to: u32) -> int;

    fn grow(&self, from: u32, to: u32) -> (r: u32)
        requires
            self.resized(from, to) <= u32::MAX,
        ensures
            r == self.resized(from, to),
    ;

    fn shrink(&self, from: u32, to: u32) -> (r: u32)
        requires
            self.resized(from, to) <= u32::MAX,
        ensures
            r == self.resized(from, to),
    ;
}

/// The trait obliges the impl to define both, and each already forwards to the
/// one shared helper.
impl Resize for Row {
    open spec fn resized(&self, from: u32, to: u32) -> int {
        self.pad + (if to > from {
            to - from
        } else {
            from - to
        }) + (self.cells@.len() as u32)
    }

    fn grow(&self, from: u32, to: u32) -> (r: u32) {
        let lo: u32 = if from < to {
            from
        } else {
            to
        };
        let hi: u32 = if from < to {
            to
        } else {
            from
        };
        self.remap(lo, hi) + self.cells.len() as u32
    }

    fn shrink(&self, from: u32, to: u32) -> (r: u32) {
        let lo: u32 = if from < to {
            from
        } else {
            to
        };
        let hi: u32 = if from < to {
            to
        } else {
            from
        };
        self.remap(lo, hi) + self.cells.len() as u32
    }
}

/// The even ones, doubled.
pub open spec fn evens_doubled(xs: Seq<u32>) -> Seq<int>
    decreases xs.len(),
{
    if xs.len() == 0 {
        Seq::empty()
    } else if xs.last() % 2 == 0 {
        evens_doubled(xs.drop_last()).push(xs.last() * 2)
    } else {
        evens_doubled(xs.drop_last())
    }
}

/// The even ones can be doubled.
pub open spec fn evens_fit(xs: Seq<u32>) -> bool {
    forall|i: int| 0 <= i < xs.len() && (#[trigger] xs[i]) % 2 == 0 ==> xs[i] * 2 <= u32::MAX
}

/// Numbers as mathematical ones.
pub open spec fn ints(v: Seq<u32>) -> Seq<int> {
    v.map_values(|x: u32| x as int)
}

pub fn doubled_evens(xs: &[u32]) -> (r: Vec<u32>)
    requires
        evens_fit(xs@),
    ensures
        ints(r@) == evens_doubled(xs@),
{
    let mut out: Vec<u32> = Vec::new();
    let mut i: usize = 0;
    assert(ints(out@) =~= evens_doubled(xs@.take(0)));
    while i < xs.len()
        invariant
            i <= xs@.len(),
            evens_fit(xs@),
            ints(out@) == evens_doubled(xs@.take(i as int)),
        decreases xs.len() - i,
    {
        assert(xs@.take(i + 1).drop_last() =~= xs@.take(i as int));
        let x: u32 = xs[i];
        if x % 2 == 0 {
            let ghost before = out@;
            out.push(x * 2);
            assert(ints(out@) =~= ints(before).push(x * 2));
        }
        i = i + 1;
    }
    assert(xs@.take(i as int) =~= xs@);
    out
}

/// The copy of `doubled_evens`.
pub fn twice_the_evens(values: &[u32]) -> (r: Vec<u32>)
    requires
        evens_fit(values@),
    ensures
        ints(r@) == evens_doubled(values@),
{
    let mut kept: Vec<u32> = Vec::new();
    let mut k: usize = 0;
    assert(ints(kept@) =~= evens_doubled(values@.take(0)));
    while k < values.len()
        invariant
            k <= values@.len(),
            evens_fit(values@),
            ints(kept@) == evens_doubled(values@.take(k as int)),
        decreases values.len() - k,
    {
        assert(values@.take(k + 1).drop_last() =~= values@.take(k as int));
        let v: u32 = values[k];
        if v % 2 == 0 {
            let ghost before = kept@;
            kept.push(v * 2);
            assert(ints(kept@) =~= ints(before).push(v * 2));
        }
        k = k + 1;
    }
    assert(values@.take(k as int) =~= values@);
    kept
}

/// A change counts the same whichever way it goes.
pub proof fn lemma_resize_is_symmetric(row: Row, from: u32, to: u32)
    ensures
        row.resized(from, to) == row.resized(to, from),
{
}

/// A clamped sum is the sum where that is within the limit, and never beyond
/// it.
pub proof fn lemma_clamped(a: int, b: int, limit: int)
    ensures
        clamped(a, b, limit) <= limit,
        clamped(a, b, limit) <= a + b,
        clamped(a, b, limit) == limit || clamped(a, b, limit) == a + b,
        clamped(a, b, limit) == clamped(b, a, limit),
{
}

/// A total is what each cell adds, whichever way the cells are split.
pub proof fn lemma_total_adds_up(a: Seq<u32>, b: Seq<u32>, x: u32)
    ensures
        total(seq![x]) == x,
        total(a + b) == total(a) + total(b),
    decreases b.len(),
{
    reveal_with_fuel(total, 2);
    assert(seq![x].drop_last() =~= Seq::empty());
    if b.len() == 0 {
        assert(a + b =~= a);
    } else {
        assert((a + b).drop_last() =~= a + b.drop_last());
        lemma_total_adds_up(a, b.drop_last(), x);
    }
}

/// An even number comes out doubled, an odd one does not come out, and they
/// keep their order.
pub proof fn lemma_evens_doubled(a: Seq<u32>, x: u32, b: Seq<u32>)
    ensures
        x % 2 == 0 ==> evens_doubled(a.push(x)) == evens_doubled(a).push(2 * x),
        x % 2 == 1 ==> evens_doubled(a.push(x)) == evens_doubled(a),
        evens_doubled(a + b) == evens_doubled(a) + evens_doubled(b),
    decreases b.len(),
{
    assert(a.push(x).drop_last() =~= a);
    if b.len() == 0 {
        assert(a + b =~= a);
        assert(evens_doubled(a) + evens_doubled(b) =~= evens_doubled(a));
    } else {
        let front = b.drop_last();
        assert((a + b).drop_last() =~= a + front);
        lemma_evens_doubled(a, x, front);
        assert(evens_doubled(a + b) =~= evens_doubled(a) + evens_doubled(b));
    }
}

} // verus!
