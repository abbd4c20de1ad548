//! Tables kept in dictionary order of their keys, each key once.

use crate::report::{in_order, text_le, text_slot};
use vstd::prelude::*;

verus! {

/// `a` comes before `b` in dictionary order.
pub open spec fn text_lt(a: Seq<char>, b: Seq<char>) -> bool {
    !text_le(b, a)
}

/// A text comes no later than itself.
pub proof fn lemma_text_le_reflexive(a: Seq<char>)
    ensures
        text_le(a, a),
    decreases a.len(),
{
    if a.len() > 0 {
        lemma_text_le_reflexive(a.drop_first());
    }
}

/// Of two texts one comes no later than the other, and if both do they are
/// one.
pub proof fn lemma_text_le_total(a: Seq<char>, b: Seq<char>)
    ensures
        text_le(a, b) || text_le(b, a),
        text_le(a, b) && text_le(b, a) ==> a == b,
    decreases a.len(),
{
    if a.len() > 0 && b.len() > 0 && a[0] == b[0] {
        lemma_text_le_total(a.drop_first(), b.drop_first());
        if a.drop_first() == b.drop_first() {
            assert(a =~= seq![a[0]] + a.drop_first());
            assert(b =~= seq![b[0]] + b.drop_first());
        }
    } else if a.len() == 0 && b.len() == 0 {
        assert(a =~= b);
    }
}

/// Dictionary order is transitive.
pub proof fn lemma_text_le_transitive(a: Seq<char>, b: Seq<char>, c: Seq<char>)
    requires
        text_le(a, b),
        text_le(b, c),
    ensures
        text_le(a, c),
    decreases a.len(),
{
    if a.len() > 0 && b.len() > 0 && c.len() > 0 && a[0] == b[0] && b[0] == c[0] {
        lemma_text_le_transitive(a.drop_first(), b.drop_first(), c.drop_first());
    }
}

proof fn lemma_text_lt_transitive(a: Seq<char>, b: Seq<char>, c: Seq<char>)
    requires
        text_lt(a, b),
        text_lt(b, c),
    ensures
        text_lt(a, c),
{
    lemma_text_le_total(a, b);
    if text_le(c, a) {
        lemma_text_le_transitive(c, a, b);
    }
}

/// No text comes later than one behind it.
pub open spec fn texts_ascend(s: Seq<Seq<char>>) -> bool {
    forall|i: int, j: int|
        0 <= i <= j < s.len() ==> text_le(#[trigger] s[i], #[trigger] s[j])
}

proof fn lemma_text_slot(s: Seq<Seq<char>>, x: Seq<char>)
    requires
        texts_ascend(s),
    ensures
        0 <= text_slot(s, x) <= s.len(),
        forall|i: int| 0 <= i < text_slot(s, x) ==> text_le(#[trigger] s[i], x),
        forall|i: int| text_slot(s, x) <= i < s.len() ==> !text_le(#[trigger] s[i], x),
    decreases s.len(),
{
    if s.len() > 0 {
        let n = s.len() - 1;
        if text_le(s.last(), x) {
            assert forall|i: int| 0 <= i < s.len() implies text_le(#[trigger] s[i], x) by {
                lemma_text_le_transitive(s[i], s[n], x);
            }
        } else {
            let rest = s.drop_last();
            assert forall|i: int, j: int| 0 <= i <= j < rest.len() implies text_le(
                #[trigger] rest[i],
                #[trigger] rest[j],
            ) by {
                assert(text_le(s[i], s[j]));
            }
            lemma_text_slot(rest, x);
            assert forall|i: int| 0 <= i < text_slot(s, x) implies text_le(#[trigger] s[i], x) by {
                assert(text_le(rest[i], x));
            }
            assert forall|i: int| text_slot(s, x) <= i < s.len() implies !text_le(
                #[trigger] s[i],
                x,
            ) by {
                if i < n {
                    assert(!text_le(rest[i], x));
                }
            }
        }
    }
}

/// Sorted texts ascend.
pub proof fn lemma_in_order_ascends(s: Seq<Seq<char>>)
    ensures
        texts_ascend(in_order(s)),
    decreases s.len(),
{
    if s.len() > 0 {
        let rest = in_order(s.drop_last());
        let x = s.last();
        let k = text_slot(rest, x);
        lemma_in_order_ascends(s.drop_last());
        lemma_text_slot(rest, x);
        let all = in_order(s);
        assert forall|i: int, j: int| 0 <= i <= j < all.len() implies text_le(
            #[trigger] all[i],
            #[trigger] all[j],
        ) by {
            let a = if i < k { i } else { i - 1 };
            let b = if j < k { j } else { j - 1 };
            if i == k && j == k {
                lemma_text_le_reflexive(x);
            } else if i == k {
                assert(!text_le(rest[b], x));
                lemma_text_le_total(rest[b], x);
            } else if j == k {
                assert(text_le(rest[a], x));
            } else {
                assert(text_le(rest[a], rest[b]));
            }
        }
    }
}

/// The keys ascend.
pub open spec fn ascends<V>(m: Seq<(Seq<char>, V)>) -> bool {
    forall|i: int, j: int|
        0 <= i < j < m.len() ==> text_lt((#[trigger] m[i]).0, (#[trigger] m[j]).0)
}

/// Where the key stands or would stand: behind every smaller one.
pub open spec fn place<V>(m: Seq<(Seq<char>, V)>, k: Seq<char>) -> int
    decreases m.len(),
{
    if m.len() == 0 {
        0
    } else if text_lt(m.last().0, k) {
        m.len() as int
    } else {
        place(m.drop_last(), k)
    }
}

/// The table has the key.
pub open spec fn holds<V>(m: Seq<(Seq<char>, V)>, k: Seq<char>) -> bool {
    place(m, k) < m.len() && m[place(m, k)].0 == k
}

/// The value at the key.
pub open spec fn found<V>(m: Seq<(Seq<char>, V)>, k: Seq<char>) -> Option<V> {
    if holds(m, k) {
        Some(m[place(m, k)].1)
    } else {
        None
    }
}

/// The table with the value at the key.
pub open spec fn put<V>(m: Seq<(Seq<char>, V)>, k: Seq<char>, v: V) -> Seq<(Seq<char>, V)> {
    if holds(m, k) {
        m.update(place(m, k), (k, v))
    } else {
        m.insert(place(m, k), (k, v))
    }
}

/// The table without the key.
pub open spec fn without<V>(m: Seq<(Seq<char>, V)>, k: Seq<char>) -> Seq<(Seq<char>, V)> {
    if holds(m, k) {
        m.remove(place(m, k))
    } else {
        m
    }
}

/// What stands before the place of a key is smaller than it, and the rest is
/// not.
pub proof fn lemma_place<V>(m: Seq<(Seq<char>, V)>, k: Seq<char>)
    requires
        ascends(m),
    ensures
        0 <= place(m, k) <= m.len(),
        forall|i: int| 0 <= i < place(m, k) ==> text_lt((#[trigger] m[i]).0, k),
        forall|i: int| place(m, k) <= i < m.len() ==> !text_lt((#[trigger] m[i]).0, k),
    decreases m.len(),
{
    if m.len() > 0 {
        let n = m.len() - 1;
        if text_lt(m.last().0, k) {
            assert forall|i: int| 0 <= i < m.len() implies text_lt((#[trigger] m[i]).0, k) by {
                if i < n {
                    lemma_text_lt_transitive(m[i].0, m[n].0, k);
                }
            }
        } else {
            assert(ascends(m.drop_last()));
            lemma_place(m.drop_last(), k);
            assert forall|i: int| 0 <= i < place(m, k) implies text_lt((#[trigger] m[i]).0, k) by {
                assert(m.drop_last()[i] == m[i]);
            }
            assert forall|i: int| place(m, k) <= i < m.len() implies !text_lt(
                (#[trigger] m[i]).0,
                k,
            ) by {
                if i < n {
                    assert(m.drop_last()[i] == m[i]);
                }
            }
        }
    }
}

/// A key that stands anywhere stands at its place.
pub proof fn lemma_found<V>(m: Seq<(Seq<char>, V)>, i: int)
    requires
        ascends(m),
        0 <= i < m.len(),
    ensures
        place(m, m[i].0) == i,
        found(m, m[i].0) == Some(m[i].1),
{
    let k = m[i].0;
    lemma_place(m, k);
    lemma_text_le_reflexive(k);
    let p = place(m, k);
    if p < i {
        assert(text_lt(m[p].0, m[i].0));
        assert(!text_lt(m[p].0, k));
    }
    if p > i {
        assert(text_lt(m[i].0, k));
    }
}

/// Putting a value in keeps the order, is found again, and leaves every other
/// key alone.
pub proof fn lemma_put<V>(m: Seq<(Seq<char>, V)>, k: Seq<char>, v: V)
    requires
        ascends(m),
    ensures
        ascends(put(m, k, v)),
        found(put(m, k, v), k) == Some(v),
        forall|other: Seq<char>| other != k ==> #[trigger] found(put(m, k, v), other) == found(
            m,
            other,
        ),
{
    lemma_place(m, k);
    let p = place(m, k);
    let r = put(m, k, v);
    assert forall|i: int, j: int| 0 <= i < j < r.len() implies text_lt(
        (#[trigger] r[i]).0,
        (#[trigger] r[j]).0,
    ) by {
        if holds(m, k) {
            assert(r[i].0 == m[i].0);
            assert(r[j].0 == m[j].0);
        } else {
            let a = if i < p {
                i
            } else {
                i - 1
            };
            let b = if j < p {
                j
            } else {
                j - 1
            };
            if i != p {
                assert(r[i] == m[a]);
            }
            if j != p {
                assert(r[j] == m[b]);
            }
            if i == p {
                lemma_text_le_total(m[b].0, k);
                assert(!text_lt(m[b].0, k));
                if text_le(m[b].0, k) {
                    assert(m[b].0 == k);
                    lemma_found(m, b);
                }
            }
        }
    }
    assert(r[p] == (k, v));
    lemma_found(r, p);
    assert forall|other: Seq<char>| other != k implies #[trigger] found(r, other) == found(
        m,
        other,
    ) by {
        if holds(m, other) {
            let q = place(m, other);
            lemma_place(m, other);
            let q2 = if holds(m, k) || q < p {
                q
            } else {
                q + 1
            };
            assert(r[q2] == m[q]);
            lemma_found(r, q2);
        }
        if holds(r, other) {
            let q = place(r, other);
            lemma_place(r, other);
            assert(q != p);
            let q2 = if holds(m, k) || q < p {
                q
            } else {
                q - 1
            };
            assert(r[q] == m[q2]);
            lemma_found(m, q2);
        }
    }
}

/// Taking a key out keeps the order, and leaves every other key alone.
pub proof fn lemma_without<V>(m: Seq<(Seq<char>, V)>, k: Seq<char>)
    requires
        ascends(m),
    ensures
        ascends(without(m, k)),
        found(without(m, k), k) is None,
        forall|other: Seq<char>| other != k ==> #[trigger] found(without(m, k), other) == found(
            m,
            other,
        ),
{
    lemma_place(m, k);
    let p = place(m, k);
    let r = without(m, k);
    if holds(m, k) {
        assert forall|i: int, j: int| 0 <= i < j < r.len() implies text_lt(
            (#[trigger] r[i]).0,
            (#[trigger] r[j]).0,
        ) by {
            let a = if i < p {
                i
            } else {
                i + 1
            };
            let b = if j < p {
                j
            } else {
                j + 1
            };
            assert(r[i] == m[a]);
            assert(r[j] == m[b]);
        }
        if holds(r, k) {
            let q = place(r, k);
            lemma_place(r, k);
            let q2 = if q < p {
                q
            } else {
                q + 1
            };
            assert(r[q] == m[q2]);
            lemma_found(m, q2);
        }
        assert forall|other: Seq<char>| other != k implies #[trigger] found(r, other) == found(
            m,
            other,
        ) by {
            if holds(m, other) {
                let q = place(m, other);
                lemma_place(m, other);
                let q2 = if q < p {
                    q
                } else {
                    q - 1
                };
                assert(r[q2] == m[q]);
                lemma_found(r, q2);
            }
            if holds(r, other) {
                let q = place(r, other);
                lemma_place(r, other);
                let q2 = if q < p {
                    q
                } else {
                    q + 1
                };
                assert(r[q] == m[q2]);
                lemma_found(m, q2);
            }
        }
    }
}

} // verus!
