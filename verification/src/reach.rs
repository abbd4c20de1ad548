//! Reachability over an arbitrary step relation: what a worklist computes.

use crate::table::{add_new, lemma_added, with_added, Same};
use vstd::prelude::*;

verus! {

/// `path` starts at a root and every element steps to the next one.
pub open spec fn is_walk<A>(step: spec_fn(A, A) -> bool, roots: Set<A>, path: Seq<A>) -> bool {
    &&& path.len() > 0
    &&& roots.contains(path[0])
    &&& forall|i: int| #![trigger path[i]] 0 <= i < path.len() - 1 ==> step(path[i], path[i + 1])
}

/// `x` is a root, or some chain of steps leads from a root to it.
pub open spec fn reachable<A>(step: spec_fn(A, A) -> bool, roots: Set<A>, x: A) -> bool {
    exists|path: Seq<A>| #[trigger] is_walk(step, roots, path) && path.last() == x
}

/// A root is reachable.
pub proof fn lemma_root_reachable<A>(step: spec_fn(A, A) -> bool, roots: Set<A>, x: A)
    requires
        roots.contains(x),
    ensures
        reachable(step, roots, x),
{
    let path = seq![x];
    assert(is_walk(step, roots, path) && path.last() == x);
}

/// A step from something reachable arrives at something reachable.
pub proof fn lemma_step_reachable<A>(step: spec_fn(A, A) -> bool, roots: Set<A>, x: A, y: A)
    requires
        reachable(step, roots, x),
        step(x, y),
    ensures
        reachable(step, roots, y),
{
    let path = choose|path: Seq<A>| #[trigger] is_walk(step, roots, path) && path.last() == x;
    let longer = path.push(y);
    assert forall|i: int| #![trigger longer[i]] 0 <= i < longer.len() - 1 implies step(
        longer[i],
        longer[i + 1],
    ) by {
        if i < path.len() - 1 {
            assert(longer[i] == path[i] && longer[i + 1] == path[i + 1]);
        }
    }
    assert(longer[0] == path[0]);
    assert(is_walk(step, roots, longer) && longer.last() == y);
}

/// A set that holds every root and is closed under the step holds
/// everything reachable.
pub proof fn lemma_closed_holds_reachable<A>(
    step: spec_fn(A, A) -> bool,
    roots: Set<A>,
    closed: Set<A>,
    x: A,
)
    requires
        roots.subset_of(closed),
        forall|a: A, b: A| closed.contains(a) && #[trigger] step(a, b) ==> closed.contains(b),
        reachable(step, roots, x),
    ensures
        closed.contains(x),
{
    let path = choose|path: Seq<A>| #[trigger] is_walk(step, roots, path) && path.last() == x;
    lemma_walk_stays(step, roots, closed, path, path.len() - 1);
}

proof fn lemma_walk_stays<A>(
    step: spec_fn(A, A) -> bool,
    roots: Set<A>,
    closed: Set<A>,
    path: Seq<A>,
    i: int,
)
    requires
        roots.subset_of(closed),
        forall|a: A, b: A| closed.contains(a) && #[trigger] step(a, b) ==> closed.contains(b),
        is_walk(step, roots, path),
        0 <= i < path.len(),
    ensures
        closed.contains(path[i]),
    decreases i,
{
    if i > 0 {
        lemma_walk_stays(step, roots, closed, path, i - 1);
        assert(step(path[i - 1], path[i - 1 + 1]));
    }
}

/// The step from the first of each pair to the second.
pub open spec fn steps_by<K>(edges: Seq<(K, K)>) -> spec_fn(K, K) -> bool {
    |a: K, b: K| edges.contains((a, b))
}

/// What the pairs lead to from the root, the root with it.
pub open spec fn led_to<K>(edges: Seq<(K, K)>, root: K, x: K) -> bool {
    reachable(steps_by(edges), set![root], x)
}

/// Everything in the list is the root or the end of a pair.
spec fn drawn_from<K>(out: Seq<K>, edges: Seq<(K, K)>, root: K) -> bool {
    forall|i: int| 0 <= i < out.len() ==> #[trigger] out[i] == root || ends(edges).contains(out[i])
}

spec fn ends<K>(edges: Seq<(K, K)>) -> Seq<K> {
    edges.map_values(|e: (K, K)| e.1)
}

proof fn lemma_drawn_bounded<K>(out: Seq<K>, edges: Seq<(K, K)>, root: K)
    requires
        out.no_duplicates(),
        drawn_from(out, edges, root),
    ensures
        out.len() <= edges.len() + 1,
{
    let universe = ends(edges).push(root);
    assert forall|x: K| out.to_set().contains(x) implies universe.to_set().contains(x) by {
        let i = choose|i: int| 0 <= i < out.len() && out[i] == x;
        assert(out[i] == root || ends(edges).contains(out[i]));
        if out[i] == root {
            assert(universe[universe.len() - 1] == root);
        } else {
            let j = choose|j: int| 0 <= j < ends(edges).len() && ends(edges)[j] == x;
            assert(universe[j] == x);
        }
    }
    out.unique_seq_to_set();
    universe.lemma_cardinality_of_set();
    vstd::seq_lib::seq_to_set_is_finite(universe);
    vstd::set_lib::lemma_len_subset(out.to_set(), universe.to_set());
}

/// Everything in the list is led to.
spec fn all_led_to<K>(out: Seq<K>, edges: Seq<(K, K)>, root: K) -> bool {
    forall|i: int| 0 <= i < out.len() ==> led_to(edges, root, #[trigger] out[i])
}

/// The first `m` pairs that start at one of the list's first `n` members end
/// in the list.
spec fn closed_up<K>(out: Seq<K>, edges: Seq<(K, K)>, n: int, m: int) -> bool {
    forall|i: int, j: int|
        0 <= i < n && 0 <= j < m && (#[trigger] edges[j]).0 == #[trigger] out[i] ==> out.contains(
            edges[j].1,
        )
}

proof fn lemma_grow<K>(out: Seq<K>, edges: Seq<(K, K)>, root: K, n: int, m: int, j: int, k: K)
    requires
        out.no_duplicates(),
        drawn_from(out, edges, root),
        all_led_to(out, edges, root),
        0 <= n < out.len(),
        0 <= j < edges.len(),
        edges[j] == (out[n], k),
    ensures
        with_added(out, k).no_duplicates(),
        drawn_from(with_added(out, k), edges, root),
        all_led_to(with_added(out, k), edges, root),
{
    lemma_added(out, k);
    let t = with_added(out, k);
    assert(edges.contains((out[n], k))) by {
        assert(edges[j] == (out[n], k));
    }
    lemma_step_reachable(steps_by(edges), set![root], out[n], k);
    assert forall|i: int| 0 <= i < t.len() implies #[trigger] t[i] == root || ends(
        edges,
    ).contains(t[i]) by {
        if i < out.len() {
            assert(t[i] == out[i]);
        } else {
            assert(ends(edges)[j] == k);
        }
    }
    assert forall|i: int| 0 <= i < t.len() implies led_to(edges, root, #[trigger] t[i]) by {
        if i < out.len() {
            assert(t[i] == out[i]);
        }
    }
}

/// Everything the pairs lead to from the root, each once.
pub fn reached_from<K: Same + Copy>(edges: &Vec<(K, K)>, root: K) -> (r: Vec<K>)
    ensures
        r@.no_duplicates(),
        forall|x: K| #[trigger] r@.contains(x) <==> led_to(edges@, root, x),
{
    let mut out: Vec<K> = Vec::new();
    out.push(root);
    let mut head: usize = 0;
    let ghost es = edges@;
    proof {
        lemma_root_reachable(steps_by(es), set![root], root);
    }
    while head < out.len()
        invariant
            es == edges@,
            head <= out@.len(),
            out@.len() > 0,
            out@[0] == root,
            out@.no_duplicates(),
            drawn_from(out@, es, root),
            all_led_to(out@, es, root),
            closed_up(out@, es, head as int, es.len() as int),
        decreases es.len() + 1 - head,
    {
        proof {
            lemma_drawn_bounded(out@, es, root);
        }
        let cur: K = out[head];
        let mut j: usize = 0;
        while j < edges.len()
            invariant
                es == edges@,
                j <= es.len(),
                head < out@.len(),
                cur == out@[head as int],
                out@[0] == root,
                out@.no_duplicates(),
                drawn_from(out@, es, root),
                all_led_to(out@, es, root),
                closed_up(out@, es, head as int, es.len() as int),
                forall|i: int|
                    0 <= i < j && (#[trigger] es[i]).0 == cur ==> out@.contains(es[i].1),
            decreases edges.len() - j,
        {
            if edges[j].0.same(&cur) {
                let ghost before = out@;
                let k: K = edges[j].1;
                proof {
                    lemma_grow(before, es, root, head as int, es.len() as int, j as int, k);
                    lemma_added(before, k);
                }
                add_new(&mut out, k);
                proof {
                    assert forall|i: int, m: int|
                        0 <= i < head && 0 <= m < es.len() && (#[trigger] es[m]).0
                            == #[trigger] out@[i] implies out@.contains(es[m].1) by {
                        assert(out@[i] == before[i]);
                        assert(before.contains(es[m].1));
                    }
                    assert forall|i: int|
                        0 <= i < j + 1 && (#[trigger] es[i]).0 == cur implies out@.contains(
                        es[i].1,
                    ) by {
                        if i < j {
                            assert(before.contains(es[i].1));
                        }
                    }
                }
            }
            j = j + 1;
        }
        head = head + 1;
    }
    proof {
        assert forall|x: K| #[trigger] out@.contains(x) <==> led_to(es, root, x) by {
            if out@.contains(x) {
                let i = choose|i: int| 0 <= i < out@.len() && out@[i] == x;
                assert(led_to(es, root, out@[i]));
            }
            if led_to(es, root, x) {
                let closed = out@.to_set();
                assert(closed.contains(root)) by {
                    assert(out@[0] == root);
                }
                assert forall|a: K, b: K|
                    closed.contains(a) && #[trigger] steps_by(es)(a, b) implies closed.contains(
                    b,
                ) by {
                    let i = choose|i: int| 0 <= i < out@.len() && out@[i] == a;
                    let m = choose|m: int| 0 <= m < es.len() && es[m] == (a, b);
                    assert(es[m].0 == out@[i]);
                }
                lemma_closed_holds_reachable(steps_by(es), set![root], closed, x);
            }
        }
    }
    out
}

} // verus!
