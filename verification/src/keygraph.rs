//! The key graph and the displacement assignment.
//!
//! Vertices are the hash buckets `0..n`; each known key contributes one edge
//! between its two bucket indices.  A trial's tables are kept only when the
//! graph is a forest with no duplicate or self edges; the displacement values
//! are then assigned by propagating from a root of each component, and the
//! resulting slot mapping is checked to be collision free before any table is
//! built from it.

use vstd::prelude::*;
use vstd::seq_lib::*;
use vstd::set_lib::{lemma_len_subset, lemma_int_range, set_int_range};

verus! {

/// Every edge's endpoints are bucket indices below `n`.
pub open spec fn edges_wf(edges: Seq<(usize, usize)>, n: int) -> bool {
    forall|j: int| 0 <= j < edges.len() ==> edges[j].0 < n && edges[j].1 < n
}

/// No two keys were assigned the same slot.
pub open spec fn injective_slots(slots: Seq<usize>) -> bool {
    forall|j1: int, j2: int| 0 <= j1 < j2 < slots.len() ==> slots[j1] != slots[j2]
}

/// No edge joins a bucket to itself.
pub open spec fn no_self_edges(edges: Seq<(usize, usize)>) -> bool {
    forall|j: int| 0 <= j < edges.len() ==> edges[j].0 != edges[j].1
}

/// No two edges join the same unordered pair of buckets.
pub open spec fn no_duplicate_edges(edges: Seq<(usize, usize)>) -> bool {
    forall|i: int, j: int|
        0 <= i < j < edges.len() ==> !((edges[i].0 == edges[j].0 && edges[i].1 == edges[j].1) || (
        edges[i].0 == edges[j].1 && edges[i].1 == edges[j].0))
}

/// Every parent pointer points downwards, so every pointer walk ends.
pub open spec fn parent_ok(parent: Seq<usize>) -> bool {
    forall|v: int| 0 <= v < parent.len() ==> parent[v] <= v
}

/// The representative of `x`'s component: parent pointers followed to their
/// fixed point.
pub open spec fn spec_root(parent: Seq<usize>, x: int) -> int
    decreases x,
        when 0 <= x < parent.len() && parent_ok(parent)
{
    if parent[x] == x {
        x
    } else {
        spec_root(parent, parent[x] as int)
    }
}

/// After pointing the representative `a` at the smaller representative `b`,
/// a vertex answers to `b` where it answered to `a`, and to its old
/// representative everywhere else.
proof fn lemma_root_after_union(parent: Seq<usize>, a: int, b: int, x: int)
    requires
        parent_ok(parent),
        0 <= b < a < parent.len(),
        parent[a] == a,
        parent[b] == b,
        0 <= x < parent.len(),
    ensures
        parent_ok(parent.update(a, b as usize)),
        spec_root(parent.update(a, b as usize), x) == if spec_root(parent, x) == a {
            b as int
        } else {
            spec_root(parent, x)
        },
    decreases x,
{
    let updated = parent.update(a, b as usize);
    assert(parent_ok(updated));
    if parent[x] == x {
        if x == a {
            assert(updated[x] == b);
            assert(updated[b] == b);
            assert(spec_root(updated, x) == spec_root(updated, b));
        } else {
            assert(updated[x] == x);
        }
    } else {
        assert(x != a);
        lemma_root_after_union(parent, a, b, parent[x] as int);
        assert(updated[x] == parent[x]);
        assert(spec_root(parent, x) == spec_root(parent, parent[x] as int));
        assert(spec_root(updated, x) == spec_root(updated, parent[x] as int));
    }
}

/// Walks parent pointers to the representative of `x`'s component.  The
/// parent array is kept pointing strictly downwards, which bounds the walk.
fn find_root(parent: &Vec<usize>, x: usize) -> (r: usize)
    requires
        x < parent@.len(),
        parent_ok(parent@),
    ensures
        r < parent@.len(),
        parent@[r as int] == r,
        r == spec_root(parent@, x as int),
{
    let mut cur = x;
    while parent[cur] != cur
        invariant
            cur < parent@.len(),
            parent_ok(parent@),
            spec_root(parent@, cur as int) == spec_root(parent@, x as int),
        decreases cur,
    {
        proof {
            assert(spec_root(parent@, cur as int) == spec_root(
                parent@,
                parent@[cur as int] as int,
            ));
        }
        cur = parent[cur];
    }
    cur
}

/// The validity signal of the key graph, by union-find over the buckets: a
/// true answer means the edges form a forest with no duplicate and no self
/// edges — the contract states the two edge-level halves, which each trial
/// must not violate; a false answer discards the trial.  The collision
/// check on the computed slots is still made separately, so nothing
/// downstream rests on the acyclicity half of this test.
pub fn graph_is_valid(edges: &Vec<(usize, usize)>, n: usize) -> (r: bool)
    requires
        edges_wf(edges@, n as int),
    ensures
        r ==> no_self_edges(edges@),
        r ==> no_duplicate_edges(edges@),
        edges@.len() == 1 && edges@[0].0 != edges@[0].1 ==> r,
{
    let mut parent: Vec<usize> = Vec::new();
    let mut v: usize = 0;
    while v < n
        invariant
            v <= n,
            parent@.len() == v,
            forall|w: int| 0 <= w < v ==> parent@[w] == w,
        decreases n - v,
    {
        parent.push(v);
        v = v + 1;
    }
    let mut j: usize = 0;
    while j < edges.len()
        invariant
            j <= edges@.len(),
            parent@.len() == n,
            edges_wf(edges@, n as int),
            parent_ok(parent@),
            j == 0 ==> forall|w: int| 0 <= w < n ==> parent@[w] == w,
            forall|i: int|
                0 <= i < j ==> spec_root(parent@, #[trigger] edges@[i].0 as int) == spec_root(
                    parent@,
                    edges@[i].1 as int,
                ),
            forall|i: int| 0 <= i < j ==> edges@[i].0 != edges@[i].1,
            no_duplicate_edges(edges@.take(j as int)),
        decreases edges@.len() - j,
    {
        let (u, w) = edges[j];
        let ru = find_root(&parent, u);
        let rw = find_root(&parent, w);
        if ru == rw {
            proof {
                // On a fresh parent array every vertex is its own
                // representative, so a lone edge is only ever rejected for
                // being a self edge.
                if j == 0 {
                    assert(spec_root(parent@, u as int) == u as int);
                    assert(spec_root(parent@, w as int) == w as int);
                }
            }
            // A self edge, a duplicate edge, or a cycle among these buckets.
            return false;
        }
        proof {
            // Equal endpoints would share a representative, as would the
            // endpoints of an edge already processed.
            assert(u != w);
            assert forall|i: int|
                0 <= i < j implies !((edges@[i].0 == u && edges@[i].1 == w) || (edges@[i].0 == w
                && edges@[i].1 == u)) by {
                assert(spec_root(parent@, edges@[i].0 as int) == spec_root(
                    parent@,
                    edges@[i].1 as int,
                ));
            }
        }
        let ghost before = parent@;
        if ru < rw {
            parent[rw] = ru;
            proof {
                assert forall|i: int|
                    0 <= i < j + 1 implies spec_root(parent@, #[trigger] edges@[i].0 as int)
                    == spec_root(parent@, edges@[i].1 as int) by {
                    lemma_root_after_union(before, rw as int, ru as int, edges@[i].0 as int);
                    lemma_root_after_union(before, rw as int, ru as int, edges@[i].1 as int);
                }
                assert(parent_ok(parent@)) by {
                    lemma_root_after_union(before, rw as int, ru as int, u as int);
                }
            }
        } else {
            parent[ru] = rw;
            proof {
                assert forall|i: int|
                    0 <= i < j + 1 implies spec_root(parent@, #[trigger] edges@[i].0 as int)
                    == spec_root(parent@, edges@[i].1 as int) by {
                    lemma_root_after_union(before, ru as int, rw as int, edges@[i].0 as int);
                    lemma_root_after_union(before, ru as int, rw as int, edges@[i].1 as int);
                }
                assert(parent_ok(parent@)) by {
                    lemma_root_after_union(before, ru as int, rw as int, u as int);
                }
            }
        }
        proof {
            assert(edges@.take(j as int + 1).drop_last() =~= edges@.take(j as int));
        }
        j = j + 1;
    }
    proof {
        assert(edges@.take(edges@.len() as int) =~= edges@);
    }
    true
}

/// Some edge has vertex `v` as an endpoint.
pub open spec fn vertex_touched(edges: Seq<(usize, usize)>, v: int) -> bool {
    exists|j: int| 0 <= j < edges.len() && (edges[j].0 == v || edges[j].1 == v)
}

/// Displacement assignment for a validated key graph: the first vertex of
/// each component keeps displacement zero, and a value propagates across each
/// edge so that the two endpoint displacements of the edge for key `j` sum to
/// `j` modulo `m`.  Propagation runs breadth-first, in rounds; on a forest
/// every component is covered, so each key's intended slot comes out of its
/// edge — which the caller checks slot by slot.  All values stay below `m`,
/// and a vertex no key touches keeps displacement zero.
pub fn assign_displacements(edges: &Vec<(usize, usize)>, n: usize, m: usize) -> (g: Vec<usize>)
    requires
        edges_wf(edges@, n as int),
        m >= 1,
        edges@.len() <= m,
        m + m <= usize::MAX,
    ensures
        g@.len() == n,
        forall|v: int| 0 <= v < n ==> g@[v] < m,
        forall|v: int| 0 <= v < n && !(#[trigger] vertex_touched(edges@, v)) ==> g@[v] == 0,
{
    let mut g: Vec<usize> = Vec::new();
    let mut visited: Vec<bool> = Vec::new();
    let mut v: usize = 0;
    while v < n
        invariant
            v <= n,
            g@.len() == v,
            visited@.len() == v,
            forall|w: int| 0 <= w < v ==> g@[w] == 0,
            forall|w: int| 0 <= w < v ==> visited@[w] == false,
        decreases n - v,
    {
        g.push(0);
        visited.push(false);
        v = v + 1;
    }
    let mut root: usize = 0;
    while root < n
        invariant
            root <= n,
            g@.len() == n,
            visited@.len() == n,
            m >= 1,
            m + m <= usize::MAX,
            edges_wf(edges@, n as int),
            edges@.len() <= m,
            forall|w: int| 0 <= w < n ==> g@[w] < m,
            forall|w: int|
                0 <= w < n && !(#[trigger] vertex_touched(edges@, w)) ==> g@[w] == 0,
        decreases n - root,
    {
        if !visited[root] {
            visited[root] = true;
            let mut round: usize = 0;
            while round < n
                invariant
                    round <= n,
                    g@.len() == n,
                    visited@.len() == n,
                    m >= 1,
                    m + m <= usize::MAX,
                    edges_wf(edges@, n as int),
                    edges@.len() <= m,
                    forall|w: int| 0 <= w < n ==> g@[w] < m,
                    forall|w: int|
                        0 <= w < n && !(#[trigger] vertex_touched(edges@, w)) ==> g@[w] == 0,
                decreases n - round,
            {
                let mut j: usize = 0;
                while j < edges.len()
                    invariant
                        j <= edges@.len(),
                        g@.len() == n,
                        visited@.len() == n,
                        m >= 1,
                        m + m <= usize::MAX,
                        edges_wf(edges@, n as int),
                        edges@.len() <= m,
                        forall|w: int| 0 <= w < n ==> g@[w] < m,
                        forall|w: int|
                            0 <= w < n && !(#[trigger] vertex_touched(edges@, w)) ==> g@[w] == 0,
                    decreases edges@.len() - j,
                {
                    let (a, b) = edges[j];
                    proof {
                        assert(vertex_touched(edges@, a as int)) by {
                            assert(edges@[j as int].0 == a);
                        }
                        assert(vertex_touched(edges@, b as int)) by {
                            assert(edges@[j as int].1 == b);
                        }
                    }
                    if visited[a] && !visited[b] {
                        visited[b] = true;
                        g[b] = (j + m - g[a]) % m;
                    } else if visited[b] && !visited[a] {
                        visited[a] = true;
                        g[a] = (j + m - g[b]) % m;
                    }
                    j = j + 1;
                }
                round = round + 1;
            }
        }
        root = root + 1;
    }
    g
}

/// The slot of each key: the displacements of its two buckets, summed and
/// reduced modulo the key count.
pub fn compute_slots(edges: &Vec<(usize, usize)>, g: &Vec<usize>, m: usize) -> (slots: Vec<usize>)
    requires
        m >= 1,
        m + m <= usize::MAX,
        edges_wf(edges@, g@.len() as int),
        forall|v: int| 0 <= v < g@.len() ==> g@[v] < m,
    ensures
        slots@.len() == edges@.len(),
        forall|j: int|
            0 <= j < edges@.len() ==> slots@[j] == ((g@[edges@[j].0 as int] + g@[edges@[j].1 as int])
                % (m as int)) && slots@[j] < m,
{
    let mut slots: Vec<usize> = Vec::new();
    let mut j: usize = 0;
    while j < edges.len()
        invariant
            j <= edges@.len(),
            m >= 1,
            m + m <= usize::MAX,
            edges_wf(edges@, g@.len() as int),
            forall|v: int| 0 <= v < g@.len() ==> g@[v] < m,
            slots@.len() == j,
            forall|i: int|
                0 <= i < j ==> slots@[i] == ((g@[edges@[i].0 as int] + g@[edges@[i].1 as int]) % (
                m as int)) && slots@[i] < m,
        decreases edges@.len() - j,
    {
        let (a, b) = edges[j];
        slots.push((g[a] + g[b]) % m);
        j = j + 1;
    }
    slots
}

/// The construction-time assertion on the solver's output: true exactly
/// when every key landed in its own intended slot — the key with index `j`
/// in slot `j`.  The slot map is then the identity on `[0, m)`, so in
/// particular no two keys share a slot.  A failed check discards the trial.
pub fn check_slots_assigned(slots: &Vec<usize>) -> (r: bool)
    ensures
        r == (forall|j: int| 0 <= j < slots@.len() ==> slots@[j] == j),
{
    let mut j: usize = 0;
    while j < slots.len()
        invariant
            j <= slots@.len(),
            forall|i: int| 0 <= i < j ==> slots@[i] == i,
        decreases slots@.len() - j,
    {
        if slots[j] != j {
            return false;
        }
        j = j + 1;
    }
    true
}

/// Some key was assigned slot `s`.
pub open spec fn slot_covered(slots: Seq<usize>, s: int) -> bool {
    exists|j: int| 0 <= j < slots.len() && slots[j] == s
}

/// No two entries of the integer sequence are equal.
pub open spec fn injective_ints(slots: Seq<int>) -> bool {
    forall|j1: int, j2: int| 0 <= j1 < j2 < slots.len() ==> slots[j1] != slots[j2]
}

/// Some entry of the integer sequence equals `s`.
pub open spec fn int_covered(slots: Seq<int>, s: int) -> bool {
    exists|j: int| 0 <= j < slots.len() && slots[j] == s
}

/// The bijection property over mathematical integers: an injective sequence
/// of `m` values, all in `[0, m)`, covers every value of `[0, m)`.
pub proof fn lemma_injective_ints_cover(slots: Seq<int>, m: int)
    requires
        slots.len() == m,
        forall|j: int| 0 <= j < m ==> 0 <= #[trigger] slots[j] < m,
        injective_ints(slots),
    ensures
        forall|s: int| 0 <= s < m ==> #[trigger] int_covered(slots, s),
{
    assert(slots.no_duplicates());
    slots.unique_seq_to_set();
    lemma_int_range(0, m);
    assert forall|s: int| 0 <= s < m implies #[trigger] int_covered(slots, s) by {
        if !int_covered(slots, s) {
            let missing = set_int_range(0, m).remove(s);
            assert forall|x: int| slots.to_set().contains(x) implies missing.contains(x) by {
                let j = choose|j: int| 0 <= j < slots.len() && slots[j] == x;
                assert(0 <= slots[j] < m);
            }
            lemma_len_subset(slots.to_set(), missing);
            assert(missing.len() == m - 1);
            assert(false);
        }
    }
}

/// The bijection property: an injective assignment of `m` slots, all below
/// `m`, covers every slot in `[0, m)`.
pub proof fn lemma_injective_slots_cover(slots: Seq<usize>, m: int)
    requires
        slots.len() == m,
        forall|j: int| 0 <= j < m ==> slots[j] < m,
        injective_slots(slots),
    ensures
        forall|s: int| 0 <= s < m ==> #[trigger] slot_covered(slots, s),
{
    let si = slots.map_values(|x: usize| x as int);
    lemma_injective_ints_cover(si, m);
    assert forall|s: int| 0 <= s < m implies #[trigger] slot_covered(slots, s) by {
        assert(int_covered(si, s));
        let j = choose|j: int| 0 <= j < si.len() && si[j] == s;
        assert(slots[j] == s);
    }
}

} // verus!
