//! Edge-level views of a triangle index buffer.
//!
//! A mesh is a flat buffer of vertex indices, three per triangle, wound in a
//! consistent direction. These helpers enumerate its directed and undirected
//! edges, list each vertex's successors, and re-triangulate the rim of a
//! polygonal hole against a chosen vertex.

use vstd::prelude::*;

verus! {

/// Flips an index pair when needed so that both orders of the same edge map
/// to one canonical key: the larger index first.
pub fn order_edge(a: u32, b: u32) -> (r: (u32, u32))
    ensures
        r.0 == if a > b { a } else { b },
        r.1 == if a > b { b } else { a },
{
    if a > b {
        return (a, b);
    }
    (b, a)
}

/// The directed edge leaving corner `k % 3` of triangle `k / 3`, as raw
/// buffer values.
pub open spec fn edge32_at(tris: Seq<u32>, k: int) -> (u32, u32) {
    let t = k / 3 * 3;
    (tris[k], tris[t + (k - t + 1) % 3])
}

/// The same directed edge, widened for use as vertex positions in a cell
/// array.
pub open spec fn edge_at(tris: Seq<u32>, k: int) -> (usize, usize) {
    (edge32_at(tris, k).0 as usize, edge32_at(tris, k).1 as usize)
}

/// An edge is kept for the undirected listing when its endpoints are already
/// in increasing order; of the two directions of one undirected edge in a
/// consistently wound mesh, exactly one is.
pub open spec fn kept(tris: Seq<u32>, k: int) -> bool {
    edge_at(tris, k).0 < edge_at(tris, k).1
}

/// The undirected edges among the first `k` directed edges, in order of
/// discovery.
pub open spec fn undirected_edges_up_to(tris: Seq<u32>, k: int) -> Seq<(usize, usize)>
    decreases k,
{
    if k <= 0 {
        Seq::empty()
    } else {
        let r = undirected_edges_up_to(tris, k - 1);
        if kept(tris, k - 1) {
            r.push(edge_at(tris, k - 1))
        } else {
            r
        }
    }
}

/// Every undirected edge of the mesh, each exactly once when the winding is
/// consistent.
pub open spec fn undirected_edges(tris: Seq<u32>) -> Seq<(usize, usize)> {
    undirected_edges_up_to(tris, tris.len() as int)
}

/// All directed edges pairwise distinct: no edge of the mesh is traced
/// twice the same way.
pub open spec fn edges_distinct(tris: Seq<u32>) -> bool {
    forall|k1: int, k2: int| 0 <= k1 < k2 < tris.len()
        ==> #[trigger] edge_at(tris, k1) != #[trigger] edge_at(tris, k2)
}

/// Every directed edge is accompanied by its reverse: the mesh is closed
/// and consistently wound.
pub open spec fn edges_two_sided(tris: Seq<u32>) -> bool {
    forall|k: int| 0 <= k < tris.len() ==> #[trigger] has_rev(tris, k)
}

/// No directed edge is degenerate.
pub open spec fn edges_proper(tris: Seq<u32>) -> bool {
    forall|k: int| 0 <= k < tris.len()
        ==> (#[trigger] edge_at(tris, k)).0 != edge_at(tris, k).1
}

/// Entry `m` of the undirected listing was kept at one definite position `j`
/// of the directed enumeration: it equals that directed edge, and exactly
/// `m` edges were kept before step `j`.
pub proof fn lemma_undirected_edge_source(tris: Seq<u32>, k: int, m: int) -> (j: int)
    requires
        0 <= k,
        0 <= m < undirected_edges_up_to(tris, k).len(),
    ensures
        0 <= j < k,
        kept(tris, j),
        undirected_edges_up_to(tris, k)[m] == edge_at(tris, j),
        undirected_edges_up_to(tris, j).len() == m,
    decreases k,
{
    if kept(tris, k - 1) && m == undirected_edges_up_to(tris, k).len() - 1 {
        k - 1
    } else {
        lemma_undirected_edge_source(tris, k - 1, m)
    }
}

/// Every listed undirected edge has its endpoints in increasing order, so
/// none is a self-loop.
pub proof fn lemma_edges_no_self_loop(tris: Seq<u32>)
    ensures
        forall|m: int| 0 <= m < undirected_edges(tris).len()
            ==> (#[trigger] undirected_edges(tris)[m]).0 < undirected_edges(tris)[m].1,
{
    assert forall|m: int| 0 <= m < undirected_edges(tris).len()
        implies (#[trigger] undirected_edges(tris)[m]).0 < undirected_edges(tris)[m].1 by {
        let j = lemma_undirected_edge_source(tris, tris.len() as int, m);
    }
}

/// When no directed edge of the buffer repeats — as in any consistently
/// wound mesh, where the two copies of an undirected edge run in opposite
/// directions — the undirected listing never repeats an unordered pair.
pub proof fn lemma_edges_unique(tris: Seq<u32>)
    requires
        forall|k1: int, k2: int| 0 <= k1 < k2 < tris.len()
            ==> edge_at(tris, k1) != edge_at(tris, k2),
    ensures
        forall|m1: int, m2: int| 0 <= m1 < m2 < undirected_edges(tris).len()
            ==> undirected_edges(tris)[m1] != undirected_edges(tris)[m2],
{
    let n = tris.len() as int;
    assert forall|m1: int, m2: int| 0 <= m1 < m2 < undirected_edges(tris).len()
        implies undirected_edges(tris)[m1] != undirected_edges(tris)[m2] by {
        let j1 = lemma_undirected_edge_source(tris, n, m1);
        let j2 = lemma_undirected_edge_source(tris, n, m2);
        assert(j1 != j2);
    }
}

/// Lists every undirected edge of the mesh once: of each triangle's three
/// directed edges it keeps those whose endpoints are in increasing order.
///
/// With a consistent winding the two copies of an undirected edge run in
/// opposite directions, so exactly one of them is kept.
pub fn indices_to_edges(indices: &Vec<u32>) -> (edges: Vec<(usize, usize)>)
    requires
        indices@.len() % 3 == 0,
    ensures
        edges@ == undirected_edges(indices@),
{
    let n = indices.len();
    let mut edges: Vec<(usize, usize)> = Vec::new();
    let mut base: usize = 0;
    while base < n
        invariant
            base % 3 == 0,
            base <= n,
            n == indices@.len(),
            n % 3 == 0,
            edges@ == undirected_edges_up_to(indices@, base as int),
        decreases n - base,
    {
        assert(base + 3 <= n) by {
            assert((n - base) % 3 == 0) by {
                vstd::arithmetic::div_mod::lemma_mod_multiples_vanish(
                    -(base as int / 3), n as int, 3);
            }
        }
        let a = indices[base];
        let b = indices[base + 1];
        let c = indices[base + 2];
        if a < b {
            edges.push((a as usize, b as usize));
        }
        assert(edges@ == undirected_edges_up_to(indices@, base + 1));
        if b < c {
            edges.push((b as usize, c as usize));
        }
        assert(edges@ == undirected_edges_up_to(indices@, base + 2));
        if c < a {
            edges.push((c as usize, a as usize));
        }
        assert(edges@ == undirected_edges_up_to(indices@, base + 3));
        base = base + 3;
    }
    edges
}

/// A directed edge of a whole-triangle buffer stays inside the buffer and,
/// when every index is below `n`, so are its endpoints.
pub proof fn lemma_edge_at_bounded(tris: Seq<u32>, n: int, j: int)
    requires
        tris.len() % 3 == 0,
        forall|k: int| 0 <= k < tris.len() ==> (#[trigger] tris[k] as int) < n,
        0 <= j < tris.len(),
    ensures
        (edge_at(tris, j).0 as int) < n,
        (edge_at(tris, j).1 as int) < n,
{
    let t = j / 3 * 3;
    assert(t <= j && j < t + 3) by {
        vstd::arithmetic::div_mod::lemma_fundamental_div_mod(j, 3);
        vstd::arithmetic::div_mod::lemma_mod_bound(j, 3);
    }
    assert(t + 3 <= tris.len()) by {
        assert((tris.len() - t) % 3 == 0) by {
            vstd::arithmetic::div_mod::lemma_mod_multiples_vanish(
                -(j / 3), tris.len() as int, 3);
        }
    }
    assert(0 <= (j - t + 1) % 3 < 3) by {
        vstd::arithmetic::div_mod::lemma_mod_bound(j - t + 1, 3);
    }
}

/// Every undirected edge of a whole-triangle buffer whose indices are below
/// `n` has both endpoints below `n`.
pub proof fn lemma_undirected_edges_bounded(tris: Seq<u32>, n: int)
    requires
        tris.len() % 3 == 0,
        forall|k: int| 0 <= k < tris.len() ==> (#[trigger] tris[k] as int) < n,
    ensures
        forall|m: int| 0 <= m < undirected_edges(tris).len()
            ==> ((#[trigger] undirected_edges(tris)[m]).0 as int) < n
                && (undirected_edges(tris)[m].1 as int) < n,
{
    assert forall|m: int| 0 <= m < undirected_edges(tris).len()
        implies ((#[trigger] undirected_edges(tris)[m]).0 as int) < n
            && (undirected_edges(tris)[m].1 as int) < n by {
        let j = lemma_undirected_edge_source(tris, tris.len() as int, m);
        lemma_edge_at_bounded(tris, n, j);
    }
}

/// The positions of the kept (increasing) directed edges among the first
/// `k`.
spec fn kept_positions(tris: Seq<u32>, k: int) -> Set<int> {
    Set::new(|j: int| 0 <= j < k && kept(tris, j))
}

/// The positions of the remaining directed edges among the first `k`.
spec fn other_positions(tris: Seq<u32>, k: int) -> Set<int> {
    Set::new(|j: int| 0 <= j < k && !kept(tris, j))
}

proof fn lemma_position_counts(tris: Seq<u32>, k: int)
    requires
        0 <= k,
    ensures
        kept_positions(tris, k).finite(),
        other_positions(tris, k).finite(),
        kept_positions(tris, k).len() == undirected_edges_up_to(tris, k).len(),
        kept_positions(tris, k).len() + other_positions(tris, k).len() == k,
    decreases k,
{
    if k == 0 {
        assert(kept_positions(tris, 0) =~= Set::empty());
        assert(other_positions(tris, 0) =~= Set::empty());
    } else {
        lemma_position_counts(tris, k - 1);
        if kept(tris, k - 1) {
            assert(kept_positions(tris, k) =~= kept_positions(tris, k - 1).insert(k - 1));
            assert(other_positions(tris, k) =~= other_positions(tris, k - 1));
            vstd::set::axiom_set_insert_finite(kept_positions(tris, k - 1), k - 1);
            vstd::set::axiom_set_insert_len(kept_positions(tris, k - 1), k - 1);
        } else {
            assert(kept_positions(tris, k) =~= kept_positions(tris, k - 1));
            assert(other_positions(tris, k) =~= other_positions(tris, k - 1).insert(k - 1));
            vstd::set::axiom_set_insert_finite(other_positions(tris, k - 1), k - 1);
            vstd::set::axiom_set_insert_len(other_positions(tris, k - 1), k - 1);
        }
    }
}

/// In a consistently wound closed buffer the undirected edge listing holds
/// exactly half the directed edges: each undirected edge is traced once in
/// each direction, and the listing keeps the increasing one.
pub proof fn lemma_undirected_edges_half(tris: Seq<u32>)
    requires
        edges_distinct(tris),
        edges_two_sided(tris),
        edges_proper(tris),
    ensures
        2 * undirected_edges(tris).len() == tris.len(),
{
    let n = tris.len() as int;
    lemma_position_counts(tris, n);
    let ks = kept_positions(tris, n);
    let os = other_positions(tris, n);
    let f = |k: int|
        choose|j: int|
            0 <= j < tris.len() && #[trigger] edge_at(tris, j) == (
            edge_at(tris, k).1,
            edge_at(tris, k).0,
            );
    assert forall|k: int| ks.contains(k) implies os.contains(#[trigger] f(k)) && edge_at(
        tris,
        f(k),
    ) == (edge_at(tris, k).1, edge_at(tris, k).0) by {
        assert(has_rev(tris, k));
    }
    assert(vstd::relations::injective_on(f, ks)) by {
        assert forall|k1: int, k2: int|
            #![trigger f(k1), f(k2)]
            ks.contains(k1) && ks.contains(k2) && f(k1) == f(k2) implies k1 == k2 by {
            assert(edge_at(tris, f(k1)) == (edge_at(tris, k1).1, edge_at(tris, k1).0));
            assert(edge_at(tris, f(k2)) == (edge_at(tris, k2).1, edge_at(tris, k2).0));
            if k1 != k2 {
                assert(edge_at(tris, k1) != edge_at(tris, k2));
            }
        }
    }
    assert(ks.map(f) =~= os) by {
        assert forall|j: int| os.contains(j) implies ks.map(f).contains(j) by {
            assert(has_rev(tris, j));
            let k0 = choose|k0: int|
                0 <= k0 < tris.len() && #[trigger] edge_at(tris, k0) == (
                edge_at(tris, j).1,
                edge_at(tris, j).0,
                );
            assert(edge_at(tris, j).0 != edge_at(tris, j).1);
            assert(kept(tris, k0));
            assert(ks.contains(k0));
            assert(edge_at(tris, f(k0)) == (edge_at(tris, k0).1, edge_at(tris, k0).0));
            assert(edge_at(tris, f(k0)) == edge_at(tris, j));
            if f(k0) != j {
                assert(edge_at(tris, f(k0)) != edge_at(tris, j));
            }
            assert(f(k0) == j);
        }
    }
    vstd::set_lib::lemma_map_size(ks, os, f);
}

/// Lists all directed edges of the mesh, three per triangle, each wound the
/// same way as its triangle; shared interior edges therefore appear twice,
/// once in each direction.
pub fn indices_to_directed_edges(indices: &Vec<u32>) -> (edges: Vec<(usize, usize)>)
    requires
        indices@.len() % 3 == 0,
    ensures
        edges@.len() == indices@.len(),
        forall|k: int| 0 <= k < edges@.len() ==> edges@[k] == edge_at(indices@, k),
{
    let n = indices.len();
    let mut edges: Vec<(usize, usize)> = Vec::new();
    let mut base: usize = 0;
    while base < n
        invariant
            base % 3 == 0,
            base <= n,
            n == indices@.len(),
            n % 3 == 0,
            edges@.len() == base,
            forall|k: int| 0 <= k < base ==> edges@[k] == edge_at(indices@, k),
        decreases n - base,
    {
        assert(base + 3 <= n) by {
            assert((n - base) % 3 == 0) by {
                vstd::arithmetic::div_mod::lemma_mod_multiples_vanish(
                    -(base as int / 3), n as int, 3);
            }
        }
        let a = indices[base];
        let b = indices[base + 1];
        let c = indices[base + 2];
        proof {
            assert(base as int / 3 * 3 == base);
            assert((base + 1) as int / 3 * 3 == base);
            assert((base + 2) as int / 3 * 3 == base);
        }
        edges.push((a as usize, b as usize));
        edges.push((b as usize, c as usize));
        edges.push((c as usize, a as usize));
        assert(edges@[base as int] == edge_at(indices@, base as int));
        assert(edges@[base + 1] == edge_at(indices@, base + 1));
        assert(edges@[base + 2] == edge_at(indices@, base + 2));
        base = base + 3;
    }
    edges
}

/// The successors of vertex `v` among the first `k` directed edges: for each
/// triangle corner holding `v`, the next corner of that triangle.
pub open spec fn successors_up_to(tris: Seq<u32>, v: int, k: int) -> Seq<usize>
    decreases k,
{
    if k <= 0 {
        Seq::empty()
    } else if edge_at(tris, k - 1).0 == v {
        successors_up_to(tris, v, k - 1).push(edge_at(tris, k - 1).1)
    } else {
        successors_up_to(tris, v, k - 1)
    }
}

/// For every vertex of the mesh, lists the vertices it connects to: the
/// successor of each of its corners, in buffer order. The buffer must only
/// hold vertices below its own triangle count, which sizes the table.
pub fn indices_to_connections(indices: &Vec<u32>) -> (conns: Vec<Vec<usize>>)
    requires
        indices@.len() % 3 == 0,
        forall|k: int| 0 <= k < indices@.len()
            ==> (#[trigger] indices@[k]) < indices@.len() / 3,
    ensures
        conns@.len() == indices@.len() / 3,
        forall|v: int| 0 <= v < conns@.len()
            ==> (#[trigger] conns@[v])@ == successors_up_to(indices@, v, indices@.len() as int),
{
    let n = indices.len();
    let vn = n / 3;
    let mut conns: Vec<Vec<usize>> = Vec::new();
    let mut v: usize = 0;
    while v < vn
        invariant
            v <= vn,
            vn == indices@.len() / 3,
            n == indices@.len(),
            n % 3 == 0,
            conns@.len() == v,
            forall|w: int| 0 <= w < v
                ==> (#[trigger] conns@[w])@ == successors_up_to(indices@, w, indices@.len() as int),
        decreases vn - v,
    {
        let mut cur: Vec<usize> = Vec::new();
        let mut base: usize = 0;
        while base < n
            invariant
                base % 3 == 0,
                base <= n,
                n == indices@.len(),
                n % 3 == 0,
                cur@ == successors_up_to(indices@, v as int, base as int),
            decreases n - base,
        {
            assert(base + 3 <= n) by {
                assert((n - base) % 3 == 0) by {
                    vstd::arithmetic::div_mod::lemma_mod_multiples_vanish(
                        -(base as int / 3), n as int, 3);
                }
            }
            let a = indices[base];
            let b = indices[base + 1];
            let c = indices[base + 2];
            proof {
                assert(base as int / 3 * 3 == base);
                assert((base + 1) as int / 3 * 3 == base);
                assert((base + 2) as int / 3 * 3 == base);
            }
            if a as usize == v {
                cur.push(b as usize);
            }
            assert(cur@ == successors_up_to(indices@, v as int, base + 1));
            if b as usize == v {
                cur.push(c as usize);
            }
            assert(cur@ == successors_up_to(indices@, v as int, base + 2));
            if c as usize == v {
                cur.push(a as usize);
            }
            assert(cur@ == successors_up_to(indices@, v as int, base + 3));
            base = base + 3;
        }
        conns.push(cur);
        v = v + 1;
    }
    conns
}

/// Whether the reverse of directed edge `k` also appears in the buffer; an
/// edge with a reverse is interior to the triangle set, one without lies on
/// its outer rim.
pub open spec fn has_rev(tris: Seq<u32>, k: int) -> bool {
    exists|j: int| 0 <= j < tris.len()
        && #[trigger] edge_at(tris, j) == (edge_at(tris, k).1, edge_at(tris, k).0)
}

/// The triangles built from the first `k` directed edges when connecting the
/// rim to `target`: one triangle per rim edge, keeping the edge's winding.
pub open spec fn connect_up_to(tris: Seq<u32>, target: u32, k: int) -> Seq<u32>
    decreases k,
{
    if k <= 0 {
        Seq::empty()
    } else if !has_rev(tris, k - 1) {
        connect_up_to(tris, target, k - 1)
            + seq![edge32_at(tris, k - 1).0, edge32_at(tris, k - 1).1, target]
    } else {
        connect_up_to(tris, target, k - 1)
    }
}

/// The full re-triangulation: every rim edge of the triangle set connected
/// to `target`.
pub open spec fn connect_point_spec(tris: Seq<u32>, target: u32) -> Seq<u32> {
    connect_up_to(tris, target, tris.len() as int)
}

/// Whether the reverse of directed edge `k` occurs in `edges`, the directed
/// edge listing of `tris`.
fn edge_has_rev(edges: &Vec<(usize, usize)>, tris: &Vec<u32>, k: usize) -> (found: bool)
    requires
        edges@.len() == tris@.len(),
        forall|j: int| 0 <= j < edges@.len() ==> edges@[j] == edge_at(tris@, j),
        k < tris@.len(),
    ensures
        found == has_rev(tris@, k as int),
{
    let target = edges[k];
    let mut i: usize = 0;
    while i < edges.len()
        invariant
            i <= edges@.len(),
            edges@.len() == tris@.len(),
            forall|j: int| 0 <= j < edges@.len() ==> edges@[j] == edge_at(tris@, j),
            k < tris@.len(),
            target == edge_at(tris@, k as int),
            forall|j: int| 0 <= j < i
                ==> #[trigger] edge_at(tris@, j)
                    != (edge_at(tris@, k as int).1, edge_at(tris@, k as int).0),
        decreases edges@.len() - i,
    {
        let e = edges[i];
        if e.0 == target.1 && e.1 == target.0 {
            assert(edge_at(tris@, i as int)
                == (edge_at(tris@, k as int).1, edge_at(tris@, k as int).0));
            return true;
        }
        i = i + 1;
    }
    false
}

/// Re-triangulates the hole left in a topological disk of triangles: every
/// rim edge — a directed edge whose reverse does not appear — becomes one
/// triangle with `target`, keeping the rim's winding. Interior edges, which
/// appear in both directions, are discarded.
pub fn connect_point(tris: Vec<u32>, target: u32) -> (new_tris: Vec<u32>)
    requires
        tris@.len() % 3 == 0,
    ensures
        new_tris@ == connect_point_spec(tris@, target),
{
    let edges = indices_to_directed_edges(&tris);
    let n = tris.len();
    let mut out: Vec<u32> = Vec::new();
    let mut k: usize = 0;
    while k < n
        invariant
            k <= n,
            n == tris@.len(),
            n % 3 == 0,
            edges@.len() == tris@.len(),
            forall|j: int| 0 <= j < edges@.len() ==> edges@[j] == edge_at(tris@, j),
            out@ == connect_up_to(tris@, target, k as int),
        decreases n - k,
    {
        if !edge_has_rev(&edges, &tris, k) {
            let e = edges[k];
            proof {
                assert(edges@[k as int] == edge_at(tris@, k as int));
            }
            out.push(e.0 as u32);
            out.push(e.1 as u32);
            out.push(target);
        }
        assert(out@ == connect_up_to(tris@, target, k + 1));
        k = k + 1;
    }
    out
}

/// Whether triangle `i` of the buffer holds vertex `v`.
pub open spec fn tri_has(tris: Seq<u32>, i: int, v: u32) -> bool {
    tris[3 * i] == v || tris[3 * i + 1] == v || tris[3 * i + 2] == v
}

/// The first `k` triangles without vertex `v`, flattened in order.
pub open spec fn drop_tris_with(tris: Seq<u32>, v: u32, k: int) -> Seq<u32>
    decreases k,
{
    if k <= 0 {
        Seq::empty()
    } else if tri_has(tris, k - 1, v) {
        drop_tris_with(tris, v, k - 1)
    } else {
        drop_tris_with(tris, v, k - 1)
            + seq![tris[3 * (k - 1)], tris[3 * (k - 1) + 1], tris[3 * (k - 1) + 2]]
    }
}

/// The first `k` triangles holding vertex `v`, flattened in order.
pub open spec fn keep_tris_with(tris: Seq<u32>, v: u32, k: int) -> Seq<u32>
    decreases k,
{
    if k <= 0 {
        Seq::empty()
    } else if !tri_has(tris, k - 1, v) {
        keep_tris_with(tris, v, k - 1)
    } else {
        keep_tris_with(tris, v, k - 1)
            + seq![tris[3 * (k - 1)], tris[3 * (k - 1) + 1], tris[3 * (k - 1) + 2]]
    }
}

/// The first `k` triangles not holding both `a` and `b`, flattened in
/// order.
pub open spec fn drop_tris_with_pair(tris: Seq<u32>, a: u32, b: u32, k: int) -> Seq<u32>
    decreases k,
{
    if k <= 0 {
        Seq::empty()
    } else if tri_has(tris, k - 1, a) && tri_has(tris, k - 1, b) {
        drop_tris_with_pair(tris, a, b, k - 1)
    } else {
        drop_tris_with_pair(tris, a, b, k - 1)
            + seq![tris[3 * (k - 1)], tris[3 * (k - 1) + 1], tris[3 * (k - 1) + 2]]
    }
}

/// The first `k` triangles holding both `a` and `b`, flattened in order.
pub open spec fn keep_tris_with_pair(tris: Seq<u32>, a: u32, b: u32, k: int) -> Seq<u32>
    decreases k,
{
    if k <= 0 {
        Seq::empty()
    } else if !(tri_has(tris, k - 1, a) && tri_has(tris, k - 1, b)) {
        keep_tris_with_pair(tris, a, b, k - 1)
    } else {
        keep_tris_with_pair(tris, a, b, k - 1)
            + seq![tris[3 * (k - 1)], tris[3 * (k - 1) + 1], tris[3 * (k - 1) + 2]]
    }
}

/// Whether triangle `i` repeats an index: a degenerate sliver that
/// describes no face.
pub open spec fn tri_degenerate(tris: Seq<u32>, i: int) -> bool {
    tris[3 * i] == tris[3 * i + 1] || tris[3 * i + 1] == tris[3 * i + 2] || tris[3 * i + 2]
        == tris[3 * i]
}

/// The first `k` triangles that neither hold vertex `v` nor repeat an
/// index: what survives, as faces, once `v` is removed.
pub open spec fn proper_tris_without(tris: Seq<u32>, v: u32, k: int) -> Seq<u32>
    decreases k,
{
    if k <= 0 {
        Seq::empty()
    } else if tri_has(tris, k - 1, v) || tri_degenerate(tris, k - 1) {
        proper_tris_without(tris, v, k - 1)
    } else {
        proper_tris_without(tris, v, k - 1)
            + seq![tris[3 * (k - 1)], tris[3 * (k - 1) + 1], tris[3 * (k - 1) + 2]]
    }
}

/// The surviving-face listing stays within the buffer's bounds and
/// exclusions, never holds `v`, and holds no degenerate triangle.
pub proof fn lemma_proper_tris_ok(tris: Seq<u32>, v: u32, k: int, n: int, bank: Seq<usize>)
    requires
        0 <= 3 * k <= tris.len(),
        forall|idx: int| 0 <= idx < tris.len() ==> ((#[trigger] tris[idx]) as int) < n,
        forall|idx: int, j: int| 0 <= idx < tris.len() && 0 <= j < bank.len()
            ==> ((#[trigger] tris[idx]) as int) != (#[trigger] bank[j]) as int,
    ensures
        proper_tris_without(tris, v, k).len() % 3 == 0,
        forall|m: int| 0 <= m < proper_tris_without(tris, v, k).len()
            ==> ((#[trigger] proper_tris_without(tris, v, k)[m]) as int) < n,
        forall|m: int| 0 <= m < proper_tris_without(tris, v, k).len()
            ==> (#[trigger] proper_tris_without(tris, v, k)[m]) != v,
        forall|m: int, j: int|
            0 <= m < proper_tris_without(tris, v, k).len() && 0 <= j < bank.len()
                ==> ((#[trigger] proper_tris_without(tris, v, k)[m]) as int)
                    != (#[trigger] bank[j]) as int,
        forall|i: int| 0 <= 3 * i < proper_tris_without(tris, v, k).len()
            ==> !tri_degenerate(proper_tris_without(tris, v, k), i),
    decreases k,
{
    if k > 0 {
        lemma_proper_tris_ok(tris, v, k - 1, n, bank);
        if !(tri_has(tris, k - 1, v) || tri_degenerate(tris, k - 1)) {
            let prev = proper_tris_without(tris, v, k - 1);
            let cur = proper_tris_without(tris, v, k);
            assert forall|i: int| 0 <= 3 * i < cur.len()
                implies !tri_degenerate(cur, i) by {
                assert((prev.len() - 3 * i) % 3 == 0) by {
                    vstd::arithmetic::div_mod::lemma_mod_multiples_vanish(
                        -i, prev.len() as int, 3);
                }
                if 3 * i < prev.len() {
                    assert(3 * i + 3 <= prev.len()) by {
                        vstd::arithmetic::div_mod::lemma_fundamental_div_mod(
                            prev.len() - 3 * i, 3);
                    }
                    assert(!tri_degenerate(proper_tris_without(tris, v, k - 1), i));
                    assert(cur[3 * i] == prev[3 * i]);
                    assert(cur[3 * i + 1] == prev[3 * i + 1]);
                    assert(cur[3 * i + 2] == prev[3 * i + 2]);
                } else {
                    assert(3 * i == prev.len());
                    assert(cur[3 * i] == tris[3 * (k - 1)]);
                    assert(cur[3 * i + 1] == tris[3 * (k - 1) + 1]);
                    assert(cur[3 * i + 2] == tris[3 * (k - 1) + 2]);
                }
            }
        }
    }
}

/// A filtered triangle listing keeps whole triangles whose entries all come
/// from the buffer: they stay below any bound the buffer respects and meet
/// any exclusion the buffer meets; the dropped-`v` listing moreover never
/// holds `v`.
pub proof fn lemma_drop_tris_ok(tris: Seq<u32>, v: u32, k: int, n: int, bank: Seq<usize>)
    requires
        0 <= 3 * k <= tris.len(),
        forall|idx: int| 0 <= idx < tris.len() ==> ((#[trigger] tris[idx]) as int) < n,
        forall|idx: int, j: int| 0 <= idx < tris.len() && 0 <= j < bank.len()
            ==> ((#[trigger] tris[idx]) as int) != (#[trigger] bank[j]) as int,
    ensures
        drop_tris_with(tris, v, k).len() % 3 == 0,
        forall|m: int| 0 <= m < drop_tris_with(tris, v, k).len()
            ==> ((#[trigger] drop_tris_with(tris, v, k)[m]) as int) < n,
        forall|m: int| 0 <= m < drop_tris_with(tris, v, k).len()
            ==> (#[trigger] drop_tris_with(tris, v, k)[m]) != v,
        forall|m: int, j: int|
            0 <= m < drop_tris_with(tris, v, k).len() && 0 <= j < bank.len()
                ==> ((#[trigger] drop_tris_with(tris, v, k)[m]) as int)
                    != (#[trigger] bank[j]) as int,
    decreases k,
{
    if k > 0 {
        lemma_drop_tris_ok(tris, v, k - 1, n, bank);
    }
}

/// The kept-`v` listing likewise stays within the buffer's bounds and
/// exclusions.
pub proof fn lemma_keep_tris_ok(tris: Seq<u32>, v: u32, k: int, n: int, bank: Seq<usize>)
    requires
        0 <= 3 * k <= tris.len(),
        forall|idx: int| 0 <= idx < tris.len() ==> ((#[trigger] tris[idx]) as int) < n,
        forall|idx: int, j: int| 0 <= idx < tris.len() && 0 <= j < bank.len()
            ==> ((#[trigger] tris[idx]) as int) != (#[trigger] bank[j]) as int,
    ensures
        keep_tris_with(tris, v, k).len() % 3 == 0,
        forall|m: int| 0 <= m < keep_tris_with(tris, v, k).len()
            ==> ((#[trigger] keep_tris_with(tris, v, k)[m]) as int) < n,
        forall|m: int, j: int|
            0 <= m < keep_tris_with(tris, v, k).len() && 0 <= j < bank.len()
                ==> ((#[trigger] keep_tris_with(tris, v, k)[m]) as int)
                    != (#[trigger] bank[j]) as int,
    decreases k,
{
    if k > 0 {
        lemma_keep_tris_ok(tris, v, k - 1, n, bank);
    }
}

/// As `lemma_drop_tris_ok`, for the pair filter.
pub proof fn lemma_drop_tris_pair_ok(tris: Seq<u32>, a: u32, b: u32, k: int, n: int, bank: Seq<usize>)
    requires
        0 <= 3 * k <= tris.len(),
        forall|idx: int| 0 <= idx < tris.len() ==> ((#[trigger] tris[idx]) as int) < n,
        forall|idx: int, j: int| 0 <= idx < tris.len() && 0 <= j < bank.len()
            ==> ((#[trigger] tris[idx]) as int) != (#[trigger] bank[j]) as int,
    ensures
        drop_tris_with_pair(tris, a, b, k).len() % 3 == 0,
        forall|m: int| 0 <= m < drop_tris_with_pair(tris, a, b, k).len()
            ==> ((#[trigger] drop_tris_with_pair(tris, a, b, k)[m]) as int) < n,
        forall|m: int, j: int|
            0 <= m < drop_tris_with_pair(tris, a, b, k).len() && 0 <= j < bank.len()
                ==> ((#[trigger] drop_tris_with_pair(tris, a, b, k)[m]) as int)
                    != (#[trigger] bank[j]) as int,
    decreases k,
{
    if k > 0 {
        lemma_drop_tris_pair_ok(tris, a, b, k - 1, n, bank);
    }
}

/// As `lemma_keep_tris_ok`, for the pair filter.
pub proof fn lemma_keep_tris_pair_ok(tris: Seq<u32>, a: u32, b: u32, k: int, n: int, bank: Seq<usize>)
    requires
        0 <= 3 * k <= tris.len(),
        forall|idx: int| 0 <= idx < tris.len() ==> ((#[trigger] tris[idx]) as int) < n,
        forall|idx: int, j: int| 0 <= idx < tris.len() && 0 <= j < bank.len()
            ==> ((#[trigger] tris[idx]) as int) != (#[trigger] bank[j]) as int,
    ensures
        keep_tris_with_pair(tris, a, b, k).len() % 3 == 0,
        forall|m: int| 0 <= m < keep_tris_with_pair(tris, a, b, k).len()
            ==> ((#[trigger] keep_tris_with_pair(tris, a, b, k)[m]) as int) < n,
        forall|m: int, j: int|
            0 <= m < keep_tris_with_pair(tris, a, b, k).len() && 0 <= j < bank.len()
                ==> ((#[trigger] keep_tris_with_pair(tris, a, b, k)[m]) as int)
                    != (#[trigger] bank[j]) as int,
    decreases k,
{
    if k > 0 {
        lemma_keep_tris_pair_ok(tris, a, b, k - 1, n, bank);
    }
}

/// A directed edge's endpoints both stand in the buffer: the first at its
/// own position, the second at a definite other position.
pub proof fn lemma_edge32_at_in_tris(tris: Seq<u32>, j: int) -> (idx2: int)
    requires
        tris.len() % 3 == 0,
        0 <= j < tris.len(),
    ensures
        0 <= idx2 < tris.len(),
        edge32_at(tris, j).0 == tris[j],
        edge32_at(tris, j).1 == tris[idx2],
{
    let t = j / 3 * 3;
    assert(t <= j && j < t + 3) by {
        vstd::arithmetic::div_mod::lemma_fundamental_div_mod(j, 3);
        vstd::arithmetic::div_mod::lemma_mod_bound(j, 3);
    }
    assert(t + 3 <= tris.len()) by {
        assert((tris.len() - t) % 3 == 0) by {
            vstd::arithmetic::div_mod::lemma_mod_multiples_vanish(
                -(j / 3), tris.len() as int, 3);
        }
    }
    assert(0 <= (j - t + 1) % 3 < 3) by {
        vstd::arithmetic::div_mod::lemma_mod_bound(j - t + 1, 3);
    }
    t + (j - t + 1) % 3
}

/// The re-triangulation around `target` produces whole triangles whose
/// entries are entries of the buffer or `target` itself: they respect any
/// bound and exclusion that both respect.
pub proof fn lemma_connect_point_ok(tris: Seq<u32>, target: u32, k: int, n: int, bank: Seq<usize>)
    requires
        tris.len() % 3 == 0,
        0 <= k <= tris.len(),
        forall|idx: int| 0 <= idx < tris.len() ==> ((#[trigger] tris[idx]) as int) < n,
        forall|idx: int, j: int| 0 <= idx < tris.len() && 0 <= j < bank.len()
            ==> ((#[trigger] tris[idx]) as int) != (#[trigger] bank[j]) as int,
        (target as int) < n,
        forall|j: int| 0 <= j < bank.len() ==> (target as int) != (#[trigger] bank[j]) as int,
    ensures
        connect_up_to(tris, target, k).len() % 3 == 0,
        forall|m: int| 0 <= m < connect_up_to(tris, target, k).len()
            ==> ((#[trigger] connect_up_to(tris, target, k)[m]) as int) < n,
        forall|m: int, j: int|
            0 <= m < connect_up_to(tris, target, k).len() && 0 <= j < bank.len()
                ==> ((#[trigger] connect_up_to(tris, target, k)[m]) as int)
                    != (#[trigger] bank[j]) as int,
    decreases k,
{
    if k > 0 {
        lemma_connect_point_ok(tris, target, k - 1, n, bank);
        if !has_rev(tris, k - 1) {
            let idx2 = lemma_edge32_at_in_tris(tris, k - 1);
        }
    }
}

} // verus!
