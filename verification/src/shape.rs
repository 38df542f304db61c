//! The geodesic base mesh.
//!
//! A shape is a triangle index buffer over a counted pool of vertices; the
//! vertex positions themselves are the host's concern. Subdivision replaces
//! every triangle by four, caching each edge's midpoint under a canonical key
//! so that it is synthesised exactly once, and reports the parent pair of
//! every new vertex so the host can place it.

use std::collections::HashMap;

use crate::mesh::{
    edge32_at, edge_at, edges_distinct, edges_proper, edges_two_sided, has_rev, kept,
    lemma_undirected_edge_source, order_edge, undirected_edges, undirected_edges_up_to,
};
use vstd::prelude::*;

verus! {

broadcast use vstd::std_specs::hash::group_hash_axioms,
    vstd::seq_lib::lemma_seq_contains_after_push;

/// A triangle mesh over `vertex_count` vertices: three vertex indices per
/// triangle, wound consistently.
pub struct Shape {
    pub vertex_count: usize,
    pub indices: Vec<u32>,
}

impl Shape {
    /// Structural validity: whole triangles only, every index in range, and
    /// every vertex addressable by the `u32` index type.
    pub open spec fn wf(self) -> bool {
        &&& self.indices@.len() % 3 == 0
        &&& self.vertex_count <= 0xffffffff
        &&& forall|k: int| 0 <= k < self.indices@.len()
            ==> (#[trigger] self.indices@[k] as int) < self.vertex_count
    }

    /// A shape from the given vertex pool size and index buffer.
    pub fn new(vertex_count: usize, indices: Vec<u32>) -> (s: Shape)
        ensures
            s.vertex_count == vertex_count,
            s.indices == indices,
    {
        Shape { vertex_count, indices }
    }
}

/// `4^n`.
pub open spec fn pow4(n: nat) -> nat
    decreases n,
{
    if n <= 0 {
        1
    } else {
        4 * pow4((n - 1) as nat)
    }
}

pub proof fn lemma_pow4_pos(n: nat)
    ensures
        pow4(n) >= 1,
    decreases n,
{
    if n > 0 {
        lemma_pow4_pos((n - 1) as nat);
    }
}

/// Twenty quadrupled `n` times over is still a `u32` while `n` stays
/// within the subdivision depths the index type can hold at all.
pub proof fn lemma_tri_count_fits(n: nat)
    requires
        n <= 13,
    ensures
        20 * pow4(n) <= u32::MAX,
{
    reveal_with_fuel(pow4, 14);
    lemma_pow4_monotone(n, 13);
}

/// The number of triangles an `n`-times-subdivided icosahedron holds:
/// twenty, quadrupled per subdivision.
pub fn tri_count_at_n(n: u32) -> (r: u32)
    requires
        n <= 13,
    ensures
        r == 20 * pow4(n as nat),
{
    proof {
        lemma_tri_count_fits(n as nat);
    }
    let mut r: u32 = 20;
    let mut i: u32 = 0;
    while i < n
        invariant
            i <= n,
            n <= 13,
            r == 20 * pow4(i as nat),
            20 * pow4(n as nat) <= u32::MAX,
        decreases n - i,
    {
        proof {
            lemma_pow4_step_le(i as nat, n as nat);
        }
        r = r * 4;
        i = i + 1;
    }
    r
}

/// On a closed icosphere the vertex count is half the triangle count plus
/// two.
pub fn vert_count_from_tri(tris: u32) -> (r: u32)
    ensures
        r == tris / 2 + 2,
{
    tris / 2 + 2
}

proof fn lemma_pow4_monotone(a: nat, b: nat)
    requires
        a <= b,
    ensures
        pow4(a) <= pow4(b),
    decreases b,
{
    if a < b {
        lemma_pow4_monotone(a, (b - 1) as nat);
        lemma_pow4_pos((b - 1) as nat);
    }
}

proof fn lemma_pow4_step_le(i: nat, n: nat)
    requires
        i < n,
    ensures
        20 * pow4(i as nat) * 4 <= 20 * pow4(n as nat),
{
    lemma_pow4_monotone((i + 1) as nat, n);
    assert(pow4((i + 1) as nat) == 4 * pow4(i));
    assert(20 * (4 * pow4(i)) == 20 * pow4(i) * 4) by (nonlinear_arith);
    assert(20 * pow4((i + 1) as nat) <= 20 * pow4(n)) by (nonlinear_arith)
        requires
            pow4((i + 1) as nat) <= pow4(n),
    {
    }
}

/// The index buffer of the canonical icosahedron: twenty triangles over
/// twelve vertices placed from the golden ratio, all wound the same way.
pub open spec fn icosa_indices() -> Seq<u32> {
    seq![
        0u32, 11, 5, 0, 5, 1, 0, 1, 7, 0, 7, 10, 0, 10, 11,
        1, 5, 9, 5, 11, 4, 11, 10, 2, 10, 7, 6, 7, 1, 8,
        3, 9, 4, 3, 4, 2, 3, 2, 6, 3, 6, 8, 3, 8, 9,
        4, 9, 5, 2, 4, 11, 6, 2, 10, 8, 6, 7, 9, 8, 1,
    ]
}

impl Shape {
    /// The canonical geodesic solid: twelve vertices, twenty triangles.
    pub fn icosahedron() -> (s: Shape)
        ensures
            s.wf(),
            s.vertex_count == 12,
            s.indices@ == icosa_indices(),
            s.indices@.len() == 60,
    {
        let indices: Vec<u32> = vec![
            0u32, 11, 5, 0, 5, 1, 0, 1, 7, 0, 7, 10, 0, 10, 11,
            1, 5, 9, 5, 11, 4, 11, 10, 2, 10, 7, 6, 7, 1, 8,
            3, 9, 4, 3, 4, 2, 3, 2, 6, 3, 6, 8, 3, 8, 9,
            4, 9, 5, 2, 4, 11, 6, 2, 10, 8, 6, 7, 9, 8, 1,
        ];
        proof {
            assert(indices@ =~= icosa_indices());
            assert(forall|k: int| 0 <= k < 60 ==> (#[trigger] icosa_indices()[k] as int) < 12);
        }
        Shape { vertex_count: 12, indices }
    }
}

/// The cache key of the undirected edge `{a, b}`: the larger index in the
/// upper half of the word, the smaller in the lower.
pub open spec fn edge_key_spec(a: u32, b: u32) -> u64 {
    (if a > b {
        (a as int) * 0x100000000 + (b as int)
    } else {
        (b as int) * 0x100000000 + (a as int)
    }) as u64
}

/// The cache key of directed edge `j` of the buffer.
pub open spec fn flat_key(tris: Seq<u32>, j: int) -> u64 {
    edge_key_spec(edge32_at(tris, j).0, edge32_at(tris, j).1)
}

/// The cache key of an element of the undirected edge listing.
pub open spec fn upair_key(e: (usize, usize)) -> u64 {
    edge_key_spec(e.0 as u32, e.1 as u32)
}

/// One cache key names one undirected edge.
pub proof fn lemma_edge_key_injective(a: u32, b: u32, c: u32, d: u32)
    requires
        edge_key_spec(a, b) == edge_key_spec(c, d),
    ensures
        (a == c && b == d) || (a == d && b == c),
{
    let h1: int = if a > b { a as int } else { b as int };
    let l1: int = if a > b { b as int } else { a as int };
    let h2: int = if c > d { c as int } else { d as int };
    let l2: int = if c > d { d as int } else { c as int };
    assert(0 <= h1 * 0x100000000 <= 0xffffffff00000000) by (nonlinear_arith)
        requires
            0 <= h1 <= 0xffffffff,
    {
    }
    assert(0 <= h2 * 0x100000000 <= 0xffffffff00000000) by (nonlinear_arith)
        requires
            0 <= h2 <= 0xffffffff,
    {
    }
    assert(h1 * 0x100000000 + l1 == h2 * 0x100000000 + l2);
    vstd::arithmetic::div_mod::lemma_fundamental_div_mod_converse(
        h1 * 0x100000000 + l1, 0x100000000, h1, l1);
    vstd::arithmetic::div_mod::lemma_fundamental_div_mod_converse(
        h2 * 0x100000000 + l2, 0x100000000, h2, l2);
}

/// Every cached midpoint index names a synthesised vertex that already
/// exists: at or above the original pool, below the current count.
pub open spec fn cache_ok(m: Map<u64, u32>, vinit: int, vcount: int) -> bool {
    forall|k: u64| m.dom().contains(k)
        ==> vinit <= (#[trigger] m[k] as int) < vcount
}

/// Every recorded parent pair references only vertices that existed before
/// the midpoint it explains: pair `j` describes vertex `vinit + j`.
pub open spec fn pairs_ok(ps: Seq<(u32, u32)>, vinit: int) -> bool {
    forall|j: int| 0 <= j < ps.len()
        ==> ((#[trigger] ps[j]).0 as int) < vinit + j && (ps[j].1 as int) < vinit + j
}

/// The cached midpoint of edge `{a, b}`, synthesising the vertex — and
/// recording its parent pair — the first time the edge's key is seen.
fn midpoint_index(
    cache: &mut HashMap<u64, u32>,
    pairs: &mut Vec<(u32, u32)>,
    vcount: &mut usize,
    vinit: usize,
    a: u32,
    b: u32,
) -> (m: u32)
    requires
        cache_ok(old(cache)@, vinit as int, *old(vcount) as int),
        *old(vcount) == vinit + old(pairs)@.len(),
        pairs_ok(old(pairs)@, vinit as int),
        (a as int) < *old(vcount),
        (b as int) < *old(vcount),
        *old(vcount) < 0xffffffff,
    ensures
        cache_ok(final(cache)@, vinit as int, *final(vcount) as int),
        *final(vcount) == vinit + final(pairs)@.len(),
        pairs_ok(final(pairs)@, vinit as int),
        (m as int) < *final(vcount),
        if old(cache)@.dom().contains(edge_key_spec(a, b)) {
            &&& *final(vcount) == *old(vcount)
            &&& final(pairs)@ == old(pairs)@
            &&& final(cache)@ == old(cache)@
            &&& m == old(cache)@[edge_key_spec(a, b)]
        } else {
            &&& *final(vcount) == *old(vcount) + 1
            &&& final(pairs)@ == old(pairs)@.push(
                if a > b {
                    (a, b)
                } else {
                    (b, a)
                },
            )
            &&& final(cache)@ == old(cache)@.insert(edge_key_spec(a, b), m)
            &&& m as int == *old(vcount)
        },
{
    let e = order_edge(a, b);
    let key: u64 = (e.0 as u64) * 0x100000000 + (e.1 as u64);
    proof {
        assert(key == edge_key_spec(a, b));
    }
    match cache.get(&key) {
        Some(m) => *m,
        None => {
            let m = *vcount as u32;
            cache.insert(key, m);
            pairs.push((e.0, e.1));
            *vcount = *vcount + 1;
            m
        },
    }
}

/// The four replacement triangles of source triangle `tt` stand in their
/// places: the middle triangle's three midpoints first, then one corner
/// triangle per original corner — the corner at its slot, flanked by the two
/// midpoints of its edges, every midpoint shared with the middle triangle
/// and none an original vertex.
pub open spec fn block_shape(src: Seq<u32>, out: Seq<u32>, vinit: int, tt: int) -> bool {
    &&& out[12 * tt + 3] == src[3 * tt]
    &&& out[12 * tt + 6] == src[3 * tt + 1]
    &&& out[12 * tt + 9] == src[3 * tt + 2]
    &&& out[12 * tt + 4] == out[12 * tt]
    &&& out[12 * tt + 5] == out[12 * tt + 2]
    &&& out[12 * tt + 7] == out[12 * tt + 1]
    &&& out[12 * tt + 8] == out[12 * tt]
    &&& out[12 * tt + 10] == out[12 * tt + 2]
    &&& out[12 * tt + 11] == out[12 * tt + 1]
    &&& vinit <= out[12 * tt] as int
    &&& vinit <= out[12 * tt + 1] as int
    &&& vinit <= out[12 * tt + 2] as int
}

impl Shape {
    /// One level of subdivision: every triangle becomes its middle triangle
    /// plus one corner triangle per corner, all wound as the original; each
    /// undirected edge gains a midpoint vertex, synthesised the first time
    /// its canonical key is seen and reused on every later sight.
    ///
    /// Midpoints are synthesised in a first pass over the undirected edge
    /// listing, so over a consistently wound closed buffer — directed edges
    /// pairwise distinct, each accompanied by its reverse, none degenerate —
    /// each edge is split exactly once: the new vertices number exactly the
    /// undirected edges.
    #[verifier::loop_isolation(false)]
    #[verifier::rlimit(60)]
    pub fn subdivide_once(self) -> (r: (Shape, Vec<(u32, u32)>))
        requires
            self.wf(),
            self.vertex_count + 2 * self.indices@.len() <= 0xffffffff,
        ensures
            r.0.wf(),
            r.0.indices@.len() == 4 * self.indices@.len(),
            r.0.vertex_count == self.vertex_count + r.1@.len(),
            r.1@.len() <= 2 * self.indices@.len(),
            pairs_ok(r.1@, self.vertex_count as int),
            forall|tt: int| 0 <= tt < self.indices@.len() as int / 3
                ==> #[trigger] block_shape(
                    self.indices@,
                    r.0.indices@,
                    self.vertex_count as int,
                    tt,
                ),
            (edges_distinct(self.indices@) && edges_two_sided(self.indices@)
                && edges_proper(self.indices@))
                ==> r.1@.len() == undirected_edges(self.indices@).len()
                    && 2 * r.1@.len() == self.indices@.len(),
    {
        let Shape { vertex_count: vinit, indices } = self;
        let ghost tris = indices@;
        let ghost hyp = edges_distinct(tris) && edges_two_sided(tris) && edges_proper(tris);
        let mut vcount = vinit;
        let mut pairs: Vec<(u32, u32)> = Vec::new();
        let mut cache: HashMap<u64, u32> = HashMap::new();
        let ghost mut inserted: Seq<u64> = Seq::empty();
        let n = indices.len();
        // first pass: walk the directed edges and split each undirected
        // edge at its increasing occurrence
        let mut k: usize = 0;
        while k < n
            invariant
                k <= n,
                cache_ok(cache@, vinit as int, vcount as int),
                vcount == vinit + pairs@.len(),
                pairs_ok(pairs@, vinit as int),
                pairs@.len() == inserted.len(),
                pairs@.len() <= k,
                forall|z: u64| cache@.dom().contains(z) <==> inserted.contains(z),
                forall|j: int| 0 <= j < k && kept(tris, j)
                    ==> cache@.dom().contains(#[trigger] flat_key(tris, j)),
                hyp ==> pairs@.len() == undirected_edges_up_to(tris, k as int).len(),
                hyp ==> forall|mi: int| 0 <= mi < inserted.len()
                    ==> inserted[mi] == upair_key(
                        #[trigger] undirected_edges_up_to(tris, k as int)[mi],
                    ),
            decreases n - k,
        {
            let j: usize = k % 3;
            let t: usize = k - j;
            proof {
                assert(t + 3 <= n) by {
                    vstd::arithmetic::div_mod::lemma_fundamental_div_mod(k as int, 3);
                    vstd::arithmetic::div_mod::lemma_mod_bound(k as int, 3);
                    assert((n - t) % 3 == 0) by {
                        vstd::arithmetic::div_mod::lemma_mod_multiples_vanish(
                            -(k as int / 3), n as int, 3);
                    }
                }
                assert(k as int / 3 * 3 == t) by {
                    vstd::arithmetic::div_mod::lemma_fundamental_div_mod(k as int, 3);
                }
            }
            let x = indices[k];
            let yi: usize = t + (j + 1) % 3;
            let y = indices[yi];
            proof {
                assert(edge32_at(tris, k as int) == (x, y));
                assert(edge_at(tris, k as int) == (x as usize, y as usize));
            }
            if x < y {
                assert(kept(tris, k as int));
                let ghost had = cache@.dom().contains(edge_key_spec(x, y));
                proof {
                    if hyp && had {
                        // the key was inserted for an earlier kept edge:
                        // two increasing edges with one key are one directed
                        // edge, twice in the buffer — excluded
                        assert(inserted.contains(edge_key_spec(x, y)));
                        let mi = choose|mi: int|
                            0 <= mi < inserted.len() && inserted[mi] == edge_key_spec(x, y);
                        assert(inserted[mi] == upair_key(
                            undirected_edges_up_to(tris, k as int)[mi]));
                        let src = lemma_undirected_edge_source(tris, k as int, mi);
                        let e2 = edge32_at(tris, src);
                        assert(upair_key(edge_at(tris, src)) == edge_key_spec(e2.0, e2.1));
                        lemma_edge_key_injective(x, y, e2.0, e2.1);
                        assert(edge_at(tris, src) == edge_at(tris, k as int));
                        assert(false);
                    }
                }
                let m = midpoint_index(&mut cache, &mut pairs, &mut vcount, vinit, x, y);
                proof {
                    if !had {
                        inserted = inserted.push(edge_key_spec(x, y));
                    }
                    assert forall|z: u64| cache@.dom().contains(z)
                        <==> inserted.contains(z) by {
                    }
                }
            } else {
                proof {
                    assert(!kept(tris, k as int));
                }
            }
            proof {
                assert(undirected_edges_up_to(tris, k + 1) == (
                    if kept(tris, k as int) {
                        undirected_edges_up_to(tris, k as int).push(edge_at(tris, k as int))
                    } else {
                        undirected_edges_up_to(tris, k as int)
                    }
                ));
            }
            k = k + 1;
        }
        // second pass: rebuild every triangle around its edge midpoints
        let mut new_indices: Vec<u32> = Vec::new();
        let mut base: usize = 0;
        while base < n
            invariant
                base % 3 == 0,
                base <= n,
                cache_ok(cache@, vinit as int, vcount as int),
                vcount == vinit + pairs@.len(),
                pairs_ok(pairs@, vinit as int),
                pairs@.len() <= n + base,
                forall|j: int| 0 <= j < tris.len() && kept(tris, j)
                    ==> cache@.dom().contains(#[trigger] flat_key(tris, j)),
                hyp ==> pairs@.len() == undirected_edges(tris).len(),
                new_indices@.len() == 4 * base,
                forall|q: int| 0 <= q < new_indices@.len()
                    ==> (#[trigger] new_indices@[q] as int) < vcount,
                forall|tt: int| 0 <= tt < base as int / 3
                    ==> #[trigger] block_shape(tris, new_indices@, vinit as int, tt),
            decreases n - base,
        {
            assert(base + 3 <= n) by {
                assert((n - base) % 3 == 0) by {
                    vstd::arithmetic::div_mod::lemma_mod_multiples_vanish(
                        -(base as int / 3), n as int, 3);
                }
            }
            let a = indices[base];
            let b = indices[base + 1];
            let c = indices[base + 2];
            proof {
                assert(base as int / 3 * 3 == base);
                assert((base + 1) as int / 3 * 3 == base);
                assert((base + 2) as int / 3 * 3 == base);
                assert(edge32_at(tris, base as int) == (a, b));
                assert(edge32_at(tris, base + 1) == (b, c));
                assert(edge32_at(tris, base + 2) == (c, a));
            }
            proof {
                if hyp {
                    lemma_pass_two_hit(tris, cache@, base as int, a, b);
                }
            }
            let mab = midpoint_index(&mut cache, &mut pairs, &mut vcount, vinit, a, b);
            proof {
                if hyp {
                    lemma_pass_two_hit(tris, cache@, base + 1, b, c);
                }
            }
            let mbc = midpoint_index(&mut cache, &mut pairs, &mut vcount, vinit, b, c);
            proof {
                if hyp {
                    lemma_pass_two_hit(tris, cache@, base + 2, c, a);
                }
            }
            let mca = midpoint_index(&mut cache, &mut pairs, &mut vcount, vinit, c, a);
            let ghost nprev = new_indices@;
            // the middle triangle, then one corner triangle per original
            // corner, all wound as the original was
            new_indices.push(mab);
            new_indices.push(mbc);
            new_indices.push(mca);
            new_indices.push(a);
            new_indices.push(mab);
            new_indices.push(mca);
            new_indices.push(b);
            new_indices.push(mbc);
            new_indices.push(mab);
            new_indices.push(c);
            new_indices.push(mca);
            new_indices.push(mbc);
            proof {
                let l = nprev.len() as int;
                assert(new_indices@.len() == l + 12);
                assert(forall|q: int| 0 <= q < l ==> new_indices@[q] == nprev[q]);
                assert(new_indices@[l] == mab && new_indices@[l + 1] == mbc
                    && new_indices@[l + 2] == mca && new_indices@[l + 3] == a
                    && new_indices@[l + 4] == mab && new_indices@[l + 5] == mca
                    && new_indices@[l + 6] == b && new_indices@[l + 7] == mbc
                    && new_indices@[l + 8] == mab && new_indices@[l + 9] == c
                    && new_indices@[l + 10] == mca && new_indices@[l + 11] == mbc);
                assert((base + 3) as int / 3 == base as int / 3 + 1);
                assert forall|tt: int| 0 <= tt < (base + 3) as int / 3
                    implies #[trigger] block_shape(tris, new_indices@, vinit as int, tt) by {
                    if tt < base as int / 3 {
                        assert(12 * tt + 11 < l);
                        assert(block_shape(tris, nprev, vinit as int, tt));
                    } else {
                        assert(12 * tt == l);
                    }
                }
            }
            base = base + 3;
        }
        proof {
            assert(new_indices@.len() % 3 == 0) by {
                assert(new_indices@.len() == 3 * n + n);
                vstd::arithmetic::div_mod::lemma_mod_multiples_vanish(n as int, n as int, 3);
            }
            if hyp {
                crate::mesh::lemma_undirected_edges_half(tris);
            }
        }
        (Shape { vertex_count: vcount, indices: new_indices }, pairs)
    }
}

/// In the second pass every canonical key is already cached: the edge's
/// increasing copy — itself, or the reverse a consistent winding promises —
/// was split in the first pass.
proof fn lemma_pass_two_hit(tris: Seq<u32>, cache: Map<u64, u32>, kf: int, x: u32, y: u32)
    requires
        tris.len() % 3 == 0,
        0 <= kf < tris.len(),
        edge32_at(tris, kf) == (x, y),
        edges_two_sided(tris),
        edges_proper(tris),
        forall|j: int| 0 <= j < tris.len() && kept(tris, j)
            ==> cache.dom().contains(#[trigger] flat_key(tris, j)),
    ensures
        cache.dom().contains(edge_key_spec(x, y)),
{
    assert(edge_at(tris, kf) == (x as usize, y as usize));
    if x < y {
        assert(kept(tris, kf));
        assert(cache.dom().contains(flat_key(tris, kf)));
        assert(flat_key(tris, kf) == edge_key_spec(x, y));
    } else {
        assert(edge_at(tris, kf).0 != edge_at(tris, kf).1);
        assert(x != y);
        assert(has_rev(tris, kf));
        let jr = choose|jr: int|
            0 <= jr < tris.len() && #[trigger] edge_at(tris, jr) == (
            edge_at(tris, kf).1,
            edge_at(tris, kf).0,
            );
        assert(edge_at(tris, jr) == (y as usize, x as usize));
        assert(edge32_at(tris, jr).0 == y && edge32_at(tris, jr).1 == x);
        assert(kept(tris, jr));
        assert(cache.dom().contains(flat_key(tris, jr)));
        assert(flat_key(tris, jr) == edge_key_spec(y, x));
        assert(edge_key_spec(y, x) == edge_key_spec(x, y));
    }
}

impl Shape {
    /// Replaces every triangle by four, `iterations` times over, splitting
    /// each undirected edge exactly once per level.
    ///
    /// Returns the subdivided shape together with the parent pair of every
    /// new vertex, in order of synthesis: pair `j` describes vertex
    /// `self.vertex_count + j` and references only vertices before it, so
    /// the host can place the new vertices by folding midpoints forward.
    ///
    /// A vertex pool that would outgrow the `u32` index type is rejected by
    /// the precondition rather than truncated.
    pub fn subdivide(self, iterations: u8) -> (r: (Shape, Vec<(u32, u32)>))
        requires
            self.wf(),
            self.vertex_count + self.indices@.len() * pow4(iterations as nat) <= 0xffffffff,
        ensures
            r.0.wf(),
            r.0.indices@.len() == self.indices@.len() * pow4(iterations as nat),
            r.0.vertex_count == self.vertex_count + r.1@.len(),
            pairs_ok(r.1@, self.vertex_count as int),
            iterations == 0 ==> r.0.indices@ == self.indices@
                && r.0.vertex_count == self.vertex_count && r.1@.len() == 0,
            iterations == 1 ==> forall|tt: int| 0 <= tt < self.indices@.len() as int / 3
                ==> #[trigger] block_shape(
                    self.indices@,
                    r.0.indices@,
                    self.vertex_count as int,
                    tt,
                ),
            (iterations == 1 && edges_distinct(self.indices@) && edges_two_sided(self.indices@)
                && edges_proper(self.indices@)) ==> r.1@.len() == undirected_edges(
                self.indices@,
            ).len() && 2 * r.1@.len() == self.indices@.len(),
    {
        let vinit = self.vertex_count;
        let mut shape = self;
        let mut pairs: Vec<(u32, u32)> = Vec::new();
        proof {
            lemma_budget_entry(vinit as int, shape.indices@.len() as int, iterations as nat);
            assert(pow4(0) == 1);
            assert(shape.indices@.len() * pow4(0) == shape.indices@.len()) by (nonlinear_arith)
                requires
                    pow4(0) == 1,
            {
            }
        }
        let ghost len0 = self.indices@.len() as int;
        let mut it: u8 = 0;
        while it < iterations
            invariant
                it <= iterations,
                shape.wf(),
                shape.indices@.len() == len0 * pow4(it as nat),
                len0 == self.indices@.len(),
                shape.vertex_count == vinit + pairs@.len(),
                vinit == self.vertex_count,
                pairs_ok(pairs@, vinit as int),
                3 * shape.vertex_count + 2 * (pow4((iterations - it) as nat) - 1)
                    * shape.indices@.len() <= 3 * 0xffffffff,
                it == 0 ==> shape.indices@ == self.indices@
                    && shape.vertex_count == self.vertex_count && pairs@.len() == 0,
                it == 1 ==> forall|tt: int| 0 <= tt < self.indices@.len() as int / 3
                    ==> #[trigger] block_shape(
                        self.indices@,
                        shape.indices@,
                        self.vertex_count as int,
                        tt,
                    ),
                (it == 1 && edges_distinct(self.indices@) && edges_two_sided(self.indices@)
                    && edges_proper(self.indices@)) ==> pairs@.len() == undirected_edges(
                    self.indices@,
                ).len() && 2 * pairs@.len() == self.indices@.len(),
            decreases iterations - it,
        {
            let ghost old_len = shape.indices@.len() as int;
            let ghost old_vcount = shape.vertex_count as int;
            let ghost rem = (iterations - it) as nat;
            proof {
                lemma_budget_room(old_vcount, old_len, rem);
                lemma_pow4_pos(rem);
            }
            let ghost p_old = pairs@;
            let (s2, mut new_pairs) = shape.subdivide_once();
            let ghost p_new = new_pairs@;
            let ghost grown = p_new.len() as int;
            shape = s2;
            pairs.append(&mut new_pairs);
            proof {
                lemma_budget_step(old_vcount, old_len, grown, rem);
                assert(4 * (len0 * pow4(it as nat)) == len0 * pow4((it + 1) as nat))
                    by (nonlinear_arith)
                    requires
                        pow4((it + 1) as nat) == 4 * pow4(it as nat),
                {
                }
                assert(pairs@.take(p_old.len() as int) =~= p_old);
                assert(pairs@.skip(p_old.len() as int) =~= p_new);
                lemma_pairs_ok_append(pairs@, vinit as int, old_vcount, grown);
            }
            it = it + 1;
        }
        proof {
            lemma_pow4_pos((iterations - it) as nat);
            assert(2 * (pow4((iterations - it) as nat) - 1) * shape.indices@.len() >= 0)
                by (nonlinear_arith)
                requires
                    pow4((iterations - it) as nat) >= 1,
                    shape.indices@.len() >= 0,
            {
            }
        }
        (shape, pairs)
    }
}

/// Parent pairs of one level, appended after earlier levels' pairs, still
/// reference only vertices before each midpoint.
proof fn lemma_pairs_ok_append(ps: Seq<(u32, u32)>, vinit: int, vmid: int, grown: int)
    requires
        0 <= grown,
        vmid == vinit + ps.len() - grown,
        grown <= ps.len(),
        pairs_ok(ps.take(ps.len() - grown), vinit),
        pairs_ok(ps.skip(ps.len() - grown), vmid),
    ensures
        pairs_ok(ps, vinit),
{
    assert forall|j: int| 0 <= j < ps.len()
        implies ((#[trigger] ps[j]).0 as int) < vinit + j && (ps[j].1 as int) < vinit + j by {
        if j < ps.len() - grown {
            assert(ps[j] == ps.take(ps.len() - grown)[j]);
        } else {
            assert(ps[j] == ps.skip(ps.len() - grown)[j - (ps.len() - grown)]);
        }
    }
}

proof fn lemma_budget_entry(v: int, len: int, n: nat)
    requires
        0 <= v,
        0 <= len,
        v + len * pow4(n) <= 0xffffffff,
    ensures
        3 * v + 2 * (pow4(n) - 1) * len <= 3 * 0xffffffff,
{
    lemma_pow4_pos(n);
    assert(2 * (pow4(n) - 1) * len <= 3 * (len * pow4(n))) by (nonlinear_arith)
        requires
            pow4(n) >= 1,
            len >= 0,
    {
    }
}

proof fn lemma_budget_step(v: int, len: int, d: int, rem: nat)
    requires
        rem >= 1,
        0 <= v,
        0 <= len,
        0 <= d <= 2 * len,
        3 * v + 2 * (pow4(rem) - 1) * len <= 3 * 0xffffffff,
    ensures
        3 * (v + d) + 2 * (pow4((rem - 1) as nat) - 1) * (4 * len) <= 3 * 0xffffffff,
{
    lemma_pow4_pos((rem - 1) as nat);
    assert(pow4(rem) == 4 * pow4((rem - 1) as nat));
    assert(2 * (pow4((rem - 1) as nat) - 1) * (4 * len) + 3 * d
        <= 2 * (4 * pow4((rem - 1) as nat) - 1) * len) by (nonlinear_arith)
        requires
            0 <= d <= 2 * len,
            0 <= len,
            pow4((rem - 1) as nat) >= 1,
    {
    }
}

proof fn lemma_budget_room(v: int, len: int, rem: nat)
    requires
        rem >= 1,
        0 <= v,
        0 <= len,
        3 * v + 2 * (pow4(rem) - 1) * len <= 3 * 0xffffffff,
    ensures
        v + 2 * len <= 0xffffffff,
{
    lemma_pow4_pos((rem - 1) as nat);
    assert(pow4(rem) == 4 * pow4((rem - 1) as nat));
    assert(6 * len <= 2 * (pow4(rem) - 1) * len) by (nonlinear_arith)
        requires
            pow4(rem) >= 4,
            len >= 0,
    {
    }
}

} // verus!
