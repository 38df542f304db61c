//! The planet's surface: cells, plates, and the live triangle mesh.
//!
//! One cell per active mesh vertex carries the rendered attributes; plates
//! group cells that move together; the bank pools the indices of retired
//! cell slots, which the triangle buffer never references. All scalar
//! attributes are fixed-point integers: heights in thousandths of a
//! kilometre, humidity in thousandths of a gram per cubic metre, fractions
//! and comparison values in thousandths of a unit.

use crate::geometry::{bounded3, dist_sq_spec, lemma_normalize_roundness,
    lemma_sqrt_floor_at_least, norm_sq_spec, normalize_spec, on_sphere, sum_spec, Vec3, SCALE};
use crate::mesh::{connect_point, connect_point_spec, drop_tris_with, drop_tris_with_pair,
    lemma_proper_tris_ok, proper_tris_without,
    indices_to_edges, keep_tris_with, keep_tris_with_pair, lemma_connect_point_ok,
    lemma_drop_tris_ok, lemma_drop_tris_pair_ok, lemma_keep_tris_ok, lemma_keep_tris_pair_ok,
    lemma_undirected_edges_bounded, tri_has, undirected_edges};
use crate::rng::{rand_below, rand_signed};
use crate::shape::Shape;
use vstd::prelude::*;

verus! {

/// Greatest height above (and below) sea level a cell can carry, in
/// thousandths of a kilometre.
pub const HEIGHT_CAP: i64 = 10000;

/// Greatest humidity a cell can carry, in thousandths of a gram per cubic
/// metre.
pub const HUMIDITY_CAP: i64 = 100000;

/// Full water coverage, in thousandths.
pub const WATER_FULL: i64 = 1000;

/// Exclusive upper bound of a plate's comparison density, in thousandths.
pub const DENSITY_CAP: i64 = 10000;

/// Exclusive upper bound of a plate's angular speed, in picoradians per
/// simulated year: two centimetres per year over an Earth radius.
pub const SPEED_CAP: i64 = 31393;

/// Largest squared distance two in-range positions can have.
pub const DIST_SQ_CAP: i64 = 48000000000000;

/// Per-cell render attributes, handed to the host once per tick.
#[derive(Clone, Copy)]
pub struct CellData {
    /// Position in space, on the sphere of radius `SCALE`.
    pub position: Vec3,
    /// Height of land from sea level, in thousandths of a kilometre.
    pub height: i64,
    /// Absolute humidity, in thousandths of a gram per cubic metre.
    pub humidity: i64,
    /// Water coverage, in thousandths of full coverage.
    pub water: i64,
    /// Temperature, in thousandths of a degree Celsius.
    pub temperature: i64,
}

/// A rigid tectonic plate: its cells share one rotation.
#[derive(Clone, Copy)]
pub struct Plate {
    /// Axis the plate rotates about, on the sphere of radius `SCALE`.
    pub axis: Vec3,
    /// Comparison density deciding which of two colliding plates subducts,
    /// in thousandths.
    pub density: i64,
    /// Angular speed, in picoradians per simulated year.
    pub speed: i64,
}

/// One cell of the surface.
#[derive(Clone, Copy)]
pub struct Cell {
    /// What the cell shows to the renderer.
    pub contents: CellData,
    /// Simulation position; kept equal to the rendered position here.
    pub position: Vec3,
    /// The plate the cell belongs to, if any.
    pub plate: Option<usize>,
    /// Index of the vertex of the base mesh this cell started from.
    pub base_index: u32,
}

pub open spec fn plate_ok(p: Plate) -> bool {
    &&& bounded3(p.axis, SCALE as int)
    &&& SCALE * SCALE - 7 * SCALE <= norm_sq_spec(p.axis) <= SCALE * SCALE + 7 * SCALE
    &&& 0 <= p.density < DENSITY_CAP
    &&& 0 <= p.speed < SPEED_CAP
}

/// A cell's attributes are in range and its plate, when set, exists.
pub open spec fn cell_ok(c: Cell, n_plates: int) -> bool {
    &&& bounded3(c.position, 2 * SCALE as int)
    &&& bounded3(c.contents.position, 2 * SCALE as int)
    &&& on_sphere(c.position)
    &&& on_sphere(c.contents.position)
    &&& -HEIGHT_CAP <= c.contents.height <= HEIGHT_CAP
    &&& 0 <= c.contents.humidity <= HUMIDITY_CAP
    &&& 0 <= c.contents.water <= WATER_FULL
    &&& match c.plate {
        Some(p) => (p as int) < n_plates,
        None => true,
    }
}

/// Two cells that differ at most in their plate membership.
pub open spec fn same_but_plate(a: Cell, b: Cell) -> bool {
    a.contents == b.contents && a.position == b.position && a.base_index == b.base_index
}

impl Cell {
    /// A blank cell at `pos`: lowest land, dry, temperate zero.
    pub fn new(pos: Vec3, base_index: u32, plate: Option<usize>) -> (c: Cell)
        ensures
            c.contents.position == pos,
            c.contents.height == -HEIGHT_CAP,
            c.contents.humidity == 0,
            c.contents.water == 0,
            c.contents.temperature == 0,
            c.position == pos,
            c.plate == plate,
            c.base_index == base_index,
    {
        Cell {
            contents: CellData {
                position: pos,
                height: -HEIGHT_CAP,
                humidity: 0,
                water: 0,
                temperature: 0,
            },
            position: pos,
            plate,
            base_index,
        }
    }
}

impl Plate {
    /// A plate with a random rotation axis, density and speed. A draw of
    /// the zero vector — which names no axis — falls back to the pole.
    pub fn random(rng: &mut rand::rngs::ThreadRng) -> (p: Plate)
        ensures
            plate_ok(p),
    {
        let x = rand_signed(rng, SCALE);
        let y = rand_signed(rng, SCALE);
        let z = rand_signed(rng, SCALE);
        let cand = Vec3 { x, y, z };
        let m = cand.dot(cand);
        // a draw too close to the centre normalises coarsely and names the
        // axis badly; fall back to the pole rather than accept it
        let axis = if m >= 250000000000 {
            proof {
                lemma_sqrt_floor_at_least(m as int, 500000);
                lemma_normalize_roundness(cand);
            }
            match cand.normalize() {
                Some(u) => u,
                None => Vec3 { x: 0, y: SCALE, z: 0 },
            }
        } else {
            Vec3 { x: 0, y: SCALE, z: 0 }
        };
        let density = rand_below(rng, 10000) as i64;
        let speed = rand_below(rng, 31393) as i64;
        Plate { axis, density, speed }
    }
}

/// How many cells have no plate.
pub open spec fn unassigned_count(cells: Seq<Cell>) -> int
    decreases cells.len(),
{
    if cells.len() == 0 {
        0
    } else {
        unassigned_count(cells.drop_last()) + if cells.last().plate is None {
            1int
        } else {
            0int
        }
    }
}

pub proof fn lemma_unassigned_bounds(cells: Seq<Cell>)
    ensures
        0 <= unassigned_count(cells) <= cells.len(),
    decreases cells.len(),
{
    if cells.len() > 0 {
        lemma_unassigned_bounds(cells.drop_last());
    }
}

/// Replacing one cell moves the count by the difference of the two cells'
/// assignment states.
pub proof fn lemma_unassigned_update(cells: Seq<Cell>, i: int, c: Cell)
    requires
        0 <= i < cells.len(),
    ensures
        unassigned_count(cells.update(i, c)) == unassigned_count(cells) - (
        if cells[i].plate is None {
            1int
        } else {
            0int
        }) + (
        if c.plate is None {
            1int
        } else {
            0int
        }),
    decreases cells.len(),
{
    if i == cells.len() - 1 {
        assert(cells.update(i, c).drop_last() =~= cells.drop_last());
    } else {
        lemma_unassigned_update(cells.drop_last(), i, c);
        assert(cells.update(i, c).drop_last() =~= cells.drop_last().update(i, c));
        assert(cells.update(i, c).last() == cells.last());
    }
}

/// A zero count means every cell is assigned.
pub proof fn lemma_unassigned_zero(cells: Seq<Cell>)
    requires
        unassigned_count(cells) == 0,
    ensures
        forall|i: int| 0 <= i < cells.len() ==> (#[trigger] cells[i]).plate is Some,
    decreases cells.len(),
{
    if cells.len() > 0 {
        lemma_unassigned_bounds(cells.drop_last());
        lemma_unassigned_zero(cells.drop_last());
        assert forall|i: int| 0 <= i < cells.len()
            implies (#[trigger] cells[i]).plate is Some by {
            if i < cells.len() - 1 {
                assert(cells[i] == cells.drop_last()[i]);
            }
        }
    }
}

/// A positive count names an unassigned cell.
pub proof fn lemma_unassigned_pos(cells: Seq<Cell>) -> (i: int)
    requires
        unassigned_count(cells) > 0,
    ensures
        0 <= i < cells.len(),
        cells[i].plate is None,
    decreases cells.len(),
{
    lemma_unassigned_bounds(cells);
    if cells.last().plate is None {
        cells.len() - 1
    } else {
        let i = lemma_unassigned_pos(cells.drop_last());
        assert(cells.drop_last()[i] == cells[i]);
        i
    }
}

fn count_unassigned(cells: &Vec<Cell>) -> (c: usize)
    ensures
        c == unassigned_count(cells@),
{
    let n = cells.len();
    let mut c: usize = 0;
    let mut i: usize = 0;
    while i < n
        invariant
            i <= n,
            n == cells@.len(),
            c <= i,
            c == unassigned_count(cells@.take(i as int)),
        decreases n - i,
    {
        proof {
            assert(cells@.take(i + 1).drop_last() =~= cells@.take(i as int));
            assert(cells@.take(i + 1).last() == cells@[i as int]);
        }
        if cells[i].plate.is_none() {
            c = c + 1;
        }
        i = i + 1;
    }
    proof {
        assert(cells@.take(n as int) =~= cells@);
    }
    c
}

/// Slot `x` is present in the bank listing.
pub open spec fn in_bank(bank: Seq<usize>, x: usize) -> bool {
    exists|j: int| 0 <= j < bank.len() && bank[j] == x
}

/// Membership survives a push.
pub proof fn lemma_in_bank_push(bank: Seq<usize>, v: usize, x: usize)
    requires
        in_bank(bank, x),
    ensures
        in_bank(bank.push(v), x),
{
    let j = choose|j: int| 0 <= j < bank.len() && bank[j] == x;
    assert(bank.push(v)[j] == x);
}

/// Membership survives dropping the last slot, when it is another slot.
pub proof fn lemma_in_bank_pop(bank: Seq<usize>, x: usize)
    requires
        in_bank(bank, x),
        bank.len() > 0,
        x != bank.last(),
    ensures
        in_bank(bank.drop_last(), x),
{
    let j = choose|j: int| 0 <= j < bank.len() && bank[j] == x;
    assert(bank.drop_last()[j] == x);
}

/// Some listed edge crosses the cut `s`: one endpoint inside, one outside.
pub open spec fn splits(edges: Seq<(usize, usize)>, s: Set<int>) -> bool {
    exists|k: int| 0 <= k < edges.len()
        && (s.contains((#[trigger] edges[k]).0 as int) != s.contains(edges[k].1 as int))
}

/// The mesh's undirected edges connect the vertices `0 .. n`: every cut
/// with a vertex on each side is crossed by an edge.
pub open spec fn connected_mesh(tris: Seq<u32>, n: int) -> bool {
    forall|s: Set<int>|
        ((exists|i: int| 0 <= i < n && s.contains(i)) && (exists|i: int|
            0 <= i < n && !s.contains(i))) ==> #[trigger] splits(undirected_edges(tris), s)
}

/// Edge `m` joins an assigned cell to an unassigned one.
pub open spec fn crossing_at(cells: Seq<Cell>, edges: Seq<(usize, usize)>, m: int) -> bool {
    &&& 0 <= m < edges.len()
    &&& (edges[m].0 as int) < cells.len()
    &&& (edges[m].1 as int) < cells.len()
    &&& ((cells[edges[m].0 as int].plate is Some) != (cells[edges[m].1 as int].plate is Some))
}

/// Walks the edge list once, spreading plate membership across every edge
/// with exactly one assigned endpoint. When edge `hint` crossed at entry,
/// at least one cell gains a plate.
fn sweep_assign(
    cells: &mut Vec<Cell>,
    edges: &Vec<(usize, usize)>,
    np: Ghost<int>,
    hint: Ghost<int>,
)
    requires
        forall|m: int| 0 <= m < edges@.len()
            ==> ((#[trigger] edges@[m]).0 as int) < old(cells)@.len()
                && (edges@[m].1 as int) < old(cells)@.len(),
        forall|i: int| 0 <= i < old(cells)@.len()
            ==> cell_ok(#[trigger] old(cells)@[i], np@),
    ensures
        final(cells)@.len() == old(cells)@.len(),
        forall|i: int| 0 <= i < final(cells)@.len()
            ==> same_but_plate(old(cells)@[i], #[trigger] final(cells)@[i]),
        forall|i: int| 0 <= i < final(cells)@.len()
            ==> cell_ok(#[trigger] final(cells)@[i], np@),
        forall|i: int| 0 <= i < final(cells)@.len() && old(cells)@[i].plate is Some
            ==> (#[trigger] final(cells)@[i]).plate == old(cells)@[i].plate,
        unassigned_count(final(cells)@) <= unassigned_count(old(cells)@),
        crossing_at(old(cells)@, edges@, hint@)
            ==> unassigned_count(final(cells)@) < unassigned_count(old(cells)@),
{
    let n = cells.len();
    let en = edges.len();
    let mut m: usize = 0;
    while m < en
        invariant
            m <= en,
            en == edges@.len(),
            n == old(cells)@.len(),
            cells@.len() == n,
            forall|mm: int| 0 <= mm < edges@.len()
                ==> ((#[trigger] edges@[mm]).0 as int) < n && (edges@[mm].1 as int) < n,
            forall|i: int| 0 <= i < n
                ==> same_but_plate(old(cells)@[i], #[trigger] cells@[i]),
            forall|i: int| 0 <= i < n ==> cell_ok(#[trigger] cells@[i], np@),
            forall|i: int| 0 <= i < n && old(cells)@[i].plate is Some
                ==> (#[trigger] cells@[i]).plate == old(cells)@[i].plate,
            unassigned_count(cells@) <= unassigned_count(old(cells)@),
            cells@ =~= old(cells)@ || unassigned_count(cells@) < unassigned_count(old(cells)@),
            crossing_at(old(cells)@, edges@, hint@) && hint@ < m
                ==> unassigned_count(cells@) < unassigned_count(old(cells)@),
        decreases en - m,
    {
        let e = edges[m];
        let ghost pre = cells@;
        let p0 = cells[e.0].plate;
        let p1 = cells[e.1].plate;
        if p0.is_none() && p1.is_some() {
            let mut c = cells[e.0];
            c.plate = p1;
            cells[e.0] = c;
            proof {
                lemma_unassigned_update(pre, e.0 as int, c);
            }
        } else if p1.is_none() && p0.is_some() {
            let mut c = cells[e.1];
            c.plate = p0;
            cells[e.1] = c;
            proof {
                lemma_unassigned_update(pre, e.1 as int, c);
            }
        }
        proof {
            if crossing_at(old(cells)@, edges@, hint@) && hint@ == m {
                if pre =~= old(cells)@ {
                    assert(unassigned_count(cells@) < unassigned_count(old(cells)@));
                }
            }
        }
        m = m + 1;
    }
}

/// All data of the planet's surface.
pub struct Surface {
    /// The original geodesic mesh the cells started from.
    pub base_mesh: Shape,
    /// Every cell, active or banked; slots are reused, never freed.
    pub cells: Vec<Cell>,
    /// The live triangle index buffer, referencing active cells only.
    pub triangles: Vec<u32>,
    /// Every tectonic plate; plates are never destroyed.
    pub plates: Vec<Plate>,
    /// Indices of the retired cell slots available for reuse.
    pub bank: Vec<usize>,
    /// Squared length of one base-mesh edge: the collision yardstick.
    pub cell_distance_sq: i64,
    /// Simulated years since the last topology pass, in thousandths.
    pub since_triangulation: i64,
    /// The surface's own random generator.
    pub rng: rand::rngs::ThreadRng,
}

/// Everything but the cell array and the generator agrees.
pub open spec fn same_frame(a: Surface, b: Surface) -> bool {
    &&& a.base_mesh.vertex_count == b.base_mesh.vertex_count
    &&& a.base_mesh.indices@ == b.base_mesh.indices@
    &&& a.triangles@ == b.triangles@
    &&& a.plates@ == b.plates@
    &&& a.bank@ == b.bank@
    &&& a.cell_distance_sq == b.cell_distance_sq
    &&& a.since_triangulation == b.since_triangulation
}

impl Surface {
    /// The surface's standing invariant: whole triangles over existing
    /// cells, in-range attributes, a duplicate-free bank of existing slots,
    /// and no triangle referencing a banked slot.
    pub open spec fn wf(self) -> bool {
        &&& self.base_mesh.wf()
        &&& self.cells@.len() <= 0xffffffff
        &&& self.triangles@.len() % 3 == 0
        &&& forall|k: int| 0 <= k < self.triangles@.len()
            ==> ((#[trigger] self.triangles@[k]) as int) < self.cells@.len()
        &&& forall|i: int| 0 <= i < self.cells@.len()
            ==> cell_ok(#[trigger] self.cells@[i], self.plates@.len() as int)
        &&& forall|q: int| 0 <= q < self.plates@.len() ==> plate_ok(#[trigger] self.plates@[q])
        &&& forall|j: int| 0 <= j < self.bank@.len()
            ==> ((#[trigger] self.bank@[j]) as int) < self.cells@.len()
        &&& forall|j1: int, j2: int| 0 <= j1 < j2 < self.bank@.len()
            ==> self.bank@[j1] != self.bank@[j2]
        &&& forall|k: int, j: int|
            0 <= k < self.triangles@.len() && 0 <= j < self.bank@.len()
                ==> ((#[trigger] self.triangles@[k]) as int) != (#[trigger] self.bank@[j]) as int
        &&& 0 <= self.cell_distance_sq <= DIST_SQ_CAP
        &&& 0 <= self.since_triangulation <= 1000000000
    }
}

fn plate_eq(a: Option<usize>, b: Option<usize>) -> (r: bool)
    ensures
        r == (a == b),
{
    match (a, b) {
        (Option::None, Option::None) => true,
        (Option::Some(x), Option::Some(y)) => x == y,
        _ => false,
    }
}

/// The edges whose endpoint cells belong to different plates — or to a
/// plate and to none: the boundaries every plate grows across.
fn boundary_edges(cells: &Vec<Cell>, edges: &Vec<(usize, usize)>) -> (b: Vec<(usize, usize)>)
    requires
        forall|m: int| 0 <= m < edges@.len()
            ==> ((#[trigger] edges@[m]).0 as int) < cells@.len()
                && (edges@[m].1 as int) < cells@.len(),
    ensures
        forall|m: int| 0 <= m < b@.len()
            ==> ((#[trigger] b@[m]).0 as int) < cells@.len()
                && (b@[m].1 as int) < cells@.len(),
{
    let mut b: Vec<(usize, usize)> = Vec::new();
    let mut m: usize = 0;
    while m < edges.len()
        invariant
            m <= edges@.len(),
            forall|mm: int| 0 <= mm < edges@.len()
                ==> ((#[trigger] edges@[mm]).0 as int) < cells@.len()
                    && (edges@[mm].1 as int) < cells@.len(),
            forall|mm: int| 0 <= mm < b@.len()
                ==> ((#[trigger] b@[mm]).0 as int) < cells@.len()
                    && (b@[mm].1 as int) < cells@.len(),
        decreases edges@.len() - m,
    {
        let e = edges[m];
        if !plate_eq(cells[e.0].plate, cells[e.1].plate) {
            b.push(e);
        }
        m = m + 1;
    }
    b
}

impl Surface {
    /// Assigns every cell to a plate by region growth: clears all
    /// membership, seeds each plate at one random cell, then repeatedly
    /// extends plates across boundary edges — a random eighth of them, plus
    /// one full relaxation pass that keeps the growth moving — for at most
    /// one round per cell.
    ///
    /// With at least one plate and one cell, no banked slot, and a
    /// connected mesh, every cell ends up on a plate. With no plates,
    /// nothing changes.
    #[verifier::loop_isolation(false)]
    pub fn fill_plates(&mut self)
        requires
            old(self).wf(),
        ensures
            final(self).wf(),
            same_frame(*old(self), *final(self)),
            final(self).cells@.len() == old(self).cells@.len(),
            forall|i: int| 0 <= i < final(self).cells@.len()
                ==> same_but_plate(old(self).cells@[i], #[trigger] final(self).cells@[i]),
            old(self).plates@.len() == 0 ==> final(self).cells@ == old(self).cells@,
            (old(self).plates@.len() > 0 && old(self).cells@.len() > 0
                && old(self).bank@.len() == 0
                && connected_mesh(old(self).triangles@, old(self).cells@.len() as int))
                ==> forall|i: int| 0 <= i < final(self).cells@.len()
                    ==> (#[trigger] final(self).cells@[i]).plate is Some,
    {
        let np = self.plates.len();
        if np == 0 {
            return;
        }
        let n = self.cells.len();
        if n == 0 {
            return;
        }
        let ghost law = old(self).bank@.len() == 0
            && connected_mesh(old(self).triangles@, n as int);
        // strip every assignment
        let mut i: usize = 0;
        while i < n
            invariant
                i <= n,
                self.cells@.len() == n,
                same_frame(*old(self), *self),
                forall|ii: int| 0 <= ii < n
                    ==> same_but_plate(old(self).cells@[ii], #[trigger] self.cells@[ii]),
                forall|ii: int| 0 <= ii < n ==> cell_ok(#[trigger] self.cells@[ii], np as int),
            decreases n - i,
        {
            let mut c = self.cells[i];
            c.plate = None;
            self.cells[i] = c;
            i = i + 1;
        }
        // the edges the plates can spread across
        let edges = indices_to_edges(&self.triangles);
        proof {
            lemma_undirected_edges_bounded(old(self).triangles@, n as int);
        }
        assert forall|m: int| 0 <= m < edges@.len()
            implies ((#[trigger] edges@[m]).0 as int) < n && (edges@[m].1 as int) < n by {
            assert(edges@[m] == undirected_edges(old(self).triangles@)[m]);
        }
        // seed one random cell per plate
        let ghost mut seeded: int = 0;
        let mut p: usize = 0;
        while p < np
            invariant
                p <= np,
                self.cells@.len() == n,
                same_frame(*old(self), *self),
                forall|ii: int| 0 <= ii < n
                    ==> same_but_plate(old(self).cells@[ii], #[trigger] self.cells@[ii]),
                forall|ii: int| 0 <= ii < n ==> cell_ok(#[trigger] self.cells@[ii], np as int),
                p > 0 ==> 0 <= seeded < n && self.cells@[seeded].plate is Some,
            decreases np - p,
        {
            let t = rand_below(&mut self.rng, n);
            let mut c = self.cells[t];
            c.plate = Some(p);
            self.cells[t] = c;
            proof {
                seeded = t as int;
            }
            p = p + 1;
        }
        // grow the plates; each round must assign someone while any edge
        // still joins the assigned side to an unassigned cell
        proof {
            lemma_unassigned_bounds(self.cells@);
        }
        let mut r: usize = 0;
        while r < n
            invariant
                r <= n,
                self.cells@.len() == n,
                same_frame(*old(self), *self),
                forall|ii: int| 0 <= ii < n
                    ==> same_but_plate(old(self).cells@[ii], #[trigger] self.cells@[ii]),
                forall|ii: int| 0 <= ii < n ==> cell_ok(#[trigger] self.cells@[ii], np as int),
                0 <= seeded < n && self.cells@[seeded].plate is Some,
                law ==> (unassigned_count(self.cells@) == 0
                    || unassigned_count(self.cells@) + r <= n),
            decreases n - r,
        {
            let cnt = count_unassigned(&self.cells);
            if cnt != 0 {
                let ghost cs = self.cells@;
                // extend across a random eighth of the boundary edges
                let boundary = boundary_edges(&self.cells, &edges);
                let mut extend_no = boundary.len() / 8;
                if extend_no == 0 {
                    extend_no = 1;
                }
                let mut x: usize = 0;
                while x < extend_no
                    invariant
                        self.cells@.len() == n,
                        same_frame(*old(self), *self),
                        forall|ii: int| 0 <= ii < n
                            ==> same_but_plate(old(self).cells@[ii], #[trigger] self.cells@[ii]),
                        forall|ii: int| 0 <= ii < n
                            ==> cell_ok(#[trigger] self.cells@[ii], np as int),
                        0 <= seeded < n && self.cells@[seeded].plate is Some,
                        unassigned_count(self.cells@) <= unassigned_count(cs),
                    decreases extend_no - x,
                {
                    if boundary.len() > 0 {
                        let bi = rand_below(&mut self.rng, boundary.len());
                        let e = boundary[bi];
                        let ghost pre = self.cells@;
                        let p0 = self.cells[e.0].plate;
                        let p1 = self.cells[e.1].plate;
                        if p0.is_none() && p1.is_some() {
                            let mut c = self.cells[e.0];
                            c.plate = p1;
                            self.cells[e.0] = c;
                            proof {
                                lemma_unassigned_update(pre, e.0 as int, c);
                            }
                        } else if p1.is_none() && p0.is_some() {
                            let mut c = self.cells[e.1];
                            c.plate = p0;
                            self.cells[e.1] = c;
                            proof {
                                lemma_unassigned_update(pre, e.1 as int, c);
                            }
                        }
                    }
                    x = x + 1;
                }
                // one relaxation pass; while the mesh still has a cut edge
                // it is guaranteed to assign at least one cell
                let ghost ca = self.cells@;
                let ghost mut hint: int = 0;
                proof {
                    if law && unassigned_count(ca) == unassigned_count(cs) {
                        let ui = lemma_unassigned_pos(ca);
                        let s = Set::new(|ii: int| 0 <= ii < n && ca[ii].plate is Some);
                        assert(s.contains(seeded));
                        assert(!s.contains(ui));
                        assert(splits(undirected_edges(old(self).triangles@), s));
                        let k = choose|k: int|
                            0 <= k < undirected_edges(old(self).triangles@).len() && (s.contains(
                                (#[trigger] undirected_edges(old(self).triangles@)[k]).0 as int,
                            ) != s.contains(undirected_edges(old(self).triangles@)[k].1 as int));
                        assert(edges@[k] == undirected_edges(old(self).triangles@)[k]);
                        hint = k;
                        assert(crossing_at(ca, edges@, hint));
                    }
                }
                sweep_assign(&mut self.cells, &edges, Ghost(np as int), Ghost(hint));
                proof {
                    if law {
                        assert(unassigned_count(self.cells@) < unassigned_count(cs));
                    }
                }
            }
            r = r + 1;
        }
        proof {
            if law {
                lemma_unassigned_bounds(self.cells@);
                lemma_unassigned_zero(self.cells@);
            }
        }
    }
}

fn copy_indices(v: &Vec<u32>) -> (r: Vec<u32>)
    ensures
        r@ == v@,
{
    let n = v.len();
    let mut r: Vec<u32> = Vec::new();
    let mut i: usize = 0;
    while i < n
        invariant
            i <= n,
            n == v@.len(),
            r@ == v@.take(i as int),
        decreases n - i,
    {
        r.push(v[i]);
        proof {
            assert(v@.take(i + 1) =~= v@.take(i as int).push(v@[i as int]));
        }
        i = i + 1;
    }
    proof {
        assert(v@.take(n as int) =~= v@);
    }
    r
}

impl Surface {
    /// Builds the surface over a base shape: one cell per vertex, seeded
    /// with the supplied positions, heights and humidities — water wherever
    /// land starts below sea level — plus `plate_count` random plates, then
    /// assigns every cell to a plate by region growth. The collision
    /// yardstick is the squared length of the first mesh edge; on a
    /// geodesic sphere all edges are near-equal.
    #[verifier::loop_isolation(false)]
    pub fn new(
        shape: Shape,
        positions: Vec<Vec3>,
        heights: Vec<i64>,
        humidities: Vec<i64>,
        plate_count: u32,
        rng: rand::rngs::ThreadRng,
    ) -> (s: Surface)
        requires
            shape.wf(),
            positions@.len() == shape.vertex_count,
            heights@.len() == shape.vertex_count,
            humidities@.len() == shape.vertex_count,
            forall|i: int| 0 <= i < positions@.len()
                ==> bounded3(#[trigger] positions@[i], SCALE as int)
                    && on_sphere(positions@[i]),
            forall|i: int| 0 <= i < heights@.len()
                ==> -HEIGHT_CAP <= #[trigger] heights@[i] <= HEIGHT_CAP,
            forall|i: int| 0 <= i < humidities@.len()
                ==> 0 <= #[trigger] humidities@[i] <= HUMIDITY_CAP,
        ensures
            s.wf(),
            s.base_mesh.vertex_count == shape.vertex_count,
            s.base_mesh.indices@ == shape.indices@,
            s.cells@.len() == shape.vertex_count,
            s.triangles@ == shape.indices@,
            s.plates@.len() == plate_count,
            s.bank@.len() == 0,
            s.since_triangulation == 0,
            forall|i: int| 0 <= i < s.cells@.len() ==> {
                let c = #[trigger] s.cells@[i];
                c.contents.position == positions@[i] && c.position == positions@[i]
                    && c.contents.height == heights@[i]
                    && c.contents.humidity == humidities@[i]
                    && c.contents.water == (if heights@[i] < 0 { WATER_FULL as i64 } else { 0i64 })
                    && c.contents.temperature == 0 && c.base_index == i as u32
            },
            undirected_edges(shape.indices@).len() > 0 ==> s.cell_distance_sq == dist_sq_spec(
                positions@[undirected_edges(shape.indices@)[0].0 as int],
                positions@[undirected_edges(shape.indices@)[0].1 as int],
            ),
            undirected_edges(shape.indices@).len() == 0 ==> s.cell_distance_sq == 0,
            (plate_count > 0 && shape.vertex_count > 0
                && connected_mesh(shape.indices@, shape.vertex_count as int))
                ==> forall|i: int| 0 <= i < s.cells@.len()
                    ==> (#[trigger] s.cells@[i]).plate is Some,
    {
        let n = shape.vertex_count;
        let mut cells: Vec<Cell> = Vec::new();
        let mut i: usize = 0;
        while i < n
            invariant
                i <= n,
                cells@.len() == i,
                forall|ii: int| 0 <= ii < i as int ==> {
                    let c = #[trigger] cells@[ii];
                    c.contents.position == positions@[ii] && c.position == positions@[ii]
                        && c.contents.height == heights@[ii]
                        && c.contents.humidity == humidities@[ii]
                        && c.contents.water == (
                        if heights@[ii] < 0 {
                            WATER_FULL as i64
                        } else {
                            0i64
                        }) && c.contents.temperature == 0 && c.base_index == ii as u32
                        && c.plate is None
                },
            decreases n - i,
        {
            let w: i64 = if heights[i] < 0 {
                WATER_FULL
            } else {
                0
            };
            cells.push(
                Cell {
                    contents: CellData {
                        position: positions[i],
                        height: heights[i],
                        humidity: humidities[i],
                        water: w,
                        temperature: 0,
                    },
                    position: positions[i],
                    plate: None,
                    base_index: i as u32,
                },
            );
            i = i + 1;
        }
        let mut rng = rng;
        let mut plates: Vec<Plate> = Vec::new();
        let mut q: usize = 0;
        while q < plate_count as usize
            invariant
                q <= plate_count as usize,
                plates@.len() == q,
                forall|qq: int| 0 <= qq < q as int ==> plate_ok(#[trigger] plates@[qq]),
            decreases plate_count - q,
        {
            let pl = Plate::random(&mut rng);
            plates.push(pl);
            q = q + 1;
        }
        let edges = indices_to_edges(&shape.indices);
        proof {
            lemma_undirected_edges_bounded(shape.indices@, n as int);
        }
        let cell_distance_sq: i64 = if edges.len() > 0 {
            let e = edges[0];
            proof {
                assert(edges@[0] == undirected_edges(shape.indices@)[0]);
                crate::geometry::lemma_dist_sq_range(
                    cells@[e.0 as int].position,
                    cells@[e.1 as int].position,
                    SCALE as int,
                );
            }
            cells[e.0].position.dist_sq(cells[e.1].position)
        } else {
            0
        };
        let triangles = copy_indices(&shape.indices);
        let mut s = Surface {
            base_mesh: shape,
            cells,
            triangles,
            plates,
            bank: Vec::new(),
            cell_distance_sq,
            since_triangulation: 0,
            rng,
        };
        s.fill_plates();
        s
    }
}

/// The first occurrence of the directed edge `(a, b)` in a triangle of the
/// buffer names that triangle's third corner.
pub open spec fn third_in_tri(tris: Seq<u32>, i: int, a: u32, b: u32) -> Option<u32> {
    if tris[3 * i] == a && tris[3 * i + 1] == b {
        Some(tris[3 * i + 2])
    } else if tris[3 * i + 1] == a && tris[3 * i + 2] == b {
        Some(tris[3 * i])
    } else if tris[3 * i + 2] == a && tris[3 * i] == b {
        Some(tris[3 * i + 1])
    } else {
        None
    }
}

/// A found third corner does not change as later triangles are searched.
pub proof fn lemma_find_third_stable(tris: Seq<u32>, a: u32, b: u32, k1: int, k2: int)
    requires
        0 <= k1 <= k2,
        find_third(tris, a, b, k1) is Some,
    ensures
        find_third(tris, a, b, k2) == find_third(tris, a, b, k1),
    decreases k2,
{
    if k1 < k2 {
        lemma_find_third_stable(tris, a, b, k1, k2 - 1);
    }
}

/// The third corner of the first triangle among the first `k` that runs the
/// directed edge `(a, b)`.
pub open spec fn find_third(tris: Seq<u32>, a: u32, b: u32, k: int) -> Option<u32>
    decreases k,
{
    if k <= 0 {
        None
    } else {
        match find_third(tris, a, b, k - 1) {
            Some(t) => Some(t),
            None => third_in_tri(tris, k - 1, a, b),
        }
    }
}

impl Surface {
    /// The third corner of the base-mesh triangle that runs the directed
    /// edge between the two cells' base vertices, if any: where the base
    /// mesh says a cell between them once pointed.
    #[verifier::loop_isolation(false)]
    pub fn third_point(&self, edge: (usize, usize)) -> (r: Option<u32>)
        requires
            self.wf(),
            edge.0 < self.cells@.len(),
            edge.1 < self.cells@.len(),
        ensures
            r == find_third(
                self.base_mesh.indices@,
                self.cells@[edge.0 as int].base_index,
                self.cells@[edge.1 as int].base_index,
                self.base_mesh.indices@.len() as int / 3,
            ),
    {
        let a = self.cells[edge.0].base_index;
        let b = self.cells[edge.1].base_index;
        let n = self.base_mesh.indices.len();
        let tris = &self.base_mesh.indices;
        let mut t: usize = 0;
        let ghost tn = self.base_mesh.indices@.len() as int / 3;
        proof {
            assert(3 * tn == n) by {
                vstd::arithmetic::div_mod::lemma_fundamental_div_mod(n as int, 3);
            }
        }
        while t < n / 3
            invariant
                t <= tn,
                3 * tn == n,
                n == tris@.len(),
                tris@ == self.base_mesh.indices@,
                a == self.cells@[edge.0 as int].base_index,
                b == self.cells@[edge.1 as int].base_index,
                find_third(tris@, a, b, t as int) is None,
            decreases tn - t,
        {
            let x = tris[3 * t];
            let y = tris[3 * t + 1];
            let z = tris[3 * t + 2];
            if x == a && y == b {
                proof {
                    lemma_find_third_stable(tris@, a, b, t + 1, tn);
                }
                return Some(z);
            }
            if y == a && z == b {
                proof {
                    lemma_find_third_stable(tris@, a, b, t + 1, tn);
                }
                return Some(x);
            }
            if z == a && x == b {
                proof {
                    lemma_find_third_stable(tris@, a, b, t + 1, tn);
                }
                return Some(y);
            }
            t = t + 1;
        }
        None
    }

    /// Removes a cell from the mesh: every triangle around it is taken out,
    /// the rim of the hole is fanned onto the surviving `provoking`
    /// neighbour — dropping the fan's degenerate slivers, the rim edges that
    /// already touch the neighbour — and the freed slot joins the bank. No
    /// triangle references the removed cell afterwards, and the fan adds no
    /// degenerate triangle.
    #[verifier::loop_isolation(false)]
    pub fn remove_cell(&mut self, cell: usize, provoking: usize)
        requires
            old(self).wf(),
            cell < old(self).cells@.len(),
            provoking < old(self).cells@.len(),
            provoking != cell,
            forall|j: int| 0 <= j < old(self).bank@.len()
                ==> (#[trigger] old(self).bank@[j]) != cell,
            forall|j: int| 0 <= j < old(self).bank@.len()
                ==> (#[trigger] old(self).bank@[j]) != provoking,
        ensures
            final(self).wf(),
            final(self).cells@ == old(self).cells@,
            final(self).plates@ == old(self).plates@,
            final(self).base_mesh == old(self).base_mesh,
            final(self).cell_distance_sq == old(self).cell_distance_sq,
            final(self).since_triangulation == old(self).since_triangulation,
            final(self).bank@ == old(self).bank@.push(cell),
            forall|k: int| 0 <= k < final(self).triangles@.len()
                ==> ((#[trigger] final(self).triangles@[k]) as int) != cell,
            final(self).triangles@ == drop_tris_with(
                old(self).triangles@,
                cell as u32,
                old(self).triangles@.len() as int / 3,
            ) + proper_tris_without(
                connect_point_spec(
                    keep_tris_with(
                        old(self).triangles@,
                        cell as u32,
                        old(self).triangles@.len() as int / 3,
                    ),
                    provoking as u32,
                ),
                cell as u32,
                connect_point_spec(
                    keep_tris_with(
                        old(self).triangles@,
                        cell as u32,
                        old(self).triangles@.len() as int / 3,
                    ),
                    provoking as u32,
                ).len() as int / 3,
            ),
    {
        let c32 = cell as u32;
        let n = self.triangles.len();
        let ghost tris0 = self.triangles@;
        let ghost tn = tris0.len() as int / 3;
        proof {
            assert(3 * tn == n) by {
                vstd::arithmetic::div_mod::lemma_fundamental_div_mod(n as int, 3);
            }
        }
        let mut kept: Vec<u32> = Vec::new();
        let mut surrounding: Vec<u32> = Vec::new();
        let mut t: usize = 0;
        while t < n / 3
            invariant
                t <= tn,
                kept@ == drop_tris_with(tris0, c32, t as int),
                surrounding@ == keep_tris_with(tris0, c32, t as int),
                self.triangles@ == tris0,
            decreases tn - t,
        {
            let x = self.triangles[3 * t];
            let y = self.triangles[3 * t + 1];
            let z = self.triangles[3 * t + 2];
            if x == c32 || y == c32 || z == c32 {
                surrounding.push(x);
                surrounding.push(y);
                surrounding.push(z);
            } else {
                kept.push(x);
                kept.push(y);
                kept.push(z);
            }
            proof {
                assert(kept@ == drop_tris_with(tris0, c32, t + 1));
                assert(surrounding@ == keep_tris_with(tris0, c32, t + 1));
            }
            t = t + 1;
        }
        let ghost surr = surrounding@;
        let ghost ncells = self.cells@.len() as int;
        proof {
            lemma_keep_tris_ok(tris0, c32, tn, ncells, self.bank@);
            lemma_drop_tris_ok(tris0, c32, tn, ncells, self.bank@);
        }
        let patch = connect_point(surrounding, provoking as u32);
        let ghost patch_seq = patch@;
        proof {
            lemma_connect_point_ok(surr, provoking as u32, surr.len() as int, ncells, self.bank@);
        }
        // keep of the fan only its real faces: drop any triangle that still
        // references the removed cell — possible only if the surrounding fan
        // was not a clean disk — and the degenerate slivers the rim edges
        // touching the survivor produce
        let pn = patch.len();
        let ghost ptn = patch_seq.len() as int / 3;
        proof {
            assert(3 * ptn == pn) by {
                vstd::arithmetic::div_mod::lemma_fundamental_div_mod(pn as int, 3);
            }
            lemma_proper_tris_ok(patch_seq, c32, ptn, ncells, self.bank@);
        }
        let mut filtered: Vec<u32> = Vec::new();
        let mut t2: usize = 0;
        while t2 < pn / 3
            invariant
                t2 <= ptn,
                filtered@ == proper_tris_without(patch_seq, c32, t2 as int),
                patch@ == patch_seq,
            decreases ptn - t2,
        {
            let x = patch[3 * t2];
            let y = patch[3 * t2 + 1];
            let z = patch[3 * t2 + 2];
            if !(x == c32 || y == c32 || z == c32 || x == y || y == z || z == x) {
                filtered.push(x);
                filtered.push(y);
                filtered.push(z);
            }
            proof {
                assert(filtered@ == proper_tris_without(patch_seq, c32, t2 + 1));
            }
            t2 = t2 + 1;
        }
        self.triangles = kept;
        self.triangles.append(&mut filtered);
        self.bank.push(cell);
        proof {
            let newt = self.triangles@;
            let d1 = drop_tris_with(tris0, c32, tn);
            let d2 = proper_tris_without(patch_seq, c32, ptn);
            assert(newt == d1 + d2);
            assert forall|k: int| 0 <= k < newt.len()
                implies ((#[trigger] newt[k]) as int) < ncells
                    && (newt[k] as int) != cell by {
                if k < d1.len() {
                    assert(newt[k] == d1[k]);
                } else {
                    assert(newt[k] == d2[k - d1.len()]);
                }
            }
            assert forall|k: int, j: int|
                0 <= k < newt.len() && 0 <= j < self.bank@.len()
                implies ((#[trigger] newt[k]) as int) != (#[trigger] self.bank@[j]) as int by {
                if k < d1.len() {
                    assert(newt[k] == d1[k]);
                } else {
                    assert(newt[k] == d2[k - d1.len()]);
                }
                if j < self.bank@.len() - 1 {
                    assert(self.bank@[j] == old(self).bank@[j]);
                } else {
                    assert(self.bank@[j] == cell);
                }
            }
            vstd::arithmetic::div_mod::lemma_mod_adds(d1.len() as int, d2.len() as int, 3);
        }
    }

    /// Spawns a cell from the bank on a diverging edge: the freed slot
    /// `cell` is reborn as a blank cell at the normalised midpoint of the
    /// edge's endpoints, on the first endpoint's plate; the triangles that
    /// held both endpoints make way and their rim is fanned onto the new
    /// cell. When the endpoints are so nearly antipodal that their midpoint
    /// falls inside half the sphere's radius — naming no surface point
    /// reliably — nothing changes.
    #[verifier::loop_isolation(false)]
    pub fn add_cell(&mut self, edge: (usize, usize), cell: usize)
        requires
            old(self).wf(),
            edge.0 < old(self).cells@.len(),
            edge.1 < old(self).cells@.len(),
            cell < old(self).cells@.len(),
            edge.0 != cell,
            edge.1 != cell,
            forall|k: int| 0 <= k < old(self).triangles@.len()
                ==> ((#[trigger] old(self).triangles@[k]) as int) != cell,
            forall|j: int| 0 <= j < old(self).bank@.len()
                ==> (#[trigger] old(self).bank@[j]) != cell,
        ensures
            final(self).wf(),
            final(self).plates@ == old(self).plates@,
            final(self).base_mesh == old(self).base_mesh,
            final(self).cell_distance_sq == old(self).cell_distance_sq,
            final(self).since_triangulation == old(self).since_triangulation,
            final(self).bank@ == old(self).bank@,
            final(self).cells@.len() == old(self).cells@.len(),
            norm_sq_spec(sum_spec(
                old(self).cells@[edge.0 as int].position,
                old(self).cells@[edge.1 as int].position,
            )) < 250000000000 ==> final(self).cells@ == old(self).cells@
                && final(self).triangles@ == old(self).triangles@,
            norm_sq_spec(sum_spec(
                old(self).cells@[edge.0 as int].position,
                old(self).cells@[edge.1 as int].position,
            )) >= 250000000000 ==> {
                let mid = normalize_spec(sum_spec(
                    old(self).cells@[edge.0 as int].position,
                    old(self).cells@[edge.1 as int].position,
                ));
                let a32 = edge.0 as u32;
                let b32 = edge.1 as u32;
                let tn = old(self).triangles@.len() as int / 3;
                &&& final(self).cells@ == old(self).cells@.update(
                    cell as int,
                    final(self).cells@[cell as int],
                )
                &&& final(self).cells@[cell as int].position == mid
                &&& final(self).cells@[cell as int].contents.position == mid
                &&& final(self).cells@[cell as int].contents.height == -HEIGHT_CAP
                &&& final(self).cells@[cell as int].contents.humidity == 0
                &&& final(self).cells@[cell as int].contents.water == 0
                &&& final(self).cells@[cell as int].contents.temperature == 0
                &&& bounded3(final(self).cells@[cell as int].position, SCALE as int)
                &&& on_sphere(final(self).cells@[cell as int].position)
                &&& final(self).cells@[cell as int].plate
                    == old(self).cells@[edge.0 as int].plate
                &&& final(self).cells@[cell as int].base_index
                    == old(self).cells@[edge.0 as int].base_index
                &&& final(self).triangles@ == drop_tris_with_pair(
                    old(self).triangles@, a32, b32, tn,
                ) + connect_point_spec(
                    keep_tris_with_pair(old(self).triangles@, a32, b32, tn),
                    cell as u32,
                )
            },
    {
        let p0 = self.cells[edge.0].position;
        let p1 = self.cells[edge.1].position;
        let msum = p0.sum_with(p1);
        let m = msum.dot(msum);
        if m < 250000000000 {
            return ;
        }
        proof {
            lemma_sqrt_floor_at_least(m as int, 500000);
            lemma_normalize_roundness(msum);
        }
        let mid = match msum.normalize() {
            Some(u) => u,
            None => {
                // a midpoint of half the radius has a positive norm
                proof {
                    assert(false);
                }
                Vec3 { x: 0, y: 0, z: 0 }
            },
        };
        let plate = self.cells[edge.0].plate;
        let base_index = self.cells[edge.0].base_index;
        let newcell = Cell::new(mid, base_index, plate);
        self.cells[cell] = newcell;
        let a32 = edge.0 as u32;
        let b32 = edge.1 as u32;
        let n = self.triangles.len();
        let ghost tris0 = self.triangles@;
        let ghost tn = tris0.len() as int / 3;
        proof {
            assert(3 * tn == n) by {
                vstd::arithmetic::div_mod::lemma_fundamental_div_mod(n as int, 3);
            }
        }
        let mut kept: Vec<u32> = Vec::new();
        let mut around: Vec<u32> = Vec::new();
        let mut t: usize = 0;
        while t < n / 3
            invariant
                t <= tn,
                kept@ == drop_tris_with_pair(tris0, a32, b32, t as int),
                around@ == keep_tris_with_pair(tris0, a32, b32, t as int),
                self.triangles@ == tris0,
            decreases tn - t,
        {
            let x = self.triangles[3 * t];
            let y = self.triangles[3 * t + 1];
            let z = self.triangles[3 * t + 2];
            let has_a = x == a32 || y == a32 || z == a32;
            let has_b = x == b32 || y == b32 || z == b32;
            if has_a && has_b {
                around.push(x);
                around.push(y);
                around.push(z);
            } else {
                kept.push(x);
                kept.push(y);
                kept.push(z);
            }
            proof {
                assert(kept@ == drop_tris_with_pair(tris0, a32, b32, t + 1));
                assert(around@ == keep_tris_with_pair(tris0, a32, b32, t + 1));
            }
            t = t + 1;
        }
        let ghost around_seq = around@;
        let ghost ncells = self.cells@.len() as int;
        proof {
            lemma_keep_tris_pair_ok(tris0, a32, b32, tn, ncells, self.bank@);
            lemma_drop_tris_pair_ok(tris0, a32, b32, tn, ncells, self.bank@);
        }
        let patch = connect_point(around, cell as u32);
        proof {
            lemma_connect_point_ok(
                around_seq, cell as u32, around_seq.len() as int, ncells, self.bank@);
        }
        let mut patch = patch;
        self.triangles = kept;
        self.triangles.append(&mut patch);
        proof {
            let newt = self.triangles@;
            let d1 = drop_tris_with_pair(tris0, a32, b32, tn);
            let d2 = connect_point_spec(around_seq, cell as u32);
            assert(newt == d1 + d2);
            assert forall|k: int| 0 <= k < newt.len()
                implies ((#[trigger] newt[k]) as int) < ncells by {
                if k < d1.len() {
                    assert(newt[k] == d1[k]);
                } else {
                    assert(newt[k] == d2[k - d1.len()]);
                }
            }
            assert forall|k: int, j: int|
                0 <= k < newt.len() && 0 <= j < self.bank@.len()
                implies ((#[trigger] newt[k]) as int) != (#[trigger] self.bank@[j]) as int by {
                if k < d1.len() {
                    assert(newt[k] == d1[k]);
                } else {
                    assert(newt[k] == d2[k - d1.len()]);
                }
            }
            vstd::arithmetic::div_mod::lemma_mod_adds(d1.len() as int, d2.len() as int, 3);
        }
    }
}

} // verus!
