//! The surface's running systems: climate and tectonics.
//!
//! The host rotates cell positions with its own trigonometry and hands the
//! transported positions in; everything decided here — the throttle, the
//! boundary classification against the collision yardstick, which cell
//! subducts, where a spawned cell goes — is exact integer arithmetic.

use crate::config::{sim_ok, SimInfo};
use crate::geometry::{
    bounded3, div_trunc, dot_spec, lemma_dot_range, lemma_tdiv_bound, lemma_tdiv_monotone,
    norm_sq_spec, sum_spec, tdiv, Vec3, SCALE,
};
use crate::mesh::{indices_to_edges, lemma_edges_no_self_loop, lemma_undirected_edges_bounded,
    undirected_edges};
use crate::rng::rand_coin;
use crate::surface::{cell_ok, in_bank, lemma_in_bank_pop, lemma_in_bank_push, Cell, CellData,
    Surface, HEIGHT_CAP};
use vstd::prelude::*;

verus! {

/// Height a surviving cell gains from one collision, in thousandths of a
/// kilometre.
pub const COLLISION_UPLIFT: i64 = 100;

/// How much light a cell receives, against the ideal latitude: `SCALE` at
/// the latitude the sun stands over, falling linearly with the latitude
/// difference, never below zero.
pub open spec fn angle_factor_spec(pos: Vec3, sim: SimInfo) -> int {
    let sun_max = tdiv(dot_spec(sim.to_sun, sim.axis), SCALE as int);
    let lat = tdiv(dot_spec(pos, sim.axis), SCALE as int);
    let d = if sun_max >= lat {
        sun_max - lat
    } else {
        lat - sun_max
    };
    if SCALE - d > 0 {
        SCALE - d
    } else {
        0
    }
}

/// A cell's temperature: insolation scaled by the angle factor, less the
/// lapse for land above sea level, all scaled by the retained fraction.
pub open spec fn cell_temp_spec(pos: Vec3, height: i64, sim: SimInfo) -> int {
    let angle = angle_factor_spec(pos, sim);
    let warmed = sim.base_temp * angle / (SCALE as int);
    let h: int = if height > 0 {
        height as int
    } else {
        0
    };
    let cooled = warmed - h * sim.lapse_rate / 1000;
    tdiv(cooled * sim.greenhouse_effect, 1000)
}

/// Above sea level, climbing never warms: for a fixed sun geometry and
/// cell position, temperature is monotonically non-increasing in height.
pub proof fn lemma_temperature_monotone(pos: Vec3, h1: i64, h2: i64, sim: SimInfo)
    requires
        sim_ok(sim),
        0 < h1 <= h2,
    ensures
        cell_temp_spec(pos, h2, sim) <= cell_temp_spec(pos, h1, sim),
{
    let angle = angle_factor_spec(pos, sim);
    let warmed = sim.base_temp * angle / (SCALE as int);
    assert(h1 * sim.lapse_rate <= h2 * sim.lapse_rate) by (nonlinear_arith)
        requires
            h1 <= h2,
            sim.lapse_rate >= 0,
    {
    }
    assert(h1 * sim.lapse_rate >= 0) by (nonlinear_arith)
        requires
            h1 > 0,
            sim.lapse_rate >= 0,
    {
    }
    vstd::arithmetic::div_mod::lemma_div_is_ordered(
        h1 * sim.lapse_rate, h2 * sim.lapse_rate, 1000);
    let cooled1 = warmed - h1 * sim.lapse_rate / 1000;
    let cooled2 = warmed - h2 * sim.lapse_rate / 1000;
    assert(cooled2 * sim.greenhouse_effect <= cooled1 * sim.greenhouse_effect)
        by (nonlinear_arith)
        requires
            cooled2 <= cooled1,
            sim.greenhouse_effect >= 0,
    {
    }
    lemma_tdiv_monotone(
        cooled2 * sim.greenhouse_effect, cooled1 * sim.greenhouse_effect, 1000);
}

/// `c` with its temperature replaced.
pub open spec fn with_temp(c: Cell, t: int) -> Cell {
    Cell {
        contents: CellData {
            position: c.contents.position,
            height: c.contents.height,
            humidity: c.contents.humidity,
            water: c.contents.water,
            temperature: t as i64,
        },
        position: c.position,
        plate: c.plate,
        base_index: c.base_index,
    }
}

/// Cell `i` as the transport step leaves it: moved to its entry of the
/// host's transported positions when it rides a plate, untouched when not.
pub open spec fn transported_cell(cells: Seq<Cell>, moved: Seq<Vec3>, i: int) -> Cell {
    if cells[i].plate is Some {
        moved_cell(cells[i], moved[i])
    } else {
        cells[i]
    }
}

/// `b` is `a` after zero or more collision uplifts: the same cell in every
/// field but a height that has only risen, capped at `HEIGHT_CAP`.
pub open spec fn uplifted(a: Cell, b: Cell) -> bool {
    &&& b.contents.position == a.contents.position
    &&& b.contents.humidity == a.contents.humidity
    &&& b.contents.water == a.contents.water
    &&& b.contents.temperature == a.contents.temperature
    &&& b.position == a.position
    &&& b.plate == a.plate
    &&& b.base_index == a.base_index
    &&& a.contents.height <= b.contents.height <= HEIGHT_CAP
}

/// A cell reborn by a divergence this tick: blank attributes — any later
/// uplift aside — with one coherent position on the sphere.
pub open spec fn revived_cell(c: Cell) -> bool {
    &&& c.contents.humidity == 0
    &&& c.contents.water == 0
    &&& c.contents.temperature == 0
    &&& c.contents.position == c.position
    &&& bounded3(c.position, SCALE as int)
}

/// `c` moved to position `p`.
pub open spec fn moved_cell(c: Cell, p: Vec3) -> Cell {
    Cell {
        contents: CellData {
            position: p,
            height: c.contents.height,
            humidity: c.contents.humidity,
            water: c.contents.water,
            temperature: c.contents.temperature,
        },
        position: p,
        plate: c.plate,
        base_index: c.base_index,
    }
}

impl Surface {
    /// Recomputes every cell's temperature from the current sun geometry,
    /// its position and its height.
    #[verifier::loop_isolation(false)]
    pub fn temperature(&mut self, sim: &SimInfo)
        requires
            old(self).wf(),
            sim_ok(*sim),
        ensures
            final(self).wf(),
            final(self).base_mesh == old(self).base_mesh,
            final(self).triangles@ == old(self).triangles@,
            final(self).plates@ == old(self).plates@,
            final(self).bank@ == old(self).bank@,
            final(self).cell_distance_sq == old(self).cell_distance_sq,
            final(self).since_triangulation == old(self).since_triangulation,
            final(self).cells@.len() == old(self).cells@.len(),
            forall|i: int| 0 <= i < final(self).cells@.len()
                ==> (#[trigger] final(self).cells@[i]) == with_temp(
                    old(self).cells@[i],
                    cell_temp_spec(
                        old(self).cells@[i].position,
                        old(self).cells@[i].contents.height,
                        *sim,
                    ),
                ),
    {
        let sun_dot = sim.to_sun.dot(sim.axis);
        proof {
            lemma_dot_range(sim.to_sun, sim.axis, SCALE as int, SCALE as int);
        }
        let sun_max = div_trunc(sun_dot, SCALE);
        proof {
            lemma_tdiv_bound(sun_dot as int, SCALE as int, 3 * SCALE as int);
        }
        let n = self.cells.len();
        let mut i: usize = 0;
        while i < n
            invariant
                i <= n,
                n == self.cells@.len(),
                self.base_mesh == old(self).base_mesh,
                self.triangles@ == old(self).triangles@,
                self.plates@ == old(self).plates@,
                self.bank@ == old(self).bank@,
                self.cell_distance_sq == old(self).cell_distance_sq,
                self.since_triangulation == old(self).since_triangulation,
                forall|ii: int| i as int <= ii < n
                    ==> (#[trigger] self.cells@[ii]) == old(self).cells@[ii],
                forall|ii: int| 0 <= ii < i as int
                    ==> (#[trigger] self.cells@[ii]) == with_temp(
                        old(self).cells@[ii],
                        cell_temp_spec(
                            old(self).cells@[ii].position,
                            old(self).cells@[ii].contents.height,
                            *sim,
                        ),
                    ),
                forall|ii: int| 0 <= ii < n
                    ==> cell_ok(#[trigger] self.cells@[ii], self.plates@.len() as int),
            decreases n - i,
        {
            let mut c = self.cells[i];
            let lat_dot = c.position.dot(sim.axis);
            proof {
                lemma_dot_range(c.position, sim.axis, 2 * SCALE as int, SCALE as int);
            }
            let lat = div_trunc(lat_dot, SCALE);
            proof {
                lemma_tdiv_bound(lat_dot as int, SCALE as int, 6 * SCALE as int);
            }
            let d = if sun_max >= lat {
                sun_max - lat
            } else {
                lat - sun_max
            };
            let angle = if SCALE - d > 0 {
                SCALE - d
            } else {
                0
            };
            proof {
                assert(sim.base_temp * angle <= 1000000000000) by (nonlinear_arith)
                    requires
                        0 <= sim.base_temp <= 1000000,
                        0 <= angle <= 1000000,
                {
                }
                assert(sim.base_temp * angle >= 0) by (nonlinear_arith)
                    requires
                        0 <= sim.base_temp,
                        0 <= angle,
                {
                }
                vstd::arithmetic::div_mod::lemma_div_is_ordered(
                    sim.base_temp * angle, 1000000000000, 1000000);
                vstd::arithmetic::div_mod::lemma_div_pos_is_pos(
                    sim.base_temp * angle, 1000000);
            }
            let warmed = ((sim.base_temp as u64) * (angle as u64) / 1000000) as i64;
            let h: i64 = if c.contents.height > 0 {
                c.contents.height
            } else {
                0
            };
            proof {
                assert(h * sim.lapse_rate <= 10000000000) by (nonlinear_arith)
                    requires
                        0 <= h <= 10000,
                        0 <= sim.lapse_rate <= 1000000,
                {
                }
                assert(h * sim.lapse_rate >= 0) by (nonlinear_arith)
                    requires
                        0 <= h,
                        0 <= sim.lapse_rate,
                {
                }
                vstd::arithmetic::div_mod::lemma_div_is_ordered(
                    h * sim.lapse_rate, 10000000000, 1000);
                vstd::arithmetic::div_mod::lemma_div_pos_is_pos(h * sim.lapse_rate, 1000);
            }
            let cool = ((h as u64) * (sim.lapse_rate as u64) / 1000) as i64;
            let cooled = warmed - cool;
            proof {
                crate::geometry::lemma_mul_range(cooled as int, sim.greenhouse_effect as int,
                    20000000, 1000);
            }
            let t = div_trunc(cooled * sim.greenhouse_effect, 1000);
            c.contents.temperature = t;
            self.cells[i] = c;
            i = i + 1;
        }
    }
}

fn bank_has(bank: &Vec<usize>, x: usize) -> (r: bool)
    ensures
        r == in_bank(bank@, x),
{
    let n = bank.len();
    let mut j: usize = 0;
    while j < n
        invariant
            j <= n,
            n == bank@.len(),
            forall|jj: int| 0 <= jj < j ==> bank@[jj] != x,
        decreases n - j,
    {
        if bank[j] == x {
            assert(bank@[j as int] == x);
            return true;
        }
        j = j + 1;
    }
    false
}

impl Surface {
    /// Advances tectonics by `years` thousandths of a year. `moved` holds
    /// every cell's plate-transported position for this tick, which the
    /// host computes by rotating each cell about its plate's axis; cells
    /// without a plate ignore their entry and stay put.
    ///
    /// Simulated time pools until the triangulation interval has passed;
    /// until then nothing but positions and the counter changes. Then every
    /// edge between two different plates is classified by its current
    /// squared length against the collision yardstick: a short edge
    /// collides — the denser plate's cell subducts into the bank and the
    /// survivor is uplifted — and an edge longer than five fourths of the
    /// yardstick diverges, reviving a banked cell at the edge's normalised
    /// midpoint while the bank lasts. On a topology tick every cell ends as
    /// its transported self, possibly uplifted, or as a blank revival; a
    /// slot leaves the bank only by being revived, so with an empty bank
    /// every divergence is skipped silently and no cell is reborn.
    #[verifier::loop_isolation(false)]
    pub fn tectonics(&mut self, years: i64, moved: &Vec<Vec3>, sim: &SimInfo)
        requires
            old(self).wf(),
            sim_ok(*sim),
            0 <= years <= 1000000000,
            moved@.len() == old(self).cells@.len(),
            forall|i: int| 0 <= i < moved@.len()
                ==> bounded3(#[trigger] moved@[i], 2 * SCALE as int)
                    && crate::geometry::on_sphere(moved@[i]),
        ensures
            final(self).wf(),
            final(self).base_mesh == old(self).base_mesh,
            final(self).plates@ == old(self).plates@,
            final(self).cell_distance_sq == old(self).cell_distance_sq,
            final(self).cells@.len() == old(self).cells@.len(),
            old(self).since_triangulation + years < sim.triangulation_interval ==> {
                &&& final(self).since_triangulation == old(self).since_triangulation + years
                &&& final(self).triangles@ == old(self).triangles@
                &&& final(self).bank@ == old(self).bank@
                &&& forall|i: int| 0 <= i < final(self).cells@.len()
                    ==> (#[trigger] final(self).cells@[i])
                        == transported_cell(old(self).cells@, moved@, i)
            },
            old(self).since_triangulation + years >= sim.triangulation_interval ==> {
                &&& final(self).since_triangulation == 0
                &&& forall|i: int| 0 <= i < final(self).cells@.len()
                    ==> uplifted(
                        transported_cell(old(self).cells@, moved@, i),
                        #[trigger] final(self).cells@[i],
                    ) || revived_cell(final(self).cells@[i])
                &&& forall|j: int|
                    0 <= j < old(self).bank@.len() && !in_bank(
                        final(self).bank@,
                        #[trigger] old(self).bank@[j],
                    ) ==> revived_cell(final(self).cells@[old(self).bank@[j] as int])
            },
    {
        let n = self.cells.len();
        // transport: cells follow their plates
        let mut i: usize = 0;
        while i < n
            invariant
                i <= n,
                n == self.cells@.len(),
                self.base_mesh == old(self).base_mesh,
                self.triangles@ == old(self).triangles@,
                self.plates@ == old(self).plates@,
                self.bank@ == old(self).bank@,
                self.cell_distance_sq == old(self).cell_distance_sq,
                self.since_triangulation == old(self).since_triangulation,
                forall|ii: int| i as int <= ii < n
                    ==> (#[trigger] self.cells@[ii]) == old(self).cells@[ii],
                forall|ii: int| 0 <= ii < i as int
                    ==> (#[trigger] self.cells@[ii])
                        == transported_cell(old(self).cells@, moved@, ii),
                forall|ii: int| 0 <= ii < n
                    ==> cell_ok(#[trigger] self.cells@[ii], self.plates@.len() as int),
            decreases n - i,
        {
            let c0 = self.cells[i];
            if c0.plate.is_some() {
                let mut c = c0;
                c.position = moved[i];
                c.contents.position = moved[i];
                self.cells[i] = c;
            }
            i = i + 1;
        }
        // throttle: pool time until a topology pass is due
        let pooled = self.since_triangulation + years;
        if pooled < sim.triangulation_interval {
            self.since_triangulation = pooled;
            return ;
        }
        self.since_triangulation = 0;
        // classify each plate-boundary edge and resolve it
        let edges = indices_to_edges(&self.triangles);
        let ghost tris1 = self.triangles@;
        proof {
            lemma_undirected_edges_bounded(tris1, n as int);
            lemma_edges_no_self_loop(tris1);
        }
        assert forall|mm: int| 0 <= mm < edges@.len()
            implies ((#[trigger] edges@[mm]).0 as int) < n && (edges@[mm].1 as int) < n
                && edges@[mm].0 < edges@[mm].1 by {
            assert(edges@[mm] == undirected_edges(tris1)[mm]);
        }
        let ghost bank0 = self.bank@;
        proof {
            assert(bank0 == old(self).bank@);
            assert forall|i: int| 0 <= i < n
                implies uplifted(
                    transported_cell(old(self).cells@, moved@, i),
                    #[trigger] self.cells@[i],
                ) by {
                assert(cell_ok(self.cells@[i], self.plates@.len() as int));
            }
            assert forall|j: int| 0 <= j < bank0.len()
                implies in_bank(self.bank@, #[trigger] bank0[j]) by {
                assert(self.bank@[j] == bank0[j]);
            }
        }
        let en = edges.len();
        let mut m: usize = 0;
        while m < en
            invariant
                m <= en,
                en == edges@.len(),
                self.wf(),
                self.cells@.len() == n,
                self.base_mesh == old(self).base_mesh,
                self.plates@ == old(self).plates@,
                self.cell_distance_sq == old(self).cell_distance_sq,
                self.since_triangulation == 0,
                bank0 == old(self).bank@,
                moved@.len() == n,
                forall|i: int| 0 <= i < n
                    ==> uplifted(
                        transported_cell(old(self).cells@, moved@, i),
                        #[trigger] self.cells@[i],
                    ) || revived_cell(self.cells@[i]),
                forall|j: int| 0 <= j < bank0.len()
                    ==> in_bank(self.bank@, #[trigger] bank0[j])
                        || revived_cell(self.cells@[bank0[j] as int]),
            decreases en - m,
        {
            let e = edges[m];
            let banked0 = bank_has(&self.bank, e.0);
            let banked1 = bank_has(&self.bank, e.1);
            if !banked0 && !banked1 {
                proof {
                    assert(cell_ok(self.cells@[e.0 as int], self.plates@.len() as int));
                    assert(cell_ok(self.cells@[e.1 as int], self.plates@.len() as int));
                }
                let pa_opt = self.cells[e.0].plate;
                let pb_opt = self.cells[e.1].plate;
                match (pa_opt, pb_opt) {
                    (Option::Some(pa), Option::Some(pb)) => {
                        if pa != pb {
                            proof {
                                crate::geometry::lemma_dist_sq_range(
                                    self.cells@[e.0 as int].position,
                                    self.cells@[e.1 as int].position,
                                    2 * SCALE as int,
                                );
                            }
                            let d2 = self.cells[e.0].position.dist_sq(self.cells[e.1].position);
                            if d2 < self.cell_distance_sq {
                                // collision: the denser plate subducts and
                                // the survivor is uplifted
                                let denser_first =
                                    self.plates[pa].density >= self.plates[pb].density;
                                let victim = if denser_first { e.0 } else { e.1 };
                                let survivor = if denser_first { e.1 } else { e.0 };
                                let ghost pre_bank = self.bank@;
                                self.remove_cell(victim, survivor);
                                proof {
                                    assert forall|j: int| 0 <= j < bank0.len()
                                        implies in_bank(self.bank@, #[trigger] bank0[j])
                                            || revived_cell(self.cells@[bank0[j] as int]) by {
                                        if in_bank(pre_bank, bank0[j]) {
                                            lemma_in_bank_push(pre_bank, victim, bank0[j]);
                                        }
                                    }
                                }
                                let ghost prev = self.cells@;
                                let mut c = self.cells[survivor];
                                let nh = if c.contents.height + COLLISION_UPLIFT > HEIGHT_CAP {
                                    HEIGHT_CAP
                                } else {
                                    c.contents.height + COLLISION_UPLIFT
                                };
                                c.contents.height = nh;
                                self.cells[survivor] = c;
                                proof {
                                    assert forall|ii: int| 0 <= ii < n
                                        implies cell_ok(
                                            #[trigger] self.cells@[ii],
                                            self.plates@.len() as int,
                                        ) by {
                                        if ii != survivor as int {
                                            assert(self.cells@[ii] == prev[ii]);
                                        }
                                    }
                                    assert forall|ii: int| 0 <= ii < n
                                        implies uplifted(
                                            transported_cell(old(self).cells@, moved@, ii),
                                            #[trigger] self.cells@[ii],
                                        ) || revived_cell(self.cells@[ii]) by {
                                        if ii != survivor as int {
                                            assert(self.cells@[ii] == prev[ii]);
                                        }
                                    }
                                }
                            } else if d2 * 16 > self.cell_distance_sq * 25 {
                                // divergence: revive a banked cell, if any,
                                // keeping the slot when the midpoint would
                                // name no surface point
                                let p0v = self.cells[e.0].position;
                                let p1v = self.cells[e.1].position;
                                let msum = p0v.sum_with(p1v);
                                let mnorm = msum.dot(msum);
                                if mnorm >= 250000000000 && self.bank.len() > 0 {
                                    let ghost pre_bank = self.bank@;
                                    proof {
                                        assert forall|k: int| 0 <= k < self.triangles@.len()
                                            implies ((#[trigger] self.triangles@[k]) as int)
                                                != pre_bank.last() as int by {
                                            assert((self.triangles@[k] as int)
                                                != (self.bank@[pre_bank.len() - 1] as int));
                                        }
                                    }
                                    let slot_opt = self.bank.pop();
                                    match slot_opt {
                                        Option::Some(slot) => {
                                            let flip = rand_coin(&mut self.rng);
                                            let de = if flip {
                                                (e.0, e.1)
                                            } else {
                                                (e.1, e.0)
                                            };
                                            let ghost prev = self.cells@;
                                            proof {
                                                assert(sum_spec(
                                                    self.cells@[de.0 as int].position,
                                                    self.cells@[de.1 as int].position,
                                                ) == sum_spec(p0v, p1v));
                                                crate::geometry::lemma_norm_sq_nonneg(msum);
                                            }
                                            self.add_cell(de, slot);
                                            proof {
                                                assert(revived_cell(self.cells@[slot as int]));
                                                assert forall|ii: int| 0 <= ii < n
                                                    implies uplifted(
                                                        transported_cell(
                                                            old(self).cells@, moved@, ii),
                                                        #[trigger] self.cells@[ii],
                                                    ) || revived_cell(self.cells@[ii]) by {
                                                    if ii != slot as int {
                                                        assert(self.cells@[ii] == prev[ii]);
                                                    }
                                                }
                                                assert forall|j: int| 0 <= j < bank0.len()
                                                    implies in_bank(
                                                        self.bank@, #[trigger] bank0[j])
                                                        || revived_cell(
                                                        self.cells@[bank0[j] as int]) by {
                                                    if in_bank(pre_bank, bank0[j])
                                                        && bank0[j] != slot {
                                                        lemma_in_bank_pop(pre_bank, bank0[j]);
                                                    }
                                                }
                                            }
                                        },
                                        Option::None => {},
                                    }
                                }
                            }
                        }
                    },
                    _ => {},
                }
            }
            m = m + 1;
        }
    }
}

} // verus!
