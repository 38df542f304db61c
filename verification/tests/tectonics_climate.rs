use terra::config::SimInfo;
use terra::geometry::{Vec3, SCALE};
use terra::shape::Shape;
use terra::surface::{Surface, DIST_SQ_CAP};

fn ico_positions() -> Vec<Vec3> {
    let phi = (1.0 + 5f64.sqrt()) / 2.0;
    let raw: [[f64; 3]; 12] = [
        [-1.0, phi, 0.0],
        [1.0, phi, 0.0],
        [-1.0, -phi, 0.0],
        [1.0, -phi, 0.0],
        [0.0, -1.0, phi],
        [0.0, 1.0, phi],
        [0.0, -1.0, -phi],
        [0.0, 1.0, -phi],
        [phi, 0.0, -1.0],
        [phi, 0.0, 1.0],
        [-phi, 0.0, -1.0],
        [-phi, 0.0, 1.0],
    ];
    raw.iter()
        .map(|p| {
            let n = (p[0] * p[0] + p[1] * p[1] + p[2] * p[2]).sqrt();
            Vec3 {
                x: (p[0] / n * 1e6) as i64,
                y: (p[1] / n * 1e6) as i64,
                z: (p[2] / n * 1e6) as i64,
            }
        })
        .collect()
}

fn build_surface(plate_count: u32) -> Surface {
    let shape = Shape::icosahedron();
    let heights: Vec<i64> = (0..12).map(|i| if i % 2 == 0 { -2000 } else { 3000 }).collect();
    let humidities: Vec<i64> = vec![50000; 12];
    Surface::new(shape, ico_positions(), heights, humidities, plate_count, rand::thread_rng())
}

fn sim(interval: i64) -> SimInfo {
    SimInfo {
        years_per_second: 1000,
        triangulation_interval: interval,
        lapse_rate: 6500,
        greenhouse_effect: 1000,
        base_temp: 30000,
        axis: Vec3 { x: 0, y: SCALE, z: 0 },
        to_sun: Vec3 { x: SCALE, y: 0, z: 0 },
    }
}

fn current_positions(s: &Surface) -> Vec<Vec3> {
    s.cells.iter().map(|c| c.position).collect()
}

#[test]
fn tectonics_pools_time_below_the_interval() {
    let mut s = build_surface(2);
    let tris_before = s.triangles.clone();
    let moved = current_positions(&s);
    s.tectonics(500, &moved, &sim(1000000));
    assert_eq!(s.since_triangulation, 500);
    assert_eq!(s.triangles, tris_before);
    assert_eq!(s.bank.len(), 0);
    s.tectonics(400, &moved, &sim(1000000));
    assert_eq!(s.since_triangulation, 900);
}

#[test]
fn collisions_bank_cells_and_unreference_them() {
    let mut s = build_surface(2);
    // a sharp plate boundary, set by hand so the scenario is deterministic
    for (i, c) in s.cells.iter_mut().enumerate() {
        c.plate = Some(if i < 6 { 0 } else { 1 });
    }
    // with the yardstick at its cap, every boundary edge collides
    s.cell_distance_sq = DIST_SQ_CAP;
    let moved = current_positions(&s);
    s.tectonics(1000, &moved, &sim(0));
    assert_eq!(s.since_triangulation, 0);
    assert!(s.bank.len() > 0);
    for &b in s.bank.iter() {
        for &t in s.triangles.iter() {
            assert!(t as usize != b);
        }
    }
    assert_eq!(s.cells.len(), 12);
}

#[test]
fn divergence_revives_a_banked_cell() {
    let mut s = build_surface(2);
    s.remove_cell(0, 11);
    assert_eq!(s.bank, vec![0]);
    for (i, c) in s.cells.iter_mut().enumerate() {
        c.plate = Some(if i < 6 { 0 } else { 1 });
    }
    // with a tiny yardstick, boundary edges diverge and nothing collides
    s.cell_distance_sq = 1;
    let moved = current_positions(&s);
    s.tectonics(1000, &moved, &sim(0));
    assert_eq!(s.bank.len(), 0);
    let revived = s.triangles.iter().any(|&t| t == 0);
    assert!(revived);
    // the reborn cell is blank and sits on the sphere
    let c = &s.cells[0];
    assert_eq!(c.contents.humidity, 0);
    assert_eq!(c.contents.water, 0);
    assert_eq!(c.contents.temperature, 0);
    assert_eq!(c.contents.position, c.position);
    let n2 = c.position.x * c.position.x + c.position.y * c.position.y
        + c.position.z * c.position.z;
    assert!(n2 >= SCALE * SCALE - 7 * SCALE && n2 <= SCALE * SCALE + 7 * SCALE);
}

#[test]
fn temperature_matches_the_formula() {
    let mut s = build_surface(0);
    // a polar cell under a sun over the equator: no insolation, lapse only
    s.cells[0].position = Vec3 { x: 0, y: SCALE, z: 0 };
    s.cells[0].contents.height = 3000;
    // an equatorial cell under ideal insolation, under water
    s.cells[1].position = Vec3 { x: SCALE, y: 0, z: 0 };
    s.cells[1].contents.height = -2000;
    s.temperature(&sim(1000000));
    assert_eq!(s.cells[0].contents.temperature, -(3000 * 6500 / 1000));
    assert_eq!(s.cells[1].contents.temperature, 30000);
}

#[test]
fn temperature_never_rises_with_height() {
    // the same spot at increasing heights, under the same sun
    let mut last: Option<i64> = None;
    for h in [1i64, 500, 2500, 9000] {
        let mut s = build_surface(0);
        s.cells[2].contents.height = h;
        s.temperature(&sim(1000000));
        let t = s.cells[2].contents.temperature;
        if let Some(prev) = last {
            assert!(t <= prev);
        }
        last = Some(t);
    }
}

#[test]
fn greenhouse_scales_the_result() {
    let mut s = build_surface(0);
    s.cells[1].position = Vec3 { x: SCALE, y: 0, z: 0 };
    s.cells[1].contents.height = -2000;
    let mut half = sim(1000000);
    half.greenhouse_effect = 500;
    s.temperature(&half);
    assert_eq!(s.cells[1].contents.temperature, 15000);
}

#[test]
fn divergence_without_a_bank_is_skipped() {
    let mut s = build_surface(2);
    for (i, c) in s.cells.iter_mut().enumerate() {
        c.plate = Some(if i < 6 { 0 } else { 1 });
    }
    // every boundary edge wants to diverge, but no slot is free
    s.cell_distance_sq = 1;
    let tris_before = s.triangles.clone();
    let moved = current_positions(&s);
    s.tectonics(1000, &moved, &sim(0));
    assert_eq!(s.bank.len(), 0);
    assert_eq!(s.triangles, tris_before);
    assert_eq!(s.cells.len(), 12);
}
