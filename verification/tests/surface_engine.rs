use std::collections::HashSet;

use terra::geometry::{isqrt, Vec3, SCALE};
use terra::shape::Shape;
use terra::surface::Surface;

fn ico_positions() -> Vec<Vec3> {
    let phi = (1.0 + 5f64.sqrt()) / 2.0;
    let raw: [[f64; 3]; 12] = [
        [-1.0, phi, 0.0],
        [1.0, phi, 0.0],
        [-1.0, -phi, 0.0],
        [1.0, -phi, 0.0],
        [0.0, -1.0, phi],
        [0.0, 1.0, phi],
        [0.0, -1.0, -phi],
        [0.0, 1.0, -phi],
        [phi, 0.0, -1.0],
        [phi, 0.0, 1.0],
        [-phi, 0.0, -1.0],
        [-phi, 0.0, 1.0],
    ];
    raw.iter()
        .map(|p| {
            let n = (p[0] * p[0] + p[1] * p[1] + p[2] * p[2]).sqrt();
            Vec3 {
                x: (p[0] / n * 1e6) as i64,
                y: (p[1] / n * 1e6) as i64,
                z: (p[2] / n * 1e6) as i64,
            }
        })
        .collect()
}

fn build_surface(plate_count: u32) -> Surface {
    let shape = Shape::icosahedron();
    let heights: Vec<i64> = (0..12).map(|i| if i % 2 == 0 { -2000 } else { 3000 }).collect();
    let humidities: Vec<i64> = vec![50000; 12];
    Surface::new(shape, ico_positions(), heights, humidities, plate_count, rand::thread_rng())
}

/// V - E + F of the active mesh, ignoring degenerate triangles, which
/// describe no face.
fn euler_characteristic(s: &Surface) -> i64 {
    let v = (s.cells.len() - s.bank.len()) as i64;
    let mut edges: HashSet<(u32, u32)> = HashSet::new();
    let mut faces: i64 = 0;
    for t in s.triangles.chunks(3) {
        if t[0] == t[1] || t[1] == t[2] || t[2] == t[0] {
            continue;
        }
        faces += 1;
        for k in 0..3 {
            let a = t[k];
            let b = t[(k + 1) % 3];
            let e = if a < b { (a, b) } else { (b, a) };
            edges.insert(e);
        }
    }
    v - edges.len() as i64 + faces
}

fn expected_normalize(v: Vec3) -> Vec3 {
    let m = (v.x * v.x + v.y * v.y + v.z * v.z) as u64;
    let n = isqrt(m) as i64;
    let sc = |a: i64| {
        if a >= 0 {
            a * SCALE / n
        } else {
            -((-a) * SCALE / n)
        }
    };
    Vec3 { x: sc(v.x), y: sc(v.y), z: sc(v.z) }
}

#[test]
fn new_seeds_cells_from_inputs() {
    let s = build_surface(3);
    assert_eq!(s.cells.len(), 12);
    assert_eq!(s.plates.len(), 3);
    assert_eq!(s.bank.len(), 0);
    assert_eq!(s.triangles.len(), 60);
    let positions = ico_positions();
    for (i, c) in s.cells.iter().enumerate() {
        assert_eq!(c.position, positions[i]);
        assert_eq!(c.contents.position, positions[i]);
        assert_eq!(c.base_index, i as u32);
        if i % 2 == 0 {
            assert_eq!(c.contents.height, -2000);
            assert_eq!(c.contents.water, 1000);
        } else {
            assert_eq!(c.contents.height, 3000);
            assert_eq!(c.contents.water, 0);
        }
        assert_eq!(c.contents.humidity, 50000);
        assert_eq!(c.contents.temperature, 0);
    }
    // the yardstick is the squared length of the first listed edge, 0-11
    let d = s.cells[0].position.dist_sq(s.cells[11].position);
    assert_eq!(s.cell_distance_sq, d);
    assert!(d > 0);
}

#[test]
fn fill_plates_covers_every_cell() {
    let s = build_surface(3);
    for c in s.cells.iter() {
        match c.plate {
            Some(p) => assert!(p < 3),
            None => panic!("cell left without a plate"),
        }
    }
}

#[test]
fn no_plates_means_no_assignment() {
    let s = build_surface(0);
    assert_eq!(s.plates.len(), 0);
    for c in s.cells.iter() {
        assert!(c.plate.is_none());
    }
}

#[test]
fn base_mesh_is_a_closed_sphere() {
    let s = build_surface(2);
    assert_eq!(euler_characteristic(&s), 2);
}

#[test]
fn remove_cell_banks_and_unreferences() {
    let mut s = build_surface(2);
    s.remove_cell(0, 11);
    assert_eq!(s.bank, vec![0]);
    for &i in s.triangles.iter() {
        assert!(i != 0);
    }
    // the fan adds real faces only: no triangle repeats an index
    for t in s.triangles.chunks(3) {
        assert!(t[0] != t[1] && t[1] != t[2] && t[2] != t[0]);
    }
    // the hole was re-triangulated: the sphere stays closed
    assert_eq!(euler_characteristic(&s), 2);
}

#[test]
fn removals_accumulate_in_the_bank() {
    let mut s = build_surface(2);
    s.remove_cell(0, 11);
    s.remove_cell(3, 9);
    assert_eq!(s.bank, vec![0, 3]);
    for &i in s.triangles.iter() {
        assert!(i != 0 && i != 3);
    }
    assert_eq!(euler_characteristic(&s), 2);
}

#[test]
fn add_cell_spawns_on_the_normalised_midpoint() {
    let mut s = build_surface(2);
    s.remove_cell(0, 11);
    let slot = s.bank.pop().unwrap();
    assert_eq!(slot, 0);
    s.add_cell((1, 5), slot);
    // the revived cell sits on the normalised midpoint of its parents
    let sum = Vec3 {
        x: s.cells[1].position.x + s.cells[5].position.x,
        y: s.cells[1].position.y + s.cells[5].position.y,
        z: s.cells[1].position.z + s.cells[5].position.z,
    };
    let expected = expected_normalize(sum);
    assert_eq!(s.cells[0].position, expected);
    // on the sphere within rounding
    let p = s.cells[0].position;
    let n2 = p.x * p.x + p.y * p.y + p.z * p.z;
    assert!(n2 > SCALE * SCALE - 10 * SCALE && n2 < SCALE * SCALE + 10 * SCALE);
    // on the first parent's plate
    assert_eq!(s.cells[0].plate, s.cells[1].plate);
    // the mesh is whole again
    assert_eq!(euler_characteristic(&s), 2);
    let referenced = s.triangles.iter().any(|&i| i == 0);
    assert!(referenced);
}

#[test]
fn third_point_reads_the_base_mesh() {
    let s = build_surface(1);
    assert_eq!(s.third_point((0, 11)), Some(5));
    assert_eq!(s.third_point((11, 0)), Some(10));
    assert_eq!(s.third_point((1, 3)), None);
}

#[test]
fn rand_draws_stay_in_range() {
    let mut rng = rand::thread_rng();
    for _ in 0..200 {
        let d = terra::rng::rand_below(&mut rng, 7);
        assert!(d < 7);
        let sg = terra::rng::rand_signed(&mut rng, 10);
        assert!(-10 <= sg && sg <= 10);
    }
}

#[test]
fn random_plates_are_in_range() {
    let mut rng = rand::thread_rng();
    for _ in 0..50 {
        let p = terra::surface::Plate::random(&mut rng);
        assert!(p.density >= 0 && p.density < 10000);
        assert!(p.speed >= 0 && p.speed < 31393);
        let a = p.axis;
        assert!(a.x.abs() <= SCALE && a.y.abs() <= SCALE && a.z.abs() <= SCALE);
        // short draws fall back to the pole, so every axis is on the
        // sphere within rounding
        let n2 = a.x * a.x + a.y * a.y + a.z * a.z;
        assert!(n2 >= SCALE * SCALE - 7 * SCALE && n2 <= SCALE * SCALE + 7 * SCALE);
    }
}
