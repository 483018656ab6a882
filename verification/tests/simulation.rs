use falling_sand::datatype::{Rgba, Vector2};
use falling_sand::world_grid::{CellType, ParticleData, World, HOT_FRAMES};

fn sand(vy: i64) -> CellType {
    CellType::Sand(ParticleData {
        speed: Vector2 { x: 0, y: vy },
        color: Rgba { r: 200, g: 50, b: 0, a: 255 },
    })
}

fn block() -> CellType {
    CellType::Block(ParticleData {
        speed: Vector2 { x: 0, y: 0 },
        color: Rgba { r: 0, g: 0, b: 0, a: 255 },
    })
}

fn count_sand(w: &World) -> usize {
    let mut n = 0;
    for x in 0..w.width() {
        for y in 0..w.height() {
            if matches!(w.get(x, y), CellType::Sand(_)) {
                n += 1;
            }
        }
    }
    n
}

fn sand_positions(w: &World) -> Vec<(usize, usize)> {
    let mut v = Vec::new();
    for x in 0..w.width() {
        for y in 0..w.height() {
            if matches!(w.get(x, y), CellType::Sand(_)) {
                v.push((x, y));
            }
        }
    }
    v
}

#[test]
fn new_world_is_empty_and_cold() {
    let w = World::new(20, 20);
    assert_eq!(w.width(), 20);
    assert_eq!(w.height(), 20);
    for x in 0..20 {
        for y in 0..20 {
            assert!(matches!(w.get(x, y), CellType::Empty));
            assert_eq!(w.room_hotness(x, y), 0);
        }
    }
}

#[test]
fn place_overwrites_and_heats_room() {
    let mut w = World::new_seeded(20, 20, 1);
    w.set(3, 4, block());
    assert_eq!(*w.get(3, 4), block());
    assert_eq!(w.room_hotness(3, 4), HOT_FRAMES);
    w.set(3, 4, sand(0));
    assert_eq!(*w.get(3, 4), sand(0));
}

#[test]
fn get_mut_writes_without_heating_the_room() {
    let mut w = World::new_seeded(20, 20, 7);
    *w.get_mut(1, 1) = block();
    assert_eq!(*w.get(1, 1), block());
    assert_eq!(w.room_hotness(1, 1), 0);
}

// A grid holding only solids and empty space is unchanged by any number of
// frames, the touched list stays empty, and no room is ever re-armed.
#[test]
fn solids_never_move() {
    let mut w = World::new_seeded(20, 20, 2);
    for x in 0..20 {
        w.set(x, 19, block());
    }
    w.set(7, 3, block());
    let before: Vec<(usize, usize)> = {
        let mut v = Vec::new();
        for x in 0..20 {
            for y in 0..20 {
                if matches!(w.get(x, y), CellType::Block(_)) {
                    v.push((x, y));
                }
            }
        }
        v
    };
    for _ in 0..5 {
        let touched = w.process_frame();
        assert!(touched.is_empty());
    }
    for x in 0..20 {
        for y in 0..20 {
            let is_block = matches!(w.get(x, y), CellType::Block(_));
            assert_eq!(is_block, before.contains(&(x, y)));
            assert!(!matches!(w.get(x, y), CellType::Sand(_)));
        }
    }
}

// A room with no writes decays by exactly one per frame, reaches 0 after
// HOT_FRAMES frames, and stays at 0.
#[test]
fn hotness_decays_to_zero_and_stays() {
    let mut w = World::new_seeded(20, 20, 3);
    w.set(2, 2, block());
    assert_eq!(w.room_hotness(2, 2), HOT_FRAMES);
    for k in 1..=HOT_FRAMES {
        w.process_frame();
        assert_eq!(w.room_hotness(2, 2), HOT_FRAMES - k);
    }
    for _ in 0..3 {
        w.process_frame();
        assert_eq!(w.room_hotness(2, 2), 0);
    }
}

// Scenario: a single falling particle on an otherwise empty grid. After one
// frame it has moved to one of the cells its scan and slides can reach,
// nothing else holds sand, and both its old and its new room are hot.
#[test]
fn lone_particle_first_frame() {
    for seed in 0..10 {
        let mut w = World::new_seeded(20, 20, seed);
        w.set(5, 0, sand(100));
        let touched = w.process_frame();
        let ps = sand_positions(&w);
        assert_eq!(ps.len(), 1);
        let p = ps[0];
        assert!(
            p == (5, 1) || p == (5, 2) || p == (4, 1) || p == (6, 1),
            "unexpected landing spot {:?}",
            p
        );
        assert_eq!(touched.len(), 2);
        assert_eq!((touched[0].x, touched[0].y), (5, 0));
        assert_eq!((touched[1].x, touched[1].y), p);
        assert_eq!(w.room_hotness(5, 0), HOT_FRAMES);
        assert_eq!(w.room_hotness(p.0, p.1), HOT_FRAMES);
        // The particle keeps its color and sideways speed, and both a fall
        // and a diagonal slide store the gravity-updated vertical speed:
        // 1.0 plus 0.15 cells per frame, in fixed-point hundredths.
        match w.get(p.0, p.1) {
            CellType::Sand(d) => {
                assert_eq!(d.color, Rgba { r: 200, g: 50, b: 0, a: 255 });
                assert_eq!(d.speed.x, 0);
                assert_eq!(d.speed.y, 115);
            }
            _ => unreachable!(),
        }
    }
}

// Scenario: a particle resting on a solid floor with solid cells down-left
// and down-right does not move, and its room's hotness decays by exactly
// one per frame until the room goes quiet; the particle stays even then.
#[test]
fn resting_particle_stays_put() {
    for seed in 0..10 {
        let mut w = World::new_seeded(20, 20, 100 + seed);
        w.set(4, 6, block());
        w.set(5, 6, block());
        w.set(6, 6, block());
        w.set(5, 5, sand(0));
        let hot_before = w.room_hotness(5, 5);
        let touched = w.process_frame();
        assert!(touched.is_empty());
        assert_eq!(*w.get(5, 5), sand(0));
        assert_eq!(w.room_hotness(5, 5), hot_before - 1);
        // Long after the room has gone quiet, the particle is still there.
        for _ in 0..(2 * HOT_FRAMES) {
            w.process_frame();
        }
        assert_eq!(*w.get(5, 5), sand(0));
        assert_eq!(w.room_hotness(5, 5), 0);
    }
}

// Scenario: two particles whose only move is a diagonal slide into the same
// cell. Exactly one takes it; the other stays where it was — no overwrite,
// no disappearance.
#[test]
fn contended_destination_keeps_both_particles() {
    for seed in 0..10 {
        let mut w = World::new_seeded(20, 20, 200 + seed);
        w.set(3, 6, block());
        w.set(4, 6, block());
        w.set(6, 6, block());
        w.set(7, 6, block());
        w.set(4, 5, sand(0));
        w.set(6, 5, sand(0));
        w.process_frame();
        assert!(matches!(w.get(5, 6), CellType::Sand(_)));
        let left = matches!(w.get(4, 5), CellType::Sand(_));
        let right = matches!(w.get(6, 5), CellType::Sand(_));
        assert!(left != right, "exactly one particle must stay behind");
        assert_eq!(count_sand(&w), 2);
    }
}

// The smallest possible world: its only row is the bottom row, which never
// moves, so the particle sits still while its room cools down.
#[test]
fn smallest_world_particle_cannot_move() {
    let mut w = World::new_seeded(1, 1, 9);
    w.set(0, 0, sand(100));
    for _ in 0..3 {
        let touched = w.process_frame();
        assert!(touched.is_empty());
    }
    assert_eq!(*w.get(0, 0), sand(100));
}

// Every committed move goes strictly downward, so a dropped particle ends
// up resting directly on a full floor row and never leaves it.
#[test]
fn falling_particle_settles_on_floor() {
    for seed in 0..5 {
        let mut w = World::new_seeded(20, 20, 300 + seed);
        for x in 0..20 {
            w.set(x, 10, block());
        }
        w.set(5, 0, sand(300));
        for _ in 0..40 {
            w.process_frame();
        }
        let ps = sand_positions(&w);
        assert_eq!(ps.len(), 1);
        assert_eq!(ps[0].1, 9, "particle should rest on the floor, was {:?}", ps[0]);
    }
}

// Sand is conserved, every touched coordinate is in bounds, and no
// coordinate is touched twice in one frame.
#[test]
fn busy_world_conserves_sand_and_writes_each_cell_once() {
    let mut w = World::new_seeded(30, 30, 42);
    for x in 0..30 {
        w.set(x, 29, block());
    }
    for x in 10..20 {
        for y in 0..5 {
            w.set(x, y, sand(50));
        }
    }
    let total = count_sand(&w);
    assert_eq!(total, 50);
    for _ in 0..40 {
        let touched = w.process_frame();
        assert_eq!(touched.len() % 2, 0);
        for c in touched.iter() {
            assert!(c.x < 30 && c.y < 30);
        }
        for i in 0..touched.len() {
            for j in (i + 1)..touched.len() {
                assert!(
                    (touched[i].x, touched[i].y) != (touched[j].x, touched[j].y),
                    "cell written twice in one frame"
                );
            }
        }
        assert_eq!(count_sand(&w), total);
    }
}
