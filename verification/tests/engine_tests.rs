use colors::color::Color;
use colors::engine::{ConfigError, Engine, StepResult};
use colors::random::Rng;

fn distinct_colors(n: u8) -> Vec<Color> {
    let mut palette = Vec::new();
    for i in 0..n {
        palette.push(Color::new(i.wrapping_mul(16), i, 255 - i));
    }
    palette
}

#[test]
fn zero_width_is_a_configuration_error() {
    let r = Engine::new(0, 5, distinct_colors(4));
    assert_eq!(r.err(), Some(ConfigError::ZeroArea));
}

#[test]
fn zero_height_is_a_configuration_error() {
    let r = Engine::new(5, 0, distinct_colors(4));
    assert_eq!(r.err(), Some(ConfigError::ZeroArea));
}

#[test]
fn empty_palette_is_a_configuration_error() {
    let r = Engine::new(5, 5, Vec::new());
    assert_eq!(r.err(), Some(ConfigError::EmptyPalette));
}

#[test]
fn trivial_grid_single_cell() {
    // width=1, height=1, one color: the grid holds exactly that color at (0,0)
    let c = Color::new(7, 8, 9);
    let mut engine = Engine::new(1, 1, vec![c]).unwrap();
    assert!(engine.is_done());
    assert_eq!(engine.placed_count(), 1);
    assert_eq!(engine.color_at(0, 0), Some(c));
    let mut rng = Rng::from_seed(0);
    engine.run(&mut rng);
    assert_eq!(engine.color_at(0, 0), Some(c));
    assert_eq!(engine.placed_count(), 1);
}

#[test]
fn threshold_starts_at_its_floor() {
    let engine = Engine::new(3, 3, distinct_colors(4)).unwrap();
    assert_eq!(engine.threshold(), 2);
}

#[test]
fn identical_color_places_on_first_attempt() {
    // distance zero always beats the threshold, whatever its value
    let c = Color::new(120, 45, 200);
    let mut engine = Engine::new(3, 3, vec![c, c]).unwrap();
    let mut rng = Rng::from_seed(4);
    let r = engine.step(&mut rng);
    assert!(matches!(r, StepResult::Placed(_)));
    assert_eq!(engine.placed_count(), 2);
    assert!(engine.is_done());
}

#[test]
fn stall_doubles_threshold_once_per_pass() {
    // black is seeded; white is farther from black than any small threshold,
    // so every full (single-color) pass doubles the threshold until it
    // passes the black-white distance of 195075
    let black = Color::new(0, 0, 0);
    let white = Color::new(255, 255, 255);
    let mut engine = Engine::new(2, 1, vec![black, white]).unwrap();
    let mut rng = Rng::from_seed(9);
    let mut requeues = 0u32;
    while !engine.is_done() {
        let before = engine.threshold();
        assert!(before >= 2);
        match engine.step(&mut rng) {
            StepResult::Requeued => {
                // the queue holds one color, so each re-enqueue is a full
                // fruitless pass and doubles the threshold exactly once
                assert_eq!(engine.threshold(), before * 2);
                requeues += 1;
            }
            StepResult::Placed(_) => {
                assert!(before > 195075);
            }
        }
    }
    // 2 doubles to 262144 in 17 steps before it exceeds 195075; the final
    // placement lands on a checkpoint and cools the threshold by one
    assert_eq!(requeues, 17);
    assert_eq!(engine.threshold(), 262143);
    assert_eq!(engine.placed_count(), 2);
    assert_eq!(engine.color_at(1, 0), Some(black));
    assert_eq!(engine.color_at(0, 0), Some(white));
}

#[test]
fn small_deterministic_run() {
    // width=4, height=4, 16 distinct colors, fixed seed
    let palette = distinct_colors(16);
    let first = palette[0];
    let mut engine = Engine::new(4, 4, palette).unwrap();
    // the seed pixel sits at the canvas center (2,2)
    assert_eq!(engine.color_at(2, 2), Some(first));
    let mut rng = Rng::from_seed(1234);
    engine.run(&mut rng);
    assert!(engine.is_done());
    assert_eq!(engine.placed_count(), 16);
    let mut seen: Vec<(u8, u8, u8)> = Vec::new();
    for y in 0..4 {
        for x in 0..4 {
            let c = engine.color_at(x, y).expect("every cell must be filled");
            seen.push((c.r, c.g, c.b));
        }
    }
    seen.sort();
    let mut expected: Vec<(u8, u8, u8)> =
        distinct_colors(16).iter().map(|c| (c.r, c.g, c.b)).collect();
    expected.sort();
    // no duplicate colors: the 16 palette colors each appear exactly once
    assert_eq!(seen, expected);
}

#[test]
fn threshold_never_drops_below_two_during_a_run() {
    let palette = distinct_colors(36);
    let mut engine = Engine::new(6, 6, palette).unwrap();
    let mut rng = Rng::from_seed(21);
    while !engine.is_done() {
        engine.step(&mut rng);
        assert!(engine.threshold() >= 2);
    }
}

#[test]
fn same_seed_gives_identical_grids() {
    let palette = distinct_colors(36);
    let mut engine1 = Engine::new(6, 6, palette.clone()).unwrap();
    let mut engine2 = Engine::new(6, 6, palette).unwrap();
    let mut rng1 = Rng::from_seed(77);
    let mut rng2 = Rng::from_seed(77);
    engine1.run(&mut rng1);
    engine2.run(&mut rng2);
    assert_eq!(engine1.snapshot(), engine2.snapshot());
}

#[test]
fn different_seeds_may_differ() {
    // not a guarantee for every pair of seeds, but these two arrangements
    // differ, which shows the snapshots actually carry the grid contents
    let palette = distinct_colors(36);
    let mut engine1 = Engine::new(6, 6, palette.clone()).unwrap();
    let mut engine2 = Engine::new(6, 6, palette).unwrap();
    let mut rng1 = Rng::from_seed(1);
    let mut rng2 = Rng::from_seed(2);
    engine1.run(&mut rng1);
    engine2.run(&mut rng2);
    assert_ne!(engine1.snapshot(), engine2.snapshot());
}

#[test]
fn excess_palette_fills_the_grid_exactly() {
    // ten colors on a 2x2 canvas: exactly min(10, 4) cells are filled
    let palette = distinct_colors(10);
    let mut engine = Engine::new(2, 2, palette).unwrap();
    let mut rng = Rng::from_seed(5);
    engine.run(&mut rng);
    assert!(engine.is_done());
    assert_eq!(engine.placed_count(), 4);
    assert_eq!(engine.pending_count(), 6);
    let filled = engine.snapshot().iter().filter(|c| c.is_some()).count();
    assert_eq!(filled, 4);
}

#[test]
fn short_palette_is_placed_completely() {
    // five colors on a 3x3 canvas: all five are placed, each exactly once
    let palette = distinct_colors(5);
    let mut engine = Engine::new(3, 3, palette.clone()).unwrap();
    let mut rng = Rng::from_seed(6);
    engine.run(&mut rng);
    assert_eq!(engine.placed_count(), 5);
    assert_eq!(engine.pending_count(), 0);
    let mut seen: Vec<(u8, u8, u8)> = engine
        .snapshot()
        .iter()
        .flatten()
        .map(|c| (c.r, c.g, c.b))
        .collect();
    seen.sort();
    let mut expected: Vec<(u8, u8, u8)> = palette.iter().map(|c| (c.r, c.g, c.b)).collect();
    expected.sort();
    assert_eq!(seen, expected);
}

#[test]
fn checkpoints_fire_every_placement_on_small_grids() {
    // a 4x4 canvas has interval max(16/512, 1) = 1: every placement is a
    // checkpoint boundary
    let palette = distinct_colors(16);
    let mut engine = Engine::new(4, 4, palette).unwrap();
    let mut rng = Rng::from_seed(8);
    while !engine.is_done() {
        match engine.step(&mut rng) {
            StepResult::Placed(checkpoint) => assert!(checkpoint),
            StepResult::Requeued => {}
        }
    }
}
