use colors::color::Color;
use colors::palette::{color_step, generate_palette};
use colors::random::Rng;

#[test]
fn color_step_of_one_is_full_range() {
    assert_eq!(color_step(1), 256);
}

#[test]
fn color_step_exact_values() {
    // floor(256 / cbrt(count))
    assert_eq!(color_step(8), 128);
    assert_eq!(color_step(27), 85);
    assert_eq!(color_step(64), 64);
    assert_eq!(color_step(1000), 25);
}

#[test]
fn color_step_of_full_cube_is_one() {
    assert_eq!(color_step(16777216), 1);
}

#[test]
fn palette_of_one_color() {
    let mut rng = Rng::from_seed(1);
    let palette = generate_palette(1, &mut rng);
    // stride 256: a single lattice point per axis, offset wrapped to 0
    assert_eq!(palette.len(), 1);
    assert_eq!(palette[0], Color::new(0, 0, 0));
}

#[test]
fn palette_of_eight_covers_two_levels_per_axis() {
    let mut rng = Rng::from_seed(3);
    let palette = generate_palette(8, &mut rng);
    assert_eq!(palette.len(), 8);
    let mut triples: Vec<(u8, u8, u8)> = palette.iter().map(|c| (c.r, c.g, c.b)).collect();
    triples.sort();
    let mut expected: Vec<(u8, u8, u8)> = Vec::new();
    for r in [0u8, 128] {
        for g in [0u8, 128] {
            for b in [0u8, 128] {
                expected.push((r, g, b));
            }
        }
    }
    expected.sort();
    assert_eq!(triples, expected);
}

#[test]
fn shuffle_keeps_exactly_the_lattice_colors() {
    // two different seeds order the palette differently, but the multiset
    // of colors is the same lattice both times
    let mut rng1 = Rng::from_seed(11);
    let mut rng2 = Rng::from_seed(99);
    let p1 = generate_palette(64, &mut rng1);
    let p2 = generate_palette(64, &mut rng2);
    assert_eq!(p1.len(), 64);
    assert_eq!(p2.len(), 64);
    let mut t1: Vec<(u8, u8, u8)> = p1.iter().map(|c| (c.r, c.g, c.b)).collect();
    let mut t2: Vec<(u8, u8, u8)> = p2.iter().map(|c| (c.r, c.g, c.b)).collect();
    t1.sort();
    t2.sort();
    assert_eq!(t1, t2);
}

#[test]
fn palette_length_may_exceed_request() {
    // count 27 gives stride 85 and four lattice points per axis
    let mut rng = Rng::from_seed(5);
    let palette = generate_palette(27, &mut rng);
    assert_eq!(palette.len(), 64);
}
