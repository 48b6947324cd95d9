use mandelbrot::escape::ITERMAX;
use mandelbrot::palette::{gradient, Color, Palette, PaletteError, Position};

fn at(numer: u32, denom: u32) -> Position {
    Position::new(numer, denom).unwrap()
}

fn rgb(r: u8, g: u8, b: u8) -> Color {
    Color { r, g, b }
}

fn palette(stops: &[(u32, u32, Color)]) -> Palette {
    let mut p = Palette::new();
    for (numer, denom, color) in stops {
        p.add_stop(at(*numer, *denom), *color);
    }
    p
}

fn positions(p: &Palette) -> Vec<(u32, u32)> {
    let mut all = Vec::new();
    let mut i = 0;
    while let Some((position, _)) = p.stop(i) {
        all.push((position.numer(), position.denom()));
        i += 1;
    }
    all
}

#[test]
fn position_keeps_its_parts() {
    let p = at(15, 100);
    assert_eq!((p.numer(), p.denom()), (15, 100));
}

#[test]
fn position_lies_between_zero_and_one() {
    assert!(Position::new(0, 1).is_some());
    assert!(Position::new(1, 1).is_some());
    assert!(Position::new(u32::MAX, u32::MAX).is_some());
    assert!(Position::new(2, 1).is_none());
    assert!(Position::new(101, 100).is_none());
    assert!(Position::new(0, 0).is_none());
    assert!(Position::new(1, 0).is_none());
}

#[test]
fn positions_compare_as_rationals() {
    assert!(at(1, 3).is_before(&at(1, 2)));
    assert!(!at(1, 2).is_before(&at(1, 3)));
    assert!(!at(1, 2).is_before(&at(2, 4)));
    assert!(at(1, 2).coincides(&at(2, 4)));
    assert!(!at(1, 2).coincides(&at(2, 5)));
    assert!(at(u32::MAX - 1, u32::MAX).is_before(&at(u32::MAX, u32::MAX)));
    assert!(at(0, 7).coincides(&at(0, 1)));
}

#[test]
fn two_stop_ramp() {
    let a = rgb(10, 20, 31);
    let b = rgb(200, 101, 32);
    let p = palette(&[(0, 1, a), (1, 1, b)]);
    assert_eq!(p.color_at(at(0, 1)), Ok(a));
    assert_eq!(p.color_at(at(1, 1)), Ok(b));
    // 105, 60.5 and 31.5: a half goes down
    assert_eq!(p.color_at(at(1, 2)), Ok(rgb(105, 60, 31)));
}

#[test]
fn below_the_first_stop_the_colour_is_flat() {
    let low = rgb(1, 2, 3);
    let p = palette(&[(2, 5, low), (4, 5, rgb(200, 200, 200))]);
    assert_eq!(p.color_at(at(0, 1)), Ok(low));
    assert_eq!(p.color_at(at(1, 5)), Ok(low));
    assert_eq!(p.color_at(at(399, 1000)), Ok(low));
    assert_eq!(p.color_at(at(2, 5)), Ok(low));
    assert_eq!(p.color_at(at(40, 100)), Ok(low));
}

#[test]
fn above_the_last_stop_the_colour_is_flat() {
    let high = rgb(200, 150, 100);
    let p = palette(&[(2, 5, rgb(1, 2, 3)), (4, 5, high)]);
    assert_eq!(p.color_at(at(4, 5)), Ok(high));
    assert_eq!(p.color_at(at(801, 1000)), Ok(high));
    assert_eq!(p.color_at(at(1, 1)), Ok(high));
}

#[test]
fn four_stop_palette_blends_between_its_neighbours() {
    let dark = rgb(72, 67, 73);
    let p = palette(&[(0, 1, dark), (1, 10, dark), (1, 2, rgb(255, 89, 100)), (1, 1, dark)]);
    assert_eq!(p.color_at(at(3, 10)), Ok(rgb(163, 78, 86)));
}

#[test]
fn an_empty_palette_has_no_colour() {
    let p = Palette::new();
    assert_eq!(p.len(), 0);
    assert_eq!(p.color_at(at(0, 1)), Err(PaletteError::Empty));
    assert_eq!(p.color_at(at(1, 2)), Err(PaletteError::Empty));
}

#[test]
fn a_single_stop_colours_everything() {
    let only = rgb(9, 8, 7);
    let p = palette(&[(1, 2, only)]);
    assert_eq!(p.color_at(at(0, 1)), Ok(only));
    assert_eq!(p.color_at(at(1, 2)), Ok(only));
    assert_eq!(p.color_at(at(1, 1)), Ok(only));
}

#[test]
fn stops_are_kept_in_ascending_order() {
    let c = rgb(0, 0, 0);
    let p = palette(&[(1, 2, c), (1, 1, c), (0, 1, c), (3, 4, c), (1, 10, c)]);
    assert_eq!(p.len(), 5);
    assert_eq!(positions(&p), vec![(0, 1), (1, 10), (1, 2), (3, 4), (1, 1)]);
    assert!(p.stop(5).is_none());
}

#[test]
fn a_stop_at_a_taken_position_is_overwritten() {
    let mut p = palette(&[(0, 1, rgb(1, 1, 1)), (1, 2, rgb(2, 2, 2)), (1, 1, rgb(3, 3, 3))]);
    p.add_stop(at(2, 4), rgb(50, 60, 70));
    assert_eq!(p.len(), 3);
    assert_eq!(positions(&p), vec![(0, 1), (2, 4), (1, 1)]);
    assert_eq!(p.stop(1).map(|s| s.1), Some(rgb(50, 60, 70)));
    assert_eq!(p.color_at(at(1, 2)), Ok(rgb(50, 60, 70)));
    assert_eq!(p.color_at(at(0, 1)), Ok(rgb(1, 1, 1)));
    assert_eq!(p.color_at(at(1, 1)), Ok(rgb(3, 3, 3)));
}

#[test]
fn the_colour_at_a_stop_is_the_colour_of_the_stop() {
    let p = palette(&[
        (0, 1, rgb(5, 6, 7)),
        (1, 3, rgb(100, 0, 255)),
        (2, 3, rgb(0, 255, 100)),
        (1, 1, rgb(7, 6, 5)),
    ]);
    assert_eq!(p.color_at(at(1, 3)), Ok(rgb(100, 0, 255)));
    assert_eq!(p.color_at(at(33, 99)), Ok(rgb(100, 0, 255)));
    assert_eq!(p.color_at(at(2, 3)), Ok(rgb(0, 255, 100)));
}

#[test]
fn channels_round_to_the_nearest_value() {
    let p = palette(&[(0, 1, rgb(0, 10, 255)), (1, 1, rgb(10, 0, 0))]);
    // 2.6, 7.4 and 188.7
    assert_eq!(p.color_at(at(26, 100)), Ok(rgb(3, 7, 189)));
    // 7.5, 2.5 and 63.75
    assert_eq!(p.color_at(at(3, 4)), Ok(rgb(7, 2, 64)));
    // 0.1, 9.9 and 252.45
    assert_eq!(p.color_at(at(1, 100)), Ok(rgb(0, 10, 252)));
}

#[test]
fn the_blend_is_exact_for_large_parts() {
    let p = palette(&[
        (0, u32::MAX, rgb(0, 255, 0)),
        (u32::MAX, u32::MAX, rgb(255, 0, 255)),
    ]);
    assert_eq!(p.color_at(at(u32::MAX - 1, u32::MAX)), Ok(rgb(255, 0, 255)));
    assert_eq!(p.color_at(at(1, u32::MAX)), Ok(rgb(0, 255, 0)));
    // 255 * (2^31 - 1) / (2^32 - 1) lies just below 127.5
    assert_eq!(p.color_at(at(u32::MAX / 2, u32::MAX)), Ok(rgb(127, 128, 127)));
    // 255 * 2^31 / (2^32 - 1) lies just above 127.5
    assert_eq!(p.color_at(at(u32::MAX / 2 + 1, u32::MAX)), Ok(rgb(128, 127, 128)));
}

#[test]
fn a_clone_has_the_same_stops() {
    let p = palette(&[(0, 1, rgb(1, 2, 3)), (1, 2, rgb(4, 5, 6)), (1, 1, rgb(7, 8, 9))]);
    let q = p.clone();
    assert_eq!(q.len(), 3);
    assert_eq!(positions(&q), positions(&p));
    assert_eq!(q.color_at(at(1, 4)), p.color_at(at(1, 4)));
    assert_eq!(q.stop(2).map(|s| s.1), Some(rgb(7, 8, 9)));
}

#[test]
fn gradient_looks_up_the_normalized_velocity() {
    let light = rgb(229, 208, 204);
    let p = palette(&[(0, 1, light), (15, 100, light), (1, 1, rgb(23, 33, 33))]);
    assert_eq!(gradient(0, ITERMAX, &p), Ok(light));
    assert_eq!(gradient(15, ITERMAX, &p), Ok(light));
    assert_eq!(gradient(100, ITERMAX, &p), Ok(rgb(23, 33, 33)));
    // t = 7/17: 144.18, 135.94 and 133.59
    assert_eq!(gradient(50, ITERMAX, &p), Ok(rgb(144, 136, 134)));
    assert_eq!(gradient(1, 2, &p), Ok(rgb(144, 136, 134)));
}

#[test]
fn gradient_rejects_a_velocity_above_the_cap() {
    let p = palette(&[(0, 1, rgb(1, 2, 3))]);
    assert_eq!(gradient(101, ITERMAX, &p), Err(PaletteError::NotNormalized));
    assert_eq!(gradient(0, 0, &p), Err(PaletteError::NotNormalized));
    assert_eq!(gradient(1, 0, &Palette::new()), Err(PaletteError::NotNormalized));
}

#[test]
fn gradient_needs_a_stop() {
    assert_eq!(gradient(50, ITERMAX, &Palette::new()), Err(PaletteError::Empty));
}
