use mandelbrot::escape::{diverge, ITERMAX};
use mandelbrot::field::{velocity_field, velocity_row};
use mandelbrot::fraction::Fraction;
use mandelbrot::grid::{Grid, Sample};
use num_complex::Complex64;
use rayon::iter::{IntoParallelIterator, ParallelIterator};

fn to_float(f: Fraction) -> f64 {
    (f.numer() as f64) / (f.denom() as f64)
}

fn place(s: Sample) -> Complex64 {
    Complex64::new(to_float(s.re), to_float(s.im))
}

fn step(z: Complex64, c: Complex64) -> Complex64 {
    z * z + c
}

fn inside(z: Complex64) -> bool {
    z.norm() < 2.0
}

fn grid(width: u32, height: u32, numer: i64, denom: i64) -> Grid {
    Grid::new(width, height, Fraction::new(numer, denom).unwrap()).unwrap()
}

#[test]
fn three_by_three_round_trip() {
    let g = grid(3, 3, 2, 1);
    let field = velocity_field(&g, &place, step, inside, ITERMAX);
    assert_eq!(field.len(), 3);
    assert_eq!(field[1][1], ITERMAX);
    assert!(field[0][0] < 5);
    assert_eq!(field, vec![vec![0, 0, 0], vec![0, 100, 0], vec![0, 0, 0]]);
}

#[test]
fn the_field_has_one_row_per_pixel_row() {
    let g = grid(7, 4, 112, 100);
    let field = velocity_field(&g, &place, step, inside, ITERMAX);
    assert_eq!(field.len(), 4);
    for row in &field {
        assert_eq!(row.len(), 7);
        for v in row {
            assert!(*v <= ITERMAX);
        }
    }
}

#[test]
fn each_cell_is_the_velocity_of_its_sample() {
    let g = grid(9, 5, 112, 100);
    let field = velocity_field(&g, &place, step, inside, ITERMAX);
    let mut y = 0;
    while y < 5 {
        let mut x = 0;
        while x < 9 {
            let expected = diverge(place(g.sample(x, y)), step, inside, ITERMAX);
            assert_eq!(field[y as usize][x as usize], expected);
            x += 1;
        }
        y += 1;
    }
}

#[test]
fn a_row_is_the_row_of_the_field() {
    let g = grid(11, 6, 112, 100);
    let field = velocity_field(&g, &place, step, inside, ITERMAX);
    let mut y = 0;
    while y < 6 {
        assert_eq!(velocity_row(&g, y, &place, step, inside, ITERMAX), field[y as usize]);
        y += 1;
    }
}

#[test]
fn a_row_through_the_set_reaches_the_cap() {
    // the middle row of a 5 by 5 grid on [-2, 2]: -2, -1, 0, 1, 2
    let g = grid(5, 5, 2, 1);
    let row = velocity_row(&g, 2, &place, step, inside, ITERMAX);
    assert_eq!(row, vec![0, 100, 100, 1, 0]);
}

#[test]
fn parallel_rows_equal_the_sequential_field() {
    let g = grid(48, 27, 112, 100);
    let sequential = velocity_field(&g, &place, step, inside, ITERMAX);
    let parallel: Vec<Vec<u32>> = (0..g.height())
        .into_par_iter()
        .map(|y| velocity_row(&g, y, &place, step, inside, ITERMAX))
        .collect();
    assert_eq!(parallel, sequential);
}

#[test]
fn the_field_honours_a_small_cap() {
    let g = grid(3, 3, 2, 1);
    let field = velocity_field(&g, &place, step, inside, 6);
    assert_eq!(field, vec![vec![0, 0, 0], vec![0, 6, 0], vec![0, 0, 0]]);
}
