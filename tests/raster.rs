use fractal::{
    accumulate_row, color_grid, compute_row, empty_histogram, merge_histograms, render_image, Color,
    ColorScheme, Fraction, PixelCoordinate, RenderingContext, POSITION_ONE,
};

fn black_white() -> ColorScheme {
    let mut cs = ColorScheme::new();
    cs.add_hex(0x000000, 0);
    cs.add_hex(0xffffff, POSITION_ONE);
    cs
}

#[test]
fn interior_everywhere_gives_black_image() {
    let ctx = RenderingContext { x: 0, y: 0, scale: 4, unit: 1, max_iter: 50, x_px: 4, y_px: 4 };
    let cs = black_white();
    let (grid, colors) = render_image(ctx, &cs, &|_p: PixelCoordinate| 50u64);
    assert_eq!(grid, vec![50; 16]);
    assert_eq!(colors.len(), 16);
    assert!(colors.iter().all(|c| *c == Color { r: 0, g: 0, b: 0 }));
}

#[test]
fn half_interior_half_escaping_at_one() {
    // The equalized position is cumulative[count] over all pixels, interior
    // ones included: 2 of 4 pixels have a count of at most 1, so 1/2.
    let ctx = RenderingContext { x: 0, y: 0, scale: 4, unit: 1, max_iter: 2, x_px: 2, y_px: 2 };
    let cs = black_white();
    let eval = |p: PixelCoordinate| if p.px == 0 { 1u64 } else { 2u64 };
    let (grid, colors) = render_image(ctx, &cs, &eval);
    assert_eq!(grid, vec![1, 2, 1, 2]);
    let gray = Color { r: 127, g: 127, b: 127 };
    let black = Color { r: 0, g: 0, b: 0 };
    assert_eq!(colors, vec![gray, black, gray, black]);
    assert_eq!(cs.get_color(Fraction { num: 2, den: 4 }), gray);
}

#[test]
fn single_escaping_bucket_is_white() {
    let ctx = RenderingContext { x: 0, y: 0, scale: 4, unit: 1, max_iter: 2, x_px: 2, y_px: 2 };
    let cs = black_white();
    let (_, colors) = render_image(ctx, &cs, &|_p: PixelCoordinate| 1u64);
    let white = Color { r: 255, g: 255, b: 255 };
    assert_eq!(colors, vec![white; 4]);
    assert_eq!(cs.get_color(Fraction { num: 1, den: 1 }), white);
}

#[test]
fn cumulative_histogram_counts_escaping_pixels() {
    let mut h = empty_histogram(4);
    accumulate_row(&mut h, &vec![0, 1, 1, 3, 4, 4], 4);
    assert_eq!(h, vec![1, 2, 0, 1]);
    let c = merge_histograms(&vec![h], 4);
    assert_eq!(c, vec![1, 3, 3, 4]);
    assert!(c.windows(2).all(|w| w[0] <= w[1]));
}

#[test]
fn merge_does_not_depend_on_the_split() {
    let rows = vec![vec![0u64, 1, 3], vec![2, 2, 3], vec![1, 0, 0], vec![3, 3, 1]];
    let mut one = empty_histogram(3);
    for r in &rows {
        accumulate_row(&mut one, r, 3);
    }
    let mut a = empty_histogram(3);
    let mut b = empty_histogram(3);
    accumulate_row(&mut a, &rows[0], 3);
    accumulate_row(&mut b, &rows[1], 3);
    accumulate_row(&mut b, &rows[2], 3);
    accumulate_row(&mut a, &rows[3], 3);
    let single = merge_histograms(&vec![one], 3);
    let split = merge_histograms(&vec![a, b], 3);
    assert_eq!(single, split);
    assert_eq!(single, vec![3, 6, 8]);
}

#[test]
fn equalized_colors_follow_the_distribution() {
    let cs = black_white();
    let grid = vec![0u64, 1, 1, 2];
    let cumulative = vec![1u64, 3];
    let colors = color_grid(&cs, &grid, &cumulative, 4, 2);
    assert_eq!(colors[0], Color { r: 63, g: 63, b: 63 });
    assert_eq!(colors[1], Color { r: 191, g: 191, b: 191 });
    assert_eq!(colors[3], Color { r: 0, g: 0, b: 0 });
}

#[test]
fn rendering_twice_is_identical() {
    let ctx = RenderingContext { x: -1, y: 0, scale: 3, unit: 1, max_iter: 20, x_px: 8, y_px: 6 };
    let mut cs = ColorScheme::new();
    cs.add_hex(0x000764, 0);
    cs.add_hex(0x206bcb, POSITION_ONE / 4);
    cs.add_hex(0xffaa00, POSITION_ONE);
    let eval = |p: PixelCoordinate| ((p.px * 3 + p.py * 5) % 21) as u64;
    let first = render_image(ctx, &cs, &eval);
    let second = render_image(ctx, &cs, &eval);
    assert_eq!(first, second);
}

#[test]
fn compute_row_runs_the_evaluator_on_each_pixel() {
    let ctx = RenderingContext { x: 0, y: 0, scale: 4, unit: 1, max_iter: 9, x_px: 3, y_px: 2 };
    let mut rows = ctx.enumerate_rows();
    let _ = rows.next();
    let (row, y) = rows.next().unwrap();
    assert_eq!(y, 1);
    let line = compute_row(row, &|p: PixelCoordinate| (p.px + 3 * p.py) as u64);
    assert_eq!(line, vec![3, 4, 5]);
}
