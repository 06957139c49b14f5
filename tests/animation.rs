use fractal::{
    accumulate_contrast, color_equalized, color_frame, compute_grid, empty_histogram, grid_difference,
    highest_interval, merge_histograms, midpoint_time, render_vfr, sort_by_time, Color, ColorScheme, Frame,
    Interval, PixelCoordinate, RenderingContext, POSITION_ONE, QUARTER,
};

fn small() -> RenderingContext {
    RenderingContext { x: 0, y: 0, scale: 4, unit: 1, max_iter: 50, x_px: 3, y_px: 2 }
}

#[test]
fn wrap_around_midpoint() {
    assert_eq!(midpoint_time(3 * QUARTER, 0), 0xe000_0000_0000_0000);
    assert_eq!(midpoint_time(QUARTER, 2 * QUARTER), 0x6000_0000_0000_0000);
    assert_eq!(midpoint_time(0, QUARTER), 0x2000_0000_0000_0000);
}

#[test]
fn difference_is_symmetric_and_zero_on_equal_grids() {
    let a = vec![1u64, 5, 9, 0];
    let b = vec![4u64, 5, 2, 7];
    assert_eq!(grid_difference(&a, &b), 17);
    assert_eq!(grid_difference(&b, &a), 17);
    assert_eq!(grid_difference(&a, &a), 0);
    let fa = Frame { t: 0, grid: a };
    let fb = Frame { t: 1, grid: b };
    assert_eq!(fa.difference(&fb), fb.difference(&fa));
}

#[test]
fn budget_of_frames_is_met_and_sorted() {
    let ctx = small();
    let eval = |p: PixelCoordinate, t: u64| ((t >> 58) + p.px as u64) % 51;
    for n in [1u32, 4, 5, 9, 17] {
        let frames = render_vfr(ctx, n, &eval);
        assert_eq!(frames.len(), std::cmp::max(n, 4) as usize);
        assert!(frames.windows(2).all(|w| w[0].t <= w[1].t));
        for f in &frames {
            assert_eq!(f.grid.len(), 6);
        }
    }
}

#[test]
fn first_split_goes_to_the_busiest_interval() {
    let ctx = small();
    // Only the last quarter of the turn changes the picture.
    let eval = |_p: PixelCoordinate, t: u64| if t >= 3 * QUARTER { 40 } else { 0 };
    let frames = render_vfr(ctx, 5, &eval);
    let times: Vec<u64> = frames.iter().map(|f| f.t).collect();
    assert_eq!(times, vec![0, QUARTER, 2 * QUARTER, 0xa000_0000_0000_0000, 3 * QUARTER]);
}

#[test]
fn highest_interval_picks_largest_score() {
    let q = vec![
        Interval { a: 0, b: 1, difference: 3 },
        Interval { a: 1, b: 2, difference: 9 },
        Interval { a: 2, b: 0, difference: 9 },
    ];
    assert_eq!(highest_interval(&q), 1);
}

#[test]
fn sorting_orders_by_time() {
    let frames = vec![
        Frame { t: 9, grid: vec![1] },
        Frame { t: 2, grid: vec![2] },
        Frame { t: 5, grid: vec![3] },
    ];
    let sorted = sort_by_time(frames);
    let ts: Vec<u64> = sorted.iter().map(|f| f.t).collect();
    assert_eq!(ts, vec![2, 5, 9]);
    assert_eq!(sorted[0].grid, vec![2]);
}

#[test]
fn contrast_weights_neighbour_differences() {
    let ctx = RenderingContext { x: 0, y: 0, scale: 4, unit: 1, max_iter: 9, x_px: 2, y_px: 2 };
    let grid = vec![1u64, 3, 3, 9];
    let mut h = empty_histogram(9);
    accumulate_contrast(&ctx, &grid, &mut h);
    // Pixel 0 (count 1): |1-3| + |1-3| + |1-9| = 12.
    // Pixels 1 and 2 (count 3): |3-1| + |3-3| + |3-9| = 8 each.
    assert_eq!(h[1], 12);
    assert_eq!(h[3], 16);
    assert_eq!(h.iter().sum::<u64>(), 28);
    let c = merge_histograms(&vec![h], 9);
    assert_eq!(c[8], 28);
    let mut cs = ColorScheme::new();
    cs.add_hex(0x000000, 0);
    cs.add_hex(0xffffff, POSITION_ONE);
    let colors = color_frame(&cs, &grid, &c, 9);
    assert_eq!(colors[3], Color { r: 0, g: 0, b: 0 });
    assert_eq!(colors[1], Color { r: 255, g: 255, b: 255 });
    assert_eq!(colors[0].r, (255u64 * 12 / 28) as u8);
}

#[test]
fn flat_frames_use_the_first_stop() {
    let mut cs = ColorScheme::new();
    cs.add_hex(0x112233, 0);
    cs.add_hex(0xffffff, POSITION_ONE);
    let grid = vec![2u64, 2];
    let c = vec![0u64, 0, 0];
    let colors = color_frame(&cs, &grid, &c, 3);
    assert_eq!(colors[0], Color { r: 0x11, g: 0x22, b: 0x33 });
}

#[test]
fn compute_grid_is_row_major() {
    let ctx = small();
    let g = compute_grid(ctx, &|p: PixelCoordinate, t: u64| (p.px + 10 * p.py) as u64 + t, 1);
    assert_eq!(g, vec![1, 2, 3, 11, 12, 13]);
}

#[test]
fn color_equalized_uses_the_frame_histogram() {
    let mut cs = ColorScheme::new();
    cs.add_hex(0x000000, 0);
    cs.add_hex(0xffffff, POSITION_ONE);
    // Counts at most 0: 1 of 4 pixels; at most 1: 3 of 4.
    let colors = color_equalized(&cs, &vec![0, 1, 1, 2], 2);
    assert_eq!(colors[0].r, 63);
    assert_eq!(colors[1].r, 191);
    assert_eq!(colors[2].r, 191);
    assert_eq!(colors[3], Color { r: 0, g: 0, b: 0 });
}

#[test]
fn adaptive_times_strictly_increase() {
    let ctx = small();
    let eval = |p: PixelCoordinate, t: u64| ((t >> 60) * 3 + p.py as u64) % 51;
    let frames = render_vfr(ctx, 40, &eval);
    assert_eq!(frames.len(), 40);
    assert!(frames.windows(2).all(|w| w[0].t < w[1].t));
    assert_eq!(frames[0].t, 0);
}

#[test]
fn sorting_keeps_duplicates() {
    let frames = vec![
        Frame { t: 4, grid: vec![1] },
        Frame { t: 1, grid: vec![2] },
        Frame { t: 4, grid: vec![1] },
    ];
    let sorted = sort_by_time(frames);
    let ts: Vec<u64> = sorted.iter().map(|f| f.t).collect();
    assert_eq!(ts, vec![1, 4, 4]);
    assert_eq!(sorted[1].grid, vec![1]);
    assert_eq!(sorted[2].grid, vec![1]);
}

#[test]
fn uniform_animation_shares_one_distribution() {
    let ctx = RenderingContext { x: 0, y: 0, scale: 4, unit: 1, max_iter: 9, x_px: 3, y_px: 2 };
    let mut cs = ColorScheme::new();
    cs.add_hex(0x000000, 0);
    cs.add_hex(0xff8000, POSITION_ONE);
    let eval = |p: PixelCoordinate, t: u64| (p.px as u64 * 2 + p.py as u64 + t) % 10;
    let (grids, colors) = fractal::render_animation(ctx, &cs, 3, &eval);
    assert_eq!(grids.len(), 3);
    assert_eq!(colors.len(), 3);
    let mut h = empty_histogram(9);
    for (f, g) in grids.iter().enumerate() {
        assert_eq!(*g, compute_grid(ctx, &eval, f as u64));
        accumulate_contrast(&ctx, g, &mut h);
    }
    let c = merge_histograms(&vec![h], 9);
    for (g, col) in grids.iter().zip(colors.iter()) {
        assert_eq!(*col, color_frame(&cs, g, &c, 9));
    }
    // Frame 0 holds 0 2 4 / 1 3 5; frame 2 holds 2 4 6 / 3 5 7.
    assert_eq!(grids[0], vec![0, 2, 4, 1, 3, 5]);
    assert_eq!(grids[2], vec![2, 4, 6, 3, 5, 7]);
}

#[test]
fn one_step_splits_the_highest_interval() {
    let ctx = small();
    let eval = |p: PixelCoordinate, t: u64| if t == 2 * QUARTER { p.px as u64 } else { 0 };
    let mut frames = Vec::new();
    for k in 0..4u64 {
        frames.push(fractal::render_frame(ctx, &eval, k * QUARTER));
    }
    let mut queue = vec![
        Interval::new(&frames, 0, 1),
        Interval::new(&frames, 1, 2),
        Interval::new(&frames, 2, 3),
        Interval::new(&frames, 3, 0),
    ];
    // Frame 2 holds 0 1 2 / 0 1 2, so intervals (1, 2) and (2, 3) both score 6.
    assert_eq!(queue[1].difference, 6);
    assert_eq!(queue[2].difference, 6);
    let idx = fractal::subdivide_highest(ctx, &eval, &mut frames, &mut queue);
    assert_eq!(idx, 1);
    assert_eq!(frames.len(), 5);
    assert_eq!(frames[4].t, 0x6000_0000_0000_0000);
    assert_eq!(queue.len(), 5);
    assert_eq!(queue[3], Interval { a: 1, b: 4, difference: 0 });
    assert_eq!(queue[4], Interval { a: 4, b: 2, difference: 6 });
}
