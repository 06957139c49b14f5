use fractal::{PixelCoordinate, RenderingContext};

fn viewport(x_px: u32, y_px: u32) -> RenderingContext {
    RenderingContext { x: 0, y: 0, scale: 4, unit: 1, max_iter: 50, x_px, y_px }
}

fn flat(ctx: &RenderingContext) -> Vec<PixelCoordinate> {
    let mut it = ctx.enumerate_points();
    let mut out = Vec::new();
    while let Some(p) = it.next() {
        out.push(p);
    }
    out
}

#[test]
fn flat_enumeration_visits_each_pixel_once() {
    let ctx = viewport(5, 3);
    let pts = flat(&ctx);
    assert_eq!(pts.len(), 15);
    let mut seen = vec![false; 15];
    for p in &pts {
        let k = (p.py * 5 + p.px) as usize;
        assert!(!seen[k]);
        seen[k] = true;
    }
    assert!(seen.iter().all(|s| *s));
    assert_eq!((pts[0].px, pts[0].py), (0, 0));
    assert_eq!((pts[1].px, pts[1].py), (1, 0));
    assert_eq!((pts[5].px, pts[5].py), (0, 1));
}

#[test]
fn enumeration_restarts_after_the_end() {
    let ctx = viewport(2, 2);
    let mut it = ctx.enumerate_points();
    for _ in 0..4 {
        assert!(it.next().is_some());
    }
    assert!(it.next().is_none());
    let again = it.next().unwrap();
    assert_eq!((again.px, again.py), (0, 0));
}

#[test]
fn plane_coordinates_are_centered() {
    // x_offset = 0 - 4/2 = -2; plane_x(px) = 4 * px / 4 - 2; den = 2 * 4 * 1.
    let ctx = viewport(4, 4);
    let pts = flat(&ctx);
    let first = pts[0];
    assert_eq!(first.den, 8);
    assert_eq!(first.x_num, -16);
    assert_eq!(first.y_num, -16);
    // plane_x(x_px - 1) = x_offset + x_scale * 3 / 4 = 1.
    let last = pts[3];
    assert_eq!(last.x_num, 8);
    assert_eq!(last.px, 3);
}

#[test]
fn non_square_grid_keeps_aspect_ratio() {
    // y_scale = 4 * 2 / 4 = 2, so y_offset = -1.
    let ctx = viewport(4, 2);
    let p = ctx.coordinate_of(0, 0);
    assert_eq!(p.y_num * 1, -1 * p.den);
    let q = ctx.coordinate_of(0, 1);
    assert_eq!(q.y_num, 0);
}

#[test]
fn rows_yield_the_flat_sequence() {
    let ctx = RenderingContext { x: 3, y: -7, scale: 9, unit: 2, max_iter: 10, x_px: 3, y_px: 4 };
    let pts = flat(&ctx);
    let mut rows = ctx.enumerate_rows();
    let mut grouped = Vec::new();
    let mut expected_row = 0;
    while let Some((mut row, y)) = rows.next() {
        assert_eq!(y, expected_row);
        expected_row += 1;
        while let Some(p) = row.next() {
            grouped.push(p);
        }
    }
    assert_eq!(expected_row, 4);
    assert_eq!(grouped, pts);
    assert!(rows.next().is_some());
}
