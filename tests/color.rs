use fractal::{Color, ColorScheme, ColorSchemeColor, Fraction, POSITION_ONE};

fn black_white() -> ColorScheme {
    let mut cs = ColorScheme::new();
    cs.add_hex(0x000000, 0);
    cs.add_hex(0xffffff, POSITION_ONE);
    cs
}

#[test]
fn from_hex_splits_channels() {
    let c = ColorSchemeColor::from_hex(0xbb2200, 7);
    assert_eq!(c.color, Color { r: 0xbb, g: 0x22, b: 0x00 });
    assert_eq!(c.position, 7);
}

#[test]
fn half_way_blend_is_truncated() {
    let cs = black_white();
    let c = cs.get_color(Fraction { num: 1, den: 2 });
    assert_eq!(c, Color { r: 127, g: 127, b: 127 });
}

#[test]
fn lookup_at_stop_gives_stop_color() {
    let mut cs = ColorScheme::new();
    cs.add_hex(0x000000, 0);
    cs.add_hex(0xbb2200, POSITION_ONE / 5 * 4);
    cs.add_hex(0xff7700, POSITION_ONE);
    let at = |p: u32| cs.get_color(Fraction { num: p as u64, den: POSITION_ONE as u64 });
    assert_eq!(at(0), Color { r: 0, g: 0, b: 0 });
    assert_eq!(at(POSITION_ONE / 5 * 4), Color { r: 0xbb, g: 0x22, b: 0 });
    assert_eq!(at(POSITION_ONE), Color { r: 0xff, g: 0x77, b: 0 });
}

#[test]
fn stops_are_kept_sorted() {
    let mut cs = ColorScheme::new();
    cs.add_hex(0xffffff, POSITION_ONE);
    cs.add_hex(0x000000, 0);
    cs.add_hex(0x808080, POSITION_ONE / 2);
    assert_eq!(cs.get_color(Fraction { num: 0, den: 1 }), Color { r: 0, g: 0, b: 0 });
    assert_eq!(cs.get_color(Fraction { num: 1, den: 2 }), Color { r: 0x80, g: 0x80, b: 0x80 });
    assert_eq!(cs.get_color(Fraction { num: 1, den: 1 }), Color { r: 0xff, g: 0xff, b: 0xff });
}

#[test]
fn channels_rise_between_adjacent_stops() {
    let cs = black_white();
    let mut last = 0u8;
    for n in 0..=16u64 {
        let c = cs.get_color(Fraction { num: n, den: 16 });
        assert!(c.r >= last);
        assert_eq!(c.r, c.g);
        last = c.r;
    }
    assert_eq!(last, 255);
}

#[test]
fn position_beyond_last_stop_saturates() {
    let cs = black_white();
    assert_eq!(cs.get_color(Fraction { num: 3, den: 2 }), Color { r: 255, g: 255, b: 255 });
    let mut high = ColorScheme::new();
    high.add_hex(0x102030, POSITION_ONE / 2);
    assert_eq!(high.get_color(Fraction { num: 0, den: 1 }), Color { r: 0x10, g: 0x20, b: 0x30 });
}

#[test]
fn quarter_blend_exact_value() {
    // From white at 1 toward black at 0: a quarter of the way is 255 * 1/4.
    let cs = black_white();
    assert_eq!(cs.get_color(Fraction { num: 1, den: 4 }).r, 63);
    assert_eq!(cs.get_color(Fraction { num: 3, den: 4 }).r, 191);
}

#[test]
fn rgb_bytes_lays_out_triples() {
    let colors = vec![Color { r: 1, g: 2, b: 3 }, Color { r: 250, g: 0, b: 7 }];
    assert_eq!(fractal::rgb_bytes(&colors), vec![1, 2, 3, 250, 0, 7]);
    assert!(fractal::rgb_bytes(&Vec::new()).is_empty());
}

#[test]
fn equal_positions_keep_insertion_order() {
    let mut cs = ColorScheme::new();
    cs.add_hex(0x000000, 0);
    cs.add_hex(0xffffff, 0);
    cs.add_hex(0xff0000, POSITION_ONE);
    // The stop added first at position 0 stays first, so it answers there.
    assert_eq!(cs.get_color(Fraction { num: 0, den: 1 }), Color { r: 0, g: 0, b: 0 });
    assert_eq!(cs.len(), 3);
}
