//! Color schemes: ordered color stops on `[0, 1]` and the linear blend
//! between adjacent stops.
//!
//! Stop positions are fixed-point, in units of `1 / POSITION_ONE`; a queried
//! position is an exact fraction `num / den`.
use vstd::prelude::*;

verus! {

/// The fixed-point value of position `1.0`.
pub const POSITION_ONE: u32 = 0x100_0000;

/// A 24-bit RGB color.
#[derive(Clone, Copy, Debug, PartialEq, Eq, Structural)]
pub struct Color {
    pub r: u8,
    pub g: u8,
    pub b: u8,
}

impl Color {
    /// Black, the background color of interior points.
    pub open spec fn black_spec() -> Color {
        Color { r: 0, g: 0, b: 0 }
    }

    /// Black, the background color of interior points.
    pub fn black() -> (r: Color)
        ensures
            r == Color::black_spec(),
    {
        Color { r: 0, g: 0, b: 0 }
    }
}

/// The position `num / den` on the gradient.
#[derive(Clone, Copy, Debug, PartialEq, Eq, Structural)]
pub struct Fraction {
    pub num: u64,
    pub den: u64,
}

/// A color stop: `color` at position `position / POSITION_ONE`.
#[derive(Clone, Copy, Debug, PartialEq, Eq, Structural)]
pub struct ColorSchemeColor {
    pub color: Color,
    pub position: u32,
}

/// The color of a 24-bit `0xRRGGBB` value.
pub open spec fn hex_color(hex: u32) -> Color {
    Color {
        r: ((hex / 0x1_0000) % 0x100) as u8,
        g: ((hex / 0x100) % 0x100) as u8,
        b: (hex % 0x100) as u8,
    }
}

impl ColorSchemeColor {
    /// The stop with color `0xRRGGBB` at `position / POSITION_ONE`.
    pub fn from_hex(color: u32, position: u32) -> (r: ColorSchemeColor)
        ensures
            r.color == hex_color(color),
            r.position == position,
    {
        assert((color >> 16u32) & 0xffu32 == (color / 0x1_0000) % 0x100) by (bit_vector);
        assert((color >> 8u32) & 0xffu32 == (color / 0x100) % 0x100) by (bit_vector);
        assert(color & 0xffu32 == color % 0x100) by (bit_vector);
        let r = ((color >> 16) & 0xff) as u8;
        let g = ((color >> 8) & 0xff) as u8;
        let b = (color & 0xff) as u8;
        ColorSchemeColor { color: Color { r, g, b }, position }
    }
}

/// The colors as a buffer of 8-bit RGB triples, one after another.
pub fn rgb_bytes(colors: &Vec<Color>) -> (r: Vec<u8>)
    requires
        3 * colors.len() <= usize::MAX,
    ensures
        r.len() == 3 * colors.len(),
        forall|i: int|
            0 <= i < colors.len() ==> r[3 * i] == (#[trigger] colors[i]).r && r[3 * i + 1] == colors[i].g && r[3
                * i + 2] == colors[i].b,
{
    let mut out: Vec<u8> = Vec::new();
    let mut i: usize = 0;
    while i < colors.len()
        invariant
            0 <= i <= colors.len(),
            3 * colors.len() <= usize::MAX,
            out.len() == 3 * i,
            forall|j: int|
                0 <= j < i ==> out[3 * j] == (#[trigger] colors[j]).r && out[3 * j + 1] == colors[j].g && out[3
                    * j + 2] == colors[j].b,
        decreases colors.len() - i,
    {
        let c = colors[i];
        out.push(c.r);
        out.push(c.g);
        out.push(c.b);
        i = i + 1;
    }
    out
}

/// Stop position `p` lies strictly below the queried position `q`.
pub open spec fn below(p: u32, q: Fraction) -> bool {
    p * q.den < q.num * POSITION_ONE
}

/// Index of the first stop at or after `i` whose position is not below `q`
/// (the length when there is none).
pub open spec fn lookup_index(stops: Seq<ColorSchemeColor>, q: Fraction, i: int) -> int
    decreases stops.len() - i,
{
    if 0 <= i < stops.len() && below(stops[i].position, q) {
        lookup_index(stops, q, i + 1)
    } else {
        i
    }
}

/// Index of the first stop at or after `i` whose position lies above `p`:
/// where a new stop at `p` is inserted, after the stops already at its
/// position (a stable insert).
pub open spec fn insert_index(stops: Seq<ColorSchemeColor>, p: u32, i: int) -> int
    decreases stops.len() - i,
{
    if 0 <= i < stops.len() && stops[i].position <= p {
        insert_index(stops, p, i + 1)
    } else {
        i
    }
}

/// The channel `ca * (1 - f) + cb * f` at fraction `f = x / y`, truncated.
pub open spec fn blend(ca: u8, cb: u8, x: int, y: int) -> int {
    (ca * (y - x) + cb * x) / y
}

/// The color at fraction `x / y` of the way from `a` to `b`, each channel
/// truncated.
pub open spec fn blend_color(a: Color, b: Color, x: int, y: int) -> Color {
    Color {
        r: blend(a.r, b.r, x, y) as u8,
        g: blend(a.g, b.g, x, y) as u8,
        b: blend(a.b, b.b, x, y) as u8,
    }
}

/// The color of the scheme with stops `stops` at `q`: the first stop `a` at
/// or above `q` and the stop `b` before it are blended at fraction
/// `(a - q) / (a - b)`. Below the first stop it is the first stop's color;
/// above the last stop, the last stop's color.
pub open spec fn lookup(stops: Seq<ColorSchemeColor>, q: Fraction) -> Color {
    let i = lookup_index(stops, q, 0);
    if i >= stops.len() {
        stops.last().color
    } else if i == 0 {
        stops[0].color
    } else {
        let a = stops[i];
        let b = stops[i - 1];
        blend_color(
            a.color,
            b.color,
            a.position * q.den - q.num * POSITION_ONE,
            (a.position - b.position) * q.den,
        )
    }
}

/// Stops sorted by ascending position.
pub open spec fn sorted(stops: Seq<ColorSchemeColor>) -> bool {
    forall|i: int, j: int| 0 <= i <= j < stops.len() ==> stops[i].position <= stops[j].position
}

/// An ordered list of color stops.
pub struct ColorScheme {
    colors: Vec<ColorSchemeColor>,
}

impl View for ColorScheme {
    type V = Seq<ColorSchemeColor>;

    closed spec fn view(&self) -> Seq<ColorSchemeColor> {
        self.colors@
    }
}

impl ColorScheme {
    /// The stops are sorted by ascending position.
    pub open spec fn wf(&self) -> bool {
        sorted(self@)
    }

    /// A scheme without stops.
    pub fn new() -> (r: ColorScheme)
        ensures
            r.wf(),
            r@ == Seq::<ColorSchemeColor>::empty(),
    {
        ColorScheme { colors: Vec::new() }
    }

    /// The number of stops.
    pub fn len(&self) -> (r: usize)
        ensures
            r == self@.len(),
    {
        self.colors.len()
    }

    /// Inserts a stop ahead of the first stop whose position lies above its
    /// own: after every stop at or below its position, which keeps the stops
    /// sorted and stops of equal position in the order they were added.
    pub fn add_color(&mut self, color: ColorSchemeColor)
        requires
            old(self).wf(),
        ensures
            final(self).wf(),
            final(self)@ == old(self)@.insert(insert_index(old(self)@, color.position, 0), color),
            0 <= insert_index(old(self)@, color.position, 0) <= old(self)@.len(),
    {
        let ghost s = self.colors@;
        let mut i: usize = 0;
        while i < self.colors.len() && self.colors[i].position <= color.position
            invariant
                self.colors@ == s,
                0 <= i <= s.len(),
                insert_index(s, color.position, 0) == insert_index(s, color.position, i as int),
                forall|j: int| 0 <= j < i ==> s[j].position <= color.position,
            decreases s.len() - i,
        {
            i = i + 1;
        }
        proof {
            assert(insert_index(s, color.position, i as int) == i as int);
        }
        self.colors.insert(i, color);
        proof {
            let t = self.colors@;
            assert forall|a: int, b: int| 0 <= a <= b < t.len() implies t[a].position <= t[b].position by {
                if i < s.len() {
                    assert(s[i as int].position > color.position);
                }
            }
        }
    }

    /// Inserts the stop with color `0xRRGGBB` at `position / POSITION_ONE`.
    pub fn add_hex(&mut self, color: u32, position: u32)
        requires
            old(self).wf(),
        ensures
            final(self).wf(),
            final(self)@ == old(self)@.insert(
                insert_index(old(self)@, position, 0),
                ColorSchemeColor { color: hex_color(color), position },
            ),
            0 <= insert_index(old(self)@, position, 0) <= old(self)@.len(),
    {
        let c = ColorSchemeColor::from_hex(color, position);
        self.add_color(c);
    }

    /// The channel `a * (1 - x / y) + b * (x / y)`, truncated.
    fn lerp_channel(a: u8, b: u8, x: u128, y: u128) -> (r: u8)
        requires
            0 <= x <= y,
            0 < y < 0x1_0000_0000_0000_0000_0000_0000_0000,
        ensures
            r == blend(a, b, x as int, y as int),
    {
        proof { lemma_blend_bounds(a, b, x as int, y as int); }
        ((a as u128 * (y - x) + b as u128 * x) / y) as u8
    }

    /// The color `a * (1 - x / y) + b * (x / y)`, each channel truncated.
    fn lerp(a: &Color, b: &Color, x: u128, y: u128) -> (r: Color)
        requires
            0 <= x <= y,
            0 < y < 0x1_0000_0000_0000_0000_0000_0000_0000,
        ensures
            r == blend_color(*a, *b, x as int, y as int),
    {
        let r = ColorScheme::lerp_channel(a.r, b.r, x, y);
        let g = ColorScheme::lerp_channel(a.g, b.g, x, y);
        let bl = ColorScheme::lerp_channel(a.b, b.b, x, y);
        Color { r, g, b: bl }
    }

    /// The color at position `pos` (see `lookup`).
    pub fn get_color(&self, pos: Fraction) -> (r: Color)
        requires
            self.wf(),
            self@.len() > 0,
            pos.den > 0,
        ensures
            r == lookup(self@, pos),
    {
        let ghost s = self@;
        let n = self.colors.len();
        let num = pos.num as u128;
        let den = pos.den as u128;
        let one = POSITION_ONE as u128;
        let mut i: usize = 0;
        while i < n && below_exec(self.colors[i].position, pos)
            invariant
                s == self.colors@,
                n == s.len(),
                0 <= i <= n,
                num == pos.num,
                den == pos.den,
                one == POSITION_ONE,
                lookup_index(s, pos, 0) == lookup_index(s, pos, i as int),
                forall|j: int| 0 <= j < i ==> below(#[trigger] s[j].position, pos),
            decreases n - i,
        {
            i = i + 1;
        }
        if i < n {
            proof {
                lemma_product_bounds(self.colors[i as int].position as int, den as int, num as int);
            }
        }
        proof {
            assert(lookup_index(s, pos, i as int) == i as int);
        }
        if i == n {
            return self.colors[n - 1].color;
        }
        if i == 0 {
            return self.colors[0].color;
        }
        let a = &self.colors[i];
        let b = &self.colors[i - 1];
        let pa = a.position as u128;
        let pb = b.position as u128;
        proof {
            assert(s[i - 1].position <= s[i as int].position);
            lemma_product_bounds(pb as int, den as int, num as int);
            lemma_fraction_between(pa as int, pb as int, den as int, num as int * one as int);
        }
        let x = pa * den - num * one;
        let y = (pa - pb) * den;
        ColorScheme::lerp(&a.color, &b.color, x, y)
    }
}

/// Looking a stop's own position up gives exactly that stop's color (the
/// blend fraction is zero), for a stop that no earlier stop shares its
/// position with.
pub proof fn lemma_lookup_at_stop(stops: Seq<ColorSchemeColor>, k: int)
    requires
        sorted(stops),
        0 <= k < stops.len(),
        forall|j: int| 0 <= j < k ==> stops[j].position < stops[k].position,
    ensures
        lookup(stops, Fraction { num: stops[k].position as u64, den: POSITION_ONE as u64 })
            == stops[k].color,
{
    let q = Fraction { num: stops[k].position as u64, den: POSITION_ONE as u64 };
    assert forall|j: int| 0 <= j < stops.len() implies below(#[trigger] stops[j].position, q)
        == (stops[j].position < stops[k].position) by {
        let pj = stops[j].position as int;
        let pk = stops[k].position as int;
        assert((pj * POSITION_ONE < pk * POSITION_ONE) == (pj < pk)) by (nonlinear_arith);
    }
    lemma_lookup_index_stops_at(stops, q, 0, k);
    if k > 0 {
        let a = stops[k];
        let b = stops[k - 1];
        let y = (a.position - b.position) * q.den;
        assert(a.position * q.den - q.num * POSITION_ONE == 0);
        assert(y > 0) by (nonlinear_arith)
            requires y == (a.position - b.position) * q.den, a.position > b.position, q.den > 0;
        assert forall|cb: u8, ca: u8| #[trigger] blend(ca, cb, 0, y) == ca by {
            vstd::arithmetic::div_mod::lemma_div_multiples_vanish(ca as int, y);
            assert(ca * (y - 0) + cb * 0 == y * ca) by (nonlinear_arith);
        }
    }
}

/// Between two adjacent stops each channel moves monotonically: for queries
/// `q1 <= q2` that both lie above stop `i - 1` and at or below stop `i`, a
/// channel rises toward stop `i` where stop `i` holds the higher value, and
/// falls where it holds the lower one.
pub proof fn lemma_lookup_monotone_between_stops(stops: Seq<ColorSchemeColor>, q1: Fraction, q2: Fraction, i: int)
    requires
        sorted(stops),
        0 < i < stops.len(),
        q1.den > 0,
        q2.den > 0,
        q1.num * q2.den <= q2.num * q1.den,
        below(stops[i - 1].position, q1),
        !below(stops[i].position, q2),
    ensures
        ({
            let a = stops[i].color;
            let b = stops[i - 1].color;
            let c1 = lookup(stops, q1);
            let c2 = lookup(stops, q2);
            &&& a.r >= b.r ==> c1.r <= c2.r
            &&& a.r <= b.r ==> c1.r >= c2.r
            &&& a.g >= b.g ==> c1.g <= c2.g
            &&& a.g <= b.g ==> c1.g >= c2.g
            &&& a.b >= b.b ==> c1.b <= c2.b
            &&& a.b <= b.b ==> c1.b >= c2.b
        }),
{
    let pa = stops[i].position as int;
    let pb = stops[i - 1].position as int;
    let o = POSITION_ONE as int;
    let (n1, d1, n2, d2) = (q1.num as int, q1.den as int, q2.num as int, q2.den as int);
    // Both queries select stop `i`.
    assert forall|j: int| 0 <= j < i implies below(#[trigger] stops[j].position, q1) by {
        assert(stops[j].position <= stops[i - 1].position);
        assert(stops[j].position * d1 <= pb * d1) by (nonlinear_arith)
            requires stops[j].position <= pb, d1 > 0;
    }
    assert forall|j: int| 0 <= j < i implies below(#[trigger] stops[j].position, q2) by {
        assert(stops[j].position <= stops[i - 1].position);
        assert(pb * d1 < n1 * o);
        assert(stops[j].position * d2 < n2 * o) by (nonlinear_arith)
            requires
                stops[j].position <= pb,
                pb * d1 < n1 * o,
                n1 * d2 <= n2 * d1,
                d1 > 0,
                d2 > 0,
                o > 0,
                pb >= 0,
        ;
    }
    assert(!below(stops[i].position, q1)) by {
        assert(pa * d2 >= n2 * o);
        assert(pa * d1 >= n1 * o) by (nonlinear_arith)
            requires pa * d2 >= n2 * o, n1 * d2 <= n2 * d1, d1 > 0, d2 > 0, o > 0;
    }
    lemma_lookup_index_stops_at(stops, q1, 0, i);
    lemma_lookup_index_stops_at(stops, q2, 0, i);
    let x1 = pa * d1 - n1 * o;
    let y1 = (pa - pb) * d1;
    let x2 = pa * d2 - n2 * o;
    let y2 = (pa - pb) * d2;
    lemma_product_bounds(pb as int, d1, n1);
    lemma_product_bounds(pa as int, d1, n1);
    lemma_product_bounds(pb as int, d2, n2);
    lemma_product_bounds(pa as int, d2, n2);
    assert(pb * d2 < n2 * o) by (nonlinear_arith)
        requires pb * d1 < n1 * o, n1 * d2 <= n2 * d1, d1 > 0, d2 > 0, o > 0, pb >= 0;
    lemma_fraction_between(pa, pb, d1, n1 * o);
    lemma_fraction_between(pa, pb, d2, n2 * o);
    let dd = pa - pb;
    vstd::arithmetic::mul::lemma_mul_is_distributive_sub_other_way(dd * d2, pa * d1, n1 * o);
    vstd::arithmetic::mul::lemma_mul_is_distributive_sub_other_way(dd * d1, pa * d2, n2 * o);
    assert((pa * d1) * (dd * d2) == (pa * d2) * (dd * d1)) by (nonlinear_arith);
    assert((n1 * o) * (dd * d2) == (dd * o) * (n1 * d2)) by (nonlinear_arith);
    assert((n2 * o) * (dd * d1) == (dd * o) * (n2 * d1)) by (nonlinear_arith);
    assert(dd * o > 0) by (nonlinear_arith)
        requires dd > 0, o > 0;
    vstd::arithmetic::mul::lemma_mul_inequality(n1 * d2, n2 * d1, dd * o);
    vstd::arithmetic::mul::lemma_mul_is_commutative(n1 * d2, dd * o);
    vstd::arithmetic::mul::lemma_mul_is_commutative(n2 * d1, dd * o);
    assert(x1 * y2 >= x2 * y1);
    let a = stops[i].color;
    let b = stops[i - 1].color;
    lemma_blend_monotone(a.r, b.r, x1, y1, x2, y2);
    lemma_blend_monotone(a.g, b.g, x1, y1, x2, y2);
    lemma_blend_monotone(a.b, b.b, x1, y1, x2, y2);
    lemma_blend_bounds(a.r, b.r, x1, y1);
    lemma_blend_bounds(a.r, b.r, x2, y2);
    lemma_blend_bounds(a.g, b.g, x1, y1);
    lemma_blend_bounds(a.g, b.g, x2, y2);
    lemma_blend_bounds(a.b, b.b, x1, y1);
    lemma_blend_bounds(a.b, b.b, x2, y2);
}

/// A blend moves toward `ca` as its fraction `x / y` shrinks.
proof fn lemma_blend_monotone(ca: u8, cb: u8, x1: int, y1: int, x2: int, y2: int)
    requires
        0 <= x1 <= y1,
        0 <= x2 <= y2,
        y1 > 0,
        y2 > 0,
        x1 * y2 >= x2 * y1,
    ensures
        ca >= cb ==> blend(ca, cb, x1, y1) <= blend(ca, cb, x2, y2),
        ca <= cb ==> blend(ca, cb, x1, y1) >= blend(ca, cb, x2, y2),
{
    let a1 = ca * (y1 - x1) + cb * x1;
    let a2 = ca * (y2 - x2) + cb * x2;
    assert(a1 >= 0 && a2 >= 0) by (nonlinear_arith)
        requires a1 == ca * (y1 - x1) + cb * x1, a2 == ca * (y2 - x2) + cb * x2, 0 <= x1 <= y1, 0 <= x2 <= y2,
            ca >= 0, cb >= 0;
    let e = cb - ca;
    assert(a1 == ca * y1 + e * x1) by (nonlinear_arith)
        requires a1 == ca * (y1 - x1) + cb * x1, e == cb - ca;
    assert(a2 == ca * y2 + e * x2) by (nonlinear_arith)
        requires a2 == ca * (y2 - x2) + cb * x2, e == cb - ca;
    let c12 = ca * (y1 * y2);
    assert(a1 * y2 == c12 + e * (x1 * y2)) by (nonlinear_arith)
        requires a1 == ca * y1 + e * x1, c12 == ca * (y1 * y2);
    assert(a2 * y1 == c12 + e * (x2 * y1)) by (nonlinear_arith)
        requires a2 == ca * y2 + e * x2, c12 == ca * (y1 * y2);
    assert(e * (x1 * y2) - e * (x2 * y1) == e * (x1 * y2 - x2 * y1)) by (nonlinear_arith);
    assert(a1 * y2 - a2 * y1 == (cb - ca) * (x1 * y2 - x2 * y1));
    if ca >= cb {
        assert((cb - ca) * (x1 * y2 - x2 * y1) <= 0) by (nonlinear_arith)
            requires cb - ca <= 0, x1 * y2 - x2 * y1 >= 0;
        lemma_floor_div_ordered(a1, y1, a2, y2);
    }
    if ca <= cb {
        assert((cb - ca) * (x1 * y2 - x2 * y1) >= 0) by (nonlinear_arith)
            requires cb - ca >= 0, x1 * y2 - x2 * y1 >= 0;
        lemma_floor_div_ordered(a2, y2, a1, y1);
    }
}

/// `a1 / y1 <= a2 / y2` as rationals implies it for the truncated quotients.
proof fn lemma_floor_div_ordered(a1: int, y1: int, a2: int, y2: int)
    requires
        y1 > 0,
        y2 > 0,
        a1 >= 0,
        a2 >= 0,
        a1 * y2 <= a2 * y1,
    ensures
        a1 / y1 <= a2 / y2,
{
    let k = a1 / y1;
    let m = a2 / y2;
    vstd::arithmetic::div_mod::lemma_fundamental_div_mod(a1, y1);
    vstd::arithmetic::div_mod::lemma_fundamental_div_mod(a2, y2);
    let r1 = a1 % y1;
    let r2 = a2 % y2;
    assert(k * y2 <= a2) by (nonlinear_arith)
        requires a1 == y1 * k + r1, 0 <= r1, a1 * y2 <= a2 * y1, y1 > 0, y2 > 0;
    if k > m {
        assert(k * y2 >= (m + 1) * y2) by (nonlinear_arith)
            requires k >= m + 1, y2 > 0;
        assert(false) by (nonlinear_arith)
            requires a2 == y2 * m + r2, r2 < y2, k * y2 <= a2, k * y2 >= (m + 1) * y2;
    }
}

/// The scan from `i` stops at `k` when the stops from `i` up to `k` are below
/// `q` and stop `k` is not.
proof fn lemma_lookup_index_stops_at(stops: Seq<ColorSchemeColor>, q: Fraction, i: int, k: int)
    requires
        0 <= i <= k < stops.len(),
        forall|j: int| i <= j < k ==> below(#[trigger] stops[j].position, q),
        !below(stops[k].position, q),
    ensures
        lookup_index(stops, q, i) == k,
    decreases k - i,
{
    if i < k {
        lemma_lookup_index_stops_at(stops, q, i + 1, k);
    }
}

proof fn lemma_product_bounds(p: int, d: int, n: int)
    requires
        0 <= p < 0x1_0000_0000,
        0 <= d < 0x1_0000_0000_0000_0000,
        0 <= n < 0x1_0000_0000_0000_0000,
    ensures
        0 <= p * d < 0x1_0000_0000_0000_0000_0000_0000,
        0 <= n * POSITION_ONE < 0x1_0000_0000_0000_0000_0000_0000,
{
    assert(0 <= p * d < 0x1_0000_0000_0000_0000_0000_0000) by (nonlinear_arith)
        requires 0 <= p < 0x1_0000_0000, 0 <= d < 0x1_0000_0000_0000_0000;
    assert(0 <= n * POSITION_ONE < 0x1_0000_0000_0000_0000_0000_0000) by (nonlinear_arith)
        requires 0 <= n < 0x1_0000_0000_0000_0000;
}

/// Whether stop position `p` lies strictly below `q`.
fn below_exec(p: u32, q: Fraction) -> (r: bool)
    ensures
        r == below(p, q),
{
    proof {
        lemma_product_bounds(p as int, q.den as int, q.num as int);
    }
    (p as u128) * (q.den as u128) < (q.num as u128) * (POSITION_ONE as u128)
}

/// With `pb < q <= pa` (cross-multiplied by `d`), the fraction
/// `(pa * d - m) / ((pa - pb) * d)` lies in `[0, 1)` and its parts fit.
proof fn lemma_fraction_between(pa: int, pb: int, d: int, m: int)
    requires
        0 <= pb <= pa < 0x1_0000_0000,
        0 < d < 0x1_0000_0000_0000_0000,
        pb * d < m,
        m <= pa * d,
    ensures
        0 <= pa * d - m < (pa - pb) * d,
        0 < (pa - pb) * d < 0x1_0000_0000_0000_0000_0000_0000,
{
    assert((pa - pb) * d == pa * d - pb * d) by (nonlinear_arith);
    assert(0 <= (pa - pb) * d < 0x1_0000_0000_0000_0000_0000_0000) by (nonlinear_arith)
        requires 0 <= pa - pb < 0x1_0000_0000, 0 < d < 0x1_0000_0000_0000_0000;
}

proof fn lemma_blend_bounds(a: u8, b: u8, x: int, y: int)
    requires
        0 <= x <= y,
        0 < y < 0x1_0000_0000_0000_0000_0000_0000_0000,
    ensures
        0 <= a * (y - x) + b * x <= 255 * y,
        0 <= blend(a, b, x, y) <= 255,
{
    assert(0 <= a * (y - x) + b * x <= 255 * y) by (nonlinear_arith)
        requires 0 <= x <= y, 0 <= a <= 255, 0 <= b <= 255;
    let t = a * (y - x) + b * x;
    assert(t / y <= 255) by {
        vstd::arithmetic::div_mod::lemma_div_is_ordered(t, 255 * y, y);
        vstd::arithmetic::div_mod::lemma_div_multiples_vanish(255, y);
    }
    vstd::arithmetic::div_mod::lemma_div_pos_is_pos(t, y);
}

} // verus!
