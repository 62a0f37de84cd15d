//! The panel's native color set and the saturation-tunable matching palette.

use vstd::prelude::*;

verus! {

/// The eight color codes the panel understands: seven colors usable for
/// image rendering plus `Clean`, a special code used only for panel-clear
/// operations.
#[derive(Clone, Copy, Debug, PartialEq, Eq, Structural)]
pub enum Color {
    Black,
    White,
    Green,
    Blue,
    Red,
    Yellow,
    Orange,
    Clean,
}

/// An RGB triple with 8-bit channels.
#[derive(Clone, Copy, Debug, PartialEq, Eq, Structural)]
pub struct Rgb {
    pub r: u8,
    pub g: u8,
    pub b: u8,
}

/// The 4-bit code a color occupies in the framebuffer and in palette order.
pub open spec fn color_code(c: Color) -> u8 {
    match c {
        Color::Black => 0,
        Color::White => 1,
        Color::Green => 2,
        Color::Blue => 3,
        Color::Red => 4,
        Color::Yellow => 5,
        Color::Orange => 6,
        Color::Clean => 7,
    }
}

/// The color at position `i` of the canonical order (the inverse of
/// `color_code` on 0..8).
pub open spec fn color_at(i: int) -> Color {
    if i == 0 {
        Color::Black
    } else if i == 1 {
        Color::White
    } else if i == 2 {
        Color::Green
    } else if i == 3 {
        Color::Blue
    } else if i == 4 {
        Color::Red
    } else if i == 5 {
        Color::Yellow
    } else if i == 6 {
        Color::Orange
    } else {
        Color::Clean
    }
}

/// The pure, textbook RGB value of a color.
pub open spec fn desaturated_rgb(c: Color) -> Rgb {
    match c {
        Color::Black => Rgb { r: 0, g: 0, b: 0 },
        Color::White => Rgb { r: 255, g: 255, b: 255 },
        Color::Green => Rgb { r: 0, g: 255, b: 0 },
        Color::Blue => Rgb { r: 0, g: 0, b: 255 },
        Color::Red => Rgb { r: 255, g: 0, b: 0 },
        Color::Yellow => Rgb { r: 255, g: 255, b: 0 },
        Color::Orange => Rgb { r: 255, g: 140, b: 0 },
        Color::Clean => Rgb { r: 255, g: 255, b: 255 },
    }
}

/// The muted RGB value of a color as measured on actual panel hardware.
pub open spec fn saturated_rgb(c: Color) -> Rgb {
    match c {
        Color::Black => Rgb { r: 57, g: 48, b: 57 },
        Color::White => Rgb { r: 255, g: 255, b: 255 },
        Color::Green => Rgb { r: 58, g: 91, b: 70 },
        Color::Blue => Rgb { r: 61, g: 59, b: 94 },
        Color::Red => Rgb { r: 156, g: 72, b: 75 },
        Color::Yellow => Rgb { r: 208, g: 190, b: 71 },
        Color::Orange => Rgb { r: 77, g: 106, b: 73 },
        Color::Clean => Rgb { r: 255, g: 255, b: 255 },
    }
}

impl Color {
    /// The 4-bit framebuffer code of this color.
    pub fn code(self) -> (r: u8)
        ensures
            r == color_code(self),
            r < 8,
    {
        match self {
            Color::Black => 0,
            Color::White => 1,
            Color::Green => 2,
            Color::Blue => 3,
            Color::Red => 4,
            Color::Yellow => 5,
            Color::Orange => 6,
            Color::Clean => 7,
        }
    }

    /// All eight colors in canonical order; position `i` holds the color
    /// whose framebuffer code is `i`.
    pub fn all() -> (r: [Color; 8])
        ensures
            r@.len() == 8,
            forall|i: int| 0 <= i < 8 ==> r@[i] == color_at(i),
    {
        let arr = [
            Color::Black,
            Color::White,
            Color::Green,
            Color::Blue,
            Color::Red,
            Color::Yellow,
            Color::Orange,
            Color::Clean,
        ];
        proof {
            assert(forall|i: int| 0 <= i < 8 ==> arr@[i] == color_at(i)) by {
                assert(arr@[0] == color_at(0));
                assert(arr@[1] == color_at(1));
                assert(arr@[2] == color_at(2));
                assert(arr@[3] == color_at(3));
                assert(arr@[4] == color_at(4));
                assert(arr@[5] == color_at(5));
                assert(arr@[6] == color_at(6));
                assert(arr@[7] == color_at(7));
            }
        }
        arr
    }

    /// The seven colors usable for image rendering, in canonical order
    /// (everything but `Clean`).
    pub fn all_significant() -> (r: [Color; 7])
        ensures
            r@.len() == 7,
            forall|i: int| 0 <= i < 7 ==> r@[i] == color_at(i),
    {
        let arr = [
            Color::Black,
            Color::White,
            Color::Green,
            Color::Blue,
            Color::Red,
            Color::Yellow,
            Color::Orange,
        ];
        proof {
            assert(forall|i: int| 0 <= i < 7 ==> arr@[i] == color_at(i)) by {
                assert(arr@[0] == color_at(0));
                assert(arr@[1] == color_at(1));
                assert(arr@[2] == color_at(2));
                assert(arr@[3] == color_at(3));
                assert(arr@[4] == color_at(4));
                assert(arr@[5] == color_at(5));
                assert(arr@[6] == color_at(6));
            }
        }
        arr
    }
}

/// Saturation is a fixed-point fraction with this denominator: `0` selects
/// the desaturated references, `SATURATION_SCALE` the saturated ones.
pub const SATURATION_SCALE: u8 = 255;

/// One channel linearly interpolated between its desaturated and saturated
/// reference values, weighted by `s / 255`, truncated to an integer.
pub open spec fn interp_channel(desat: u8, sat: u8, s: u8) -> u8 {
    (((sat * s + desat * (255 - s)) / 255) as u8)
}

/// The full palette entry of a color at saturation `s / 255`.
pub open spec fn interp_rgb(c: Color, s: u8) -> Rgb {
    Rgb {
        r: interp_channel(desaturated_rgb(c).r, saturated_rgb(c).r, s),
        g: interp_channel(desaturated_rgb(c).g, saturated_rgb(c).g, s),
        b: interp_channel(desaturated_rgb(c).b, saturated_rgb(c).b, s),
    }
}

/// `|a - b|` on mathematical integers.
pub open spec fn absdiff(a: int, b: int) -> int {
    if a >= b {
        a - b
    } else {
        b - a
    }
}

/// Squared Euclidean distance between a palette entry and an RGB triple.
pub open spec fn dist2(e: Rgb, r: u8, g: u8, b: u8) -> int {
    absdiff(e.r as int, r as int) * absdiff(e.r as int, r as int) + absdiff(
        e.g as int,
        g as int,
    ) * absdiff(e.g as int, g as int) + absdiff(e.b as int, b as int) * absdiff(
        e.b as int,
        b as int,
    )
}

/// `i` is the index a stable minimum scan of `entries` settles on for the
/// query `(r, g, b)`: its distance is minimal, and every earlier entry is
/// strictly farther.
pub open spec fn is_closest_choice(entries: Seq<Rgb>, r: u8, g: u8, b: u8, i: int) -> bool {
    &&& 0 <= i < entries.len()
    &&& forall|j: int| #![trigger entries[j]]
        0 <= j < entries.len() ==> dist2(entries[i], r, g, b) <= dist2(entries[j], r, g, b)
    &&& forall|j: int| #![trigger entries[j]]
        0 <= j < i ==> dist2(entries[i], r, g, b) < dist2(entries[j], r, g, b)
}

/// No two palette entries share an RGB triple.
pub open spec fn distinct_entries(entries: Seq<Rgb>) -> bool {
    forall|i: int, j: int|
        0 <= i < j < entries.len() ==> #[trigger] entries[i] != #[trigger] entries[j]
}

/// The canonical order and the 4-bit codes are mutually inverse: the
/// color at position `i` has code `i`, and every color sits at the
/// position its code names.
pub proof fn lemma_color_order_inverse()
    ensures
        forall|i: int| 0 <= i < 8 ==> color_code(#[trigger] color_at(i)) == i,
        forall|c: Color| color_at(color_code(c) as int) == c,
{
    assert forall|i: int| 0 <= i < 8 implies color_code(#[trigger] color_at(i)) == i by {
        if i == 0 {
        } else if i == 1 {
        } else if i == 2 {
        } else if i == 3 {
        } else if i == 4 {
        } else if i == 5 {
        } else if i == 6 {
        }
    }
}

/// The stable minimum scan is deterministic: only one index can be both
/// minimal and strictly closer than every earlier entry.
pub proof fn lemma_closest_choice_unique(
    entries: Seq<Rgb>,
    r: u8,
    g: u8,
    b: u8,
    i: int,
    j: int,
)
    requires
        is_closest_choice(entries, r, g, b, i),
        is_closest_choice(entries, r, g, b, j),
    ensures
        i == j,
{
    if i < j {
        assert(dist2(entries[j], r, g, b) < dist2(entries[i], r, g, b));
        assert(dist2(entries[i], r, g, b) <= dist2(entries[j], r, g, b));
    } else if j < i {
        assert(dist2(entries[i], r, g, b) < dist2(entries[j], r, g, b));
        assert(dist2(entries[j], r, g, b) <= dist2(entries[i], r, g, b));
    }
}

/// At the endpoints of the saturation range the interpolation is exact:
/// weight 0 reproduces the desaturated reference channel and weight 255
/// the saturated one, with no truncation error.
proof fn lemma_interp_channel_endpoints(desat: u8, sat: u8)
    ensures
        interp_channel(desat, sat, 0) == desat,
        interp_channel(desat, sat, 255) == sat,
{
    assert(((desat as int) * 255) / 255 == desat as int) by (nonlinear_arith)
        requires
            0 <= desat <= 255,
    ;
    assert(((sat as int) * 255) / 255 == sat as int) by (nonlinear_arith)
        requires
            0 <= sat <= 255,
    ;
}

/// Palette endpoint exactness: a palette built at saturation 0 holds each
/// color's desaturated reference triple exactly, and one built at the full
/// scale holds each saturated reference triple exactly.
pub proof fn lemma_palette_endpoints(c: Color)
    ensures
        interp_rgb(c, 0) == desaturated_rgb(c),
        interp_rgb(c, 255) == saturated_rgb(c),
{
    lemma_interp_channel_endpoints(desaturated_rgb(c).r, saturated_rgb(c).r);
    lemma_interp_channel_endpoints(desaturated_rgb(c).g, saturated_rgb(c).g);
    lemma_interp_channel_endpoints(desaturated_rgb(c).b, saturated_rgb(c).b);
}

/// A zero squared distance forces equality in every channel.
proof fn lemma_dist2_zero(e: Rgb, r: u8, g: u8, b: u8)
    requires
        dist2(e, r, g, b) <= 0,
    ensures
        e.r == r && e.g == g && e.b == b,
{
    let dr = absdiff(e.r as int, r as int);
    let dg = absdiff(e.g as int, g as int);
    let db = absdiff(e.b as int, b as int);
    assert(dr * dr >= 0 && dg * dg >= 0 && db * db >= 0) by (nonlinear_arith);
    assert(dr == 0) by (nonlinear_arith)
        requires
            dr * dr <= 0,
    ;
    assert(dg == 0) by (nonlinear_arith)
        requires
            dg * dg <= 0,
    ;
    assert(db == 0) by (nonlinear_arith)
        requires
            db * db <= 0,
    ;
}

/// Nearest-color exactness: in a palette with pairwise distinct entries,
/// the stable minimum scan queried with entry `i`'s own triple settles on
/// `i` itself, since zero distance is the unique minimum.
pub proof fn lemma_closest_color_exact(entries: Seq<Rgb>, i: int, m: int)
    requires
        distinct_entries(entries),
        0 <= i < entries.len(),
        is_closest_choice(entries, entries[i].r, entries[i].g, entries[i].b, m),
    ensures
        m == i,
{
    let e = entries[i];
    assert(dist2(e, e.r, e.g, e.b) == 0);
    assert(dist2(entries[m], e.r, e.g, e.b) <= 0);
    lemma_dist2_zero(entries[m], e.r, e.g, e.b);
    assert(entries[m] == e);
}

/// A matching palette: one RGB triple per significant color, in canonical
/// color order, derived once from a saturation parameter.
#[derive(Clone, Debug)]
pub struct Palette {
    /// Entry `i` is the triple matched against for the color `color_at(i)`.
    pub entries: [Rgb; 7],
}

impl View for Palette {
    type V = Seq<Rgb>;

    open spec fn view(&self) -> Seq<Rgb> {
        self.entries@
    }
}

/// Interpolates one channel in 32-bit arithmetic; the weighted sum of two
/// bytes stays under `255 * 255`, so the quotient fits a byte again.
fn interp_channel_exec(desat: u8, sat: u8, s: u8) -> (r: u8)
    ensures
        r == interp_channel(desat, sat, s),
{
    proof {
        assert((sat as int) * (s as int) + (desat as int) * (255 - (s as int)) <= 255 * 255)
            by (nonlinear_arith)
            requires
                sat <= 255,
                desat <= 255,
                0 <= s <= 255,
        ;
        assert((sat as int) * (s as int) >= 0 && (desat as int) * (255 - (s as int)) >= 0)
            by (nonlinear_arith)
            requires
                sat >= 0,
                desat >= 0,
                0 <= s <= 255,
        ;
    }
    let num: u32 = (sat as u32) * (s as u32) + (desat as u32) * (255 - (s as u32));
    (num / 255) as u8
}

/// Squared distance in 32-bit arithmetic; each squared channel difference
/// is at most `255 * 255`, so the sum is far below `u32::MAX`.
fn dist2_exec(e: Rgb, r: u8, g: u8, b: u8) -> (d: u32)
    ensures
        d as int == dist2(e, r, g, b),
{
    let dr: u32 = if e.r > r {
        (e.r - r) as u32
    } else {
        (r - e.r) as u32
    };
    let dg: u32 = if e.g > g {
        (e.g - g) as u32
    } else {
        (g - e.g) as u32
    };
    let db: u32 = if e.b > b {
        (e.b - b) as u32
    } else {
        (b - e.b) as u32
    };
    proof {
        assert(dr as int == absdiff(e.r as int, r as int));
        assert(dg as int == absdiff(e.g as int, g as int));
        assert(db as int == absdiff(e.b as int, b as int));
        assert(dr * dr <= 255 * 255 && dg * dg <= 255 * 255 && db * db <= 255 * 255)
            by (nonlinear_arith)
            requires
                0 <= dr <= 255,
                0 <= dg <= 255,
                0 <= db <= 255,
        ;
        assert((dr as int) * (dr as int) == (dr * dr) as int) by (nonlinear_arith)
            requires
                0 <= dr <= 255,
        ;
        assert((dg as int) * (dg as int) == (dg * dg) as int) by (nonlinear_arith)
            requires
                0 <= dg <= 255,
        ;
        assert((db as int) * (db as int) == (db * db) as int) by (nonlinear_arith)
            requires
                0 <= db <= 255,
        ;
    }
    dr * dr + dg * dg + db * db
}

impl Color {
    /// Builds the matching palette for saturation `saturation / 255`: each
    /// significant color's entry blends its saturated reference (weight
    /// `saturation`) with its desaturated reference (the remainder).
    pub fn palette(saturation: u8) -> (p: Palette)
        ensures
            p@.len() == 7,
            forall|i: int| 0 <= i < 7 ==> p@[i] == interp_rgb(color_at(i), saturation),
    {
        let significant = Self::all_significant();
        let mut entries = [Rgb { r: 0, g: 0, b: 0 };7];
        let mut idx: usize = 0;
        while idx < 7
            invariant
                0 <= idx <= 7,
                entries@.len() == 7,
                forall|i: int| 0 <= i < 7 ==> significant@[i] == color_at(i),
                forall|i: int| 0 <= i < idx ==> entries@[i] == interp_rgb(color_at(i), saturation),
            decreases 7 - idx,
        {
            let c = significant[idx];
            let ds = c.as_rgb_desaturated();
            let st = c.as_rgb_saturated();
            let entry = Rgb {
                r: interp_channel_exec(ds.r, st.r, saturation),
                g: interp_channel_exec(ds.g, st.g, saturation),
                b: interp_channel_exec(ds.b, st.b, saturation),
            };
            entries[idx] = entry;
            idx = idx + 1;
        }
        Palette { entries }
    }

    /// The pure, textbook RGB value of this color.
    pub fn as_rgb_desaturated(self) -> (r: Rgb)
        ensures
            r == desaturated_rgb(self),
    {
        match self {
            Color::Black => Rgb { r: 0, g: 0, b: 0 },
            Color::White => Rgb { r: 255, g: 255, b: 255 },
            Color::Green => Rgb { r: 0, g: 255, b: 0 },
            Color::Blue => Rgb { r: 0, g: 0, b: 255 },
            Color::Red => Rgb { r: 255, g: 0, b: 0 },
            Color::Yellow => Rgb { r: 255, g: 255, b: 0 },
            Color::Orange => Rgb { r: 255, g: 140, b: 0 },
            Color::Clean => Rgb { r: 255, g: 255, b: 255 },
        }
    }

    /// The muted RGB value of this color as measured on panel hardware.
    pub fn as_rgb_saturated(self) -> (r: Rgb)
        ensures
            r == saturated_rgb(self),
    {
        match self {
            Color::Black => Rgb { r: 57, g: 48, b: 57 },
            Color::White => Rgb { r: 255, g: 255, b: 255 },
            Color::Green => Rgb { r: 58, g: 91, b: 70 },
            Color::Blue => Rgb { r: 61, g: 59, b: 94 },
            Color::Red => Rgb { r: 156, g: 72, b: 75 },
            Color::Yellow => Rgb { r: 208, g: 190, b: 71 },
            Color::Orange => Rgb { r: 77, g: 106, b: 73 },
            Color::Clean => Rgb { r: 255, g: 255, b: 255 },
        }
    }
}

impl Palette {
    /// The color whose palette entry minimizes squared Euclidean distance
    /// to `(r, g, b)`; ties go to the earliest entry in canonical order.
    pub fn closest_color(&self, r: u8, g: u8, b: u8) -> (c: Color)
        ensures
            exists|i: int| is_closest_choice(self@, r, g, b, i) && c == color_at(i),
    {
        let mut best: usize = 0;
        let mut best_d: u32 = dist2_exec(self.entries[0], r, g, b);
        let mut idx: usize = 1;
        while idx < 7
            invariant
                0 <= best < idx <= 7,
                best_d as int == dist2(self@[best as int], r, g, b),
                forall|j: int| #![trigger self@[j]] 0 <= j < idx ==> best_d as int <= dist2(self@[j], r, g, b),
                forall|j: int| #![trigger self@[j]] 0 <= j < best ==> (best_d as int) < dist2(self@[j], r, g, b),
            decreases 7 - idx,
        {
            let d = dist2_exec(self.entries[idx], r, g, b);
            if d < best_d {
                best = idx;
                best_d = d;
            }
            idx = idx + 1;
        }
        let all = Color::all();
        let c = all[best];
        proof {
            assert(is_closest_choice(self@, r, g, b, best as int) && c == color_at(best as int));
        }
        c
    }
}

} // verus!
