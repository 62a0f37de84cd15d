use uc8159::Color;
use uc8159::Palette;
use uc8159::Rgb;

fn significant() -> [Color; 7] {
    Color::all_significant()
}

/// Reference interpolation, written independently of the library:
/// channel = (saturated * s + desaturated * (255 - s)) / 255, truncated.
fn interp(desat: u8, sat: u8, s: u8) -> u8 {
    ((sat as u32 * s as u32 + desat as u32 * (255 - s as u32)) / 255) as u8
}

#[test]
fn all_has_canonical_order() {
    let all = Color::all();
    assert_eq!(all.len(), 8);
    assert_eq!(all[0], Color::Black);
    assert_eq!(all[1], Color::White);
    assert_eq!(all[2], Color::Green);
    assert_eq!(all[3], Color::Blue);
    assert_eq!(all[4], Color::Red);
    assert_eq!(all[5], Color::Yellow);
    assert_eq!(all[6], Color::Orange);
    assert_eq!(all[7], Color::Clean);
    for (i, c) in all.iter().enumerate() {
        assert_eq!(c.code() as usize, i);
    }
}

#[test]
fn all_significant_drops_clean() {
    let sig = Color::all_significant();
    let all = Color::all();
    assert_eq!(sig.len(), 7);
    for i in 0..7 {
        assert_eq!(sig[i], all[i]);
        assert_ne!(sig[i], Color::Clean);
    }
}

#[test]
fn palette_at_saturation_zero_is_desaturated() {
    let p = Color::palette(0);
    for (i, c) in significant().iter().enumerate() {
        assert_eq!(p.entries[i], c.as_rgb_desaturated());
    }
}

#[test]
fn palette_at_full_saturation_is_saturated() {
    let p = Color::palette(255);
    for (i, c) in significant().iter().enumerate() {
        assert_eq!(p.entries[i], c.as_rgb_saturated());
    }
}

#[test]
fn palette_midpoint_exact_values() {
    // Black: desaturated (0,0,0), saturated (57,48,57), weight 128/255.
    let p = Color::palette(128);
    assert_eq!(p.entries[0], Rgb { r: 28, g: 24, b: 28 });
    assert_eq!(p.entries[0].r, interp(0, 57, 128));
    assert_eq!(p.entries[0].g, interp(0, 48, 128));
    // Orange: desaturated (255,140,0), saturated (77,106,73).
    let o = p.entries[6];
    assert_eq!(o.r, interp(255, 77, 128));
    assert_eq!(o.g, interp(140, 106, 128));
    assert_eq!(o.b, interp(0, 73, 128));
}

#[test]
fn palette_matches_reference_formula_at_every_saturation() {
    for s in [0u8, 1, 17, 100, 128, 200, 254, 255] {
        let p = Color::palette(s);
        for (i, c) in significant().iter().enumerate() {
            let d = c.as_rgb_desaturated();
            let t = c.as_rgb_saturated();
            let e = p.entries[i];
            assert_eq!(e.r, interp(d.r, t.r, s));
            assert_eq!(e.g, interp(d.g, t.g, s));
            assert_eq!(e.b, interp(d.b, t.b, s));
        }
    }
}

#[test]
fn closest_color_on_exact_entries() {
    for s in [0u8, 255] {
        let p = Color::palette(s);
        for (i, c) in significant().iter().enumerate() {
            let e = p.entries[i];
            assert_eq!(p.closest_color(e.r, e.g, e.b), *c);
        }
    }
}

#[test]
fn closest_color_black_and_white() {
    let p = Color::palette(0);
    assert_eq!(p.closest_color(0, 0, 0), Color::Black);
    assert_eq!(p.closest_color(255, 255, 255), Color::White);
}

#[test]
fn closest_color_nearby_values() {
    let p = Color::palette(0);
    assert_eq!(p.closest_color(10, 5, 0), Color::Black);
    assert_eq!(p.closest_color(250, 250, 240), Color::White);
    assert_eq!(p.closest_color(20, 240, 15), Color::Green);
    assert_eq!(p.closest_color(230, 150, 30), Color::Orange);
}

#[test]
fn closest_color_tie_goes_to_first_entry() {
    let e = Rgb { r: 10, g: 10, b: 10 };
    let p = Palette { entries: [e; 7] };
    assert_eq!(p.closest_color(10, 10, 10), Color::Black);
    assert_eq!(p.closest_color(200, 0, 0), Color::Black);

    let mut entries = Color::palette(0).entries;
    entries[5] = entries[2];
    let p2 = Palette { entries };
    assert_eq!(p2.closest_color(entries[2].r, entries[2].g, entries[2].b), Color::Green);
}
