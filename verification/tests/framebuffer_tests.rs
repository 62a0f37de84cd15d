use uc8159::Color;
use uc8159::Config;
use uc8159::Display;
use uc8159::RecordingTransport;

fn display() -> Display<RecordingTransport> {
    Display::new(RecordingTransport::new(), Config { border_color: Color::White })
}

#[test]
fn dimensions_are_fixed() {
    let d = display();
    assert_eq!(d.width(), 600);
    assert_eq!(d.height(), 448);
}

#[test]
fn new_display_is_black() {
    let d = display();
    for y in 0..448 {
        for x in 0..600 {
            assert_eq!(d.pixel(x, y), Color::Black.code());
        }
    }
}

#[test]
fn fill_reaches_every_pixel() {
    let mut d = display();
    for c in Color::all() {
        d.fill(c);
        for y in 0..448 {
            for x in 0..600 {
                assert_eq!(d.pixel(x, y), c.code());
            }
        }
    }
}

#[test]
fn set_pixel_overwrites_and_preserves_neighbors() {
    let mut d = display();
    d.fill(Color::Yellow);
    d.set_pixel(5, 7, Color::Red);
    d.set_pixel(5, 7, Color::Blue);
    for y in 0..448 {
        for x in 0..600 {
            if (x, y) == (5, 7) {
                assert_eq!(d.pixel(x, y), Color::Blue.code());
            } else {
                assert_eq!(d.pixel(x, y), Color::Yellow.code());
            }
        }
    }
}

#[test]
fn adjacent_pixels_share_a_byte_without_corruption() {
    let mut d = display();
    d.set_pixel(0, 0, Color::White);
    d.set_pixel(1, 0, Color::Black);
    assert_eq!(d.pixel(0, 0), Color::White.code());
    assert_eq!(d.pixel(1, 0), Color::Black.code());

    d.set_pixel(598, 447, Color::Green);
    d.set_pixel(599, 447, Color::Orange);
    assert_eq!(d.pixel(598, 447), Color::Green.code());
    assert_eq!(d.pixel(599, 447), Color::Orange.code());
}

#[test]
fn copy_from_packs_pairs_row_major() {
    let mut d = display();
    let sig = Color::all_significant();
    let mut colors = Vec::with_capacity(600 * 448);
    for i in 0..600 * 448 {
        colors.push(sig[i % 7]);
    }
    d.copy_from(&colors);
    for y in 0..448 {
        for x in 0..600 {
            assert_eq!(d.pixel(x, y), colors[y * 600 + x].code());
        }
    }
}
