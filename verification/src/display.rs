//! The driver instance: packed framebuffer plus protocol engine.

use vstd::prelude::*;

use crate::color::Color;
use crate::color::color_code;
use crate::transport::BusEvent;
use crate::transport::Level;
use crate::transport::Transport;
use crate::transport::TransportError;

verus! {

/// Panel width in pixels.
pub const WIDTH: usize = 600;

/// Panel height in pixels.
pub const HEIGHT: usize = 448;

/// Bytes in the packed framebuffer: two pixels per byte.
pub const BUFFER_LEN: usize = 134400;

/// Display-wide parameters supplied at construction.
#[derive(Clone, Copy, Debug, PartialEq, Eq, Structural)]
pub struct Config {
    /// The color shown at the panel edge during refresh.
    pub border_color: Color,
}

/// A driver instance: the sole owner of its bus transport, its
/// configuration and the packed framebuffer.
pub struct Display<T: Transport> {
    transport: T,
    config: Config,
    buffer: Vec<u8>,
}

/// Both nibbles of a framebuffer byte hold valid color codes.
pub open spec fn byte_wf(b: u8) -> bool {
    (b >> 4) < 8 && (b & 0x0F) < 8
}

/// The framebuffer invariant: full fixed size, every nibble a color code.
pub open spec fn buf_wf(buf: Seq<u8>) -> bool {
    buf.len() == BUFFER_LEN && forall|i: int| 0 <= i < buf.len() ==> byte_wf(#[trigger] buf[i])
}

/// The byte holding the pixel at `(x, y)`: two pixels per byte, row-major.
pub open spec fn byte_index(x: int, y: int) -> int {
    y * 300 + x / 2
}

/// The 4-bit color code stored for the pixel at `(x, y)`: even `x` in the
/// high nibble, odd `x` in the low nibble.
pub open spec fn pixel_code(buf: Seq<u8>, x: int, y: int) -> u8 {
    if x % 2 == 0 {
        buf[byte_index(x, y)] >> 4
    } else {
        buf[byte_index(x, y)] & 0x0F
    }
}

/// The framebuffer after storing `code` for the pixel at `(x, y)`,
/// preserving the other nibble of the shared byte.
pub open spec fn spec_set_pixel(buf: Seq<u8>, x: int, y: int, code: u8) -> Seq<u8> {
    let b = buf[byte_index(x, y)];
    let nb = if x % 2 == 0 {
        (b & 0x0F) | ((code << 4) as u8)
    } else {
        (b & 0xF0) | code
    };
    buf.update(byte_index(x, y), nb)
}

/// Nibble facts about overwriting the high nibble of `b` with a code.
proof fn lemma_high_nibble_write(b: u8, c: u8)
    requires
        c < 8,
    ensures
        ((b & 0x0F) | ((c << 4) as u8)) >> 4 == c,
        ((b & 0x0F) | ((c << 4) as u8)) & 0x0F == b & 0x0F,
{
    assert(c < 8 ==> ((b & 0x0F) | ((c << 4) as u8)) >> 4 == c) by (bit_vector);
    assert(((b & 0x0F) | ((c << 4) as u8)) & 0x0F == b & 0x0F) by (bit_vector);
}

/// Nibble facts about overwriting the low nibble of `b` with a code.
proof fn lemma_low_nibble_write(b: u8, c: u8)
    requires
        c < 8,
    ensures
        ((b & 0xF0) | c) & 0x0F == c,
        ((b & 0xF0) | c) >> 4 == b >> 4,
{
    assert(c < 8 ==> ((b & 0xF0) | c) & 0x0F == c) by (bit_vector);
    assert(c < 8 ==> ((b & 0xF0) | c) >> 4 == b >> 4) by (bit_vector);
}

/// Nibble facts about a byte that duplicates one code in both nibbles.
proof fn lemma_dup_nibbles(c: u8)
    requires
        c < 8,
    ensures
        (((c << 4) as u8) | c) >> 4 == c,
        (((c << 4) as u8) | c) & 0x0F == c,
{
    assert(c < 8 ==> (((c << 4) as u8) | c) >> 4 == c) by (bit_vector);
    assert(c < 8 ==> (((c << 4) as u8) | c) & 0x0F == c) by (bit_vector);
}

/// Nibble facts about packing two codes into one byte.
proof fn lemma_pack_nibbles(hi: u8, lo: u8)
    requires
        hi < 8,
        lo < 8,
    ensures
        (((hi << 4) as u8) | lo) >> 4 == hi,
        (((hi << 4) as u8) | lo) & 0x0F == lo,
{
    assert(hi < 8 && lo < 8 ==> (((hi << 4) as u8) | lo) >> 4 == hi) by (bit_vector);
    assert(hi < 8 && lo < 8 ==> (((hi << 4) as u8) | lo) & 0x0F == lo) by (bit_vector);
}

/// Every valid coordinate addresses a byte inside the framebuffer.
proof fn lemma_byte_index_bounds(x: int, y: int)
    requires
        0 <= x < 600,
        0 <= y < 448,
    ensures
        0 <= byte_index(x, y) < BUFFER_LEN,
{
    assert(y * 300 <= 447 * 300) by (nonlinear_arith)
        requires
            y <= 447,
    ;
    assert(y * 300 >= 0) by (nonlinear_arith)
        requires
            y >= 0,
    ;
}

/// What one pixel write does: the addressed pixel reads back as `code`,
/// every other pixel is untouched, and well-formedness is preserved.
pub proof fn lemma_set_pixel_effect(buf: Seq<u8>, x: int, y: int, code: u8)
    requires
        buf_wf(buf),
        0 <= x < 600,
        0 <= y < 448,
        code < 8,
    ensures
        buf_wf(spec_set_pixel(buf, x, y, code)),
        pixel_code(spec_set_pixel(buf, x, y, code), x, y) == code,
        forall|x2: int, y2: int|
            0 <= x2 < 600 && 0 <= y2 < 448 && (x2 != x || y2 != y) ==> pixel_code(
                spec_set_pixel(buf, x, y, code),
                x2,
                y2,
            ) == pixel_code(buf, x2, y2),
{
    lemma_byte_index_bounds(x, y);
    let idx = byte_index(x, y);
    let b = buf[idx];
    let nb = if x % 2 == 0 {
        (b & 0x0F) | ((code << 4) as u8)
    } else {
        (b & 0xF0) | code
    };
    if x % 2 == 0 {
        lemma_high_nibble_write(b, code);
    } else {
        lemma_low_nibble_write(b, code);
    }
    assert(byte_wf(b));
    assert(byte_wf(nb)) by {
        if x % 2 == 0 {
            assert(nb >> 4 == code);
            assert(nb & 0x0F == b & 0x0F);
        } else {
            assert(nb & 0x0F == code);
            assert(nb >> 4 == b >> 4);
        }
    }
    let buf2 = spec_set_pixel(buf, x, y, code);
    assert(buf2 == buf.update(idx, nb));
    assert forall|x2: int, y2: int|
        0 <= x2 < 600 && 0 <= y2 < 448 && (x2 != x || y2 != y) implies pixel_code(buf2, x2, y2)
        == pixel_code(buf, x2, y2) by {
        lemma_byte_index_bounds(x2, y2);
        let idx2 = byte_index(x2, y2);
        if y2 != y {
            assert(idx2 != idx) by {
                assert(y2 * 300 - y * 300 >= 300 || y * 300 - y2 * 300 >= 300) by (nonlinear_arith)
                    requires
                        y2 != y,
                        0 <= y < 448,
                        0 <= y2 < 448,
                ;
            }
        } else if x2 / 2 != x / 2 {
            assert(idx2 != idx);
        } else {
            assert(idx2 == idx);
            assert(x2 % 2 != x % 2);
        }
        if idx2 != idx {
            assert(buf2[idx2] == buf[idx2]);
        }
    }
}

impl<T: Transport> Display<T> {
    /// The driver's invariant: the framebuffer has its fixed size and
    /// holds only valid color codes.
    pub closed spec fn wf(&self) -> bool {
        buf_wf(self.buffer@)
    }

    /// The packed framebuffer contents.
    pub closed spec fn buffer_view(&self) -> Seq<u8> {
        self.buffer@
    }

    /// The configuration supplied at construction.
    pub closed spec fn config_view(&self) -> Config {
        self.config
    }

    /// The transport's bus event log.
    pub closed spec fn events(&self) -> Seq<BusEvent> {
        self.transport.events()
    }

    /// Whether this driver's transport declares itself infallible.
    pub closed spec fn transport_infallible(&self) -> bool {
        self.transport.infallible()
    }

    /// A driver owning `transport` and `config`, with the framebuffer
    /// zero-initialized: every pixel starts as `Black` (code 0).
    pub fn new(transport: T, config: Config) -> (d: Display<T>)
        ensures
            d.wf(),
            buf_wf(d.buffer_view()),
            d.config_view() == config,
            d.events() == transport.events(),
            d.transport_infallible() == transport.infallible(),
            forall|x: int, y: int|
                0 <= x < 600 && 0 <= y < 448 ==> pixel_code(d.buffer_view(), x, y) == color_code(
                    Color::Black,
                ),
    {
        let mut buffer: Vec<u8> = Vec::new();
        let mut i: usize = 0;
        while i < BUFFER_LEN
            invariant
                buffer@.len() == i,
                i <= BUFFER_LEN,
                forall|k: int| 0 <= k < i ==> buffer@[k] == 0u8,
            decreases BUFFER_LEN - i,
        {
            buffer.push(0u8);
            i = i + 1;
        }
        let d = Display { transport, config, buffer };
        proof {
            assert(0u8 >> 4 == 0 && 0u8 & 0x0F == 0) by (bit_vector);
            assert forall|x: int, y: int| 0 <= x < 600 && 0 <= y < 448 implies pixel_code(
                d.buffer_view(),
                x,
                y,
            ) == color_code(Color::Black) by {
                lemma_byte_index_bounds(x, y);
            }
        }
        d
    }

    /// A well-formed driver's framebuffer has its full fixed size, with
    /// every nibble a valid color code.
    pub proof fn lemma_wf_buffer(&self)
        requires
            self.wf(),
        ensures
            buf_wf(self.buffer_view()),
    {
    }

    /// Consumes the driver and hands back its transport, with every
    /// event observed so far intact.
    pub fn into_transport(self) -> (t: T)
        ensures
            t.events() == self.events(),
    {
        self.transport
    }

    /// Panel width in pixels.
    pub fn width(&self) -> (r: usize)
        ensures
            r == WIDTH,
    {
        WIDTH
    }

    /// Panel height in pixels.
    pub fn height(&self) -> (r: usize)
        ensures
            r == HEIGHT,
    {
        HEIGHT
    }

    /// Sets every pixel to `color`: each framebuffer byte carries the
    /// color's code in both nibbles.
    pub fn fill(&mut self, color: Color)
        requires
            old(self).wf(),
        ensures
            final(self).wf(),
            final(self).config_view() == old(self).config_view(),
            final(self).events() == old(self).events(),
            final(self).transport_infallible() == old(self).transport_infallible(),
            forall|i: int|
                0 <= i < BUFFER_LEN ==> final(self).buffer_view()[i] == ((color_code(color)
                    << 4) as u8) | color_code(color),
            forall|x: int, y: int|
                0 <= x < 600 && 0 <= y < 448 ==> pixel_code(final(self).buffer_view(), x, y)
                    == color_code(color),
    {
        let code = color.code();
        let byte = (code << 4) | code;
        let mut i: usize = 0;
        while i < BUFFER_LEN
            invariant
                self.buffer@.len() == BUFFER_LEN,
                i <= BUFFER_LEN,
                self.config == old(self).config,
                self.transport == old(self).transport,
                byte == ((color_code(color) << 4) as u8) | color_code(color),
                forall|k: int| 0 <= k < i ==> self.buffer@[k] == byte,
                forall|k: int| i <= k < BUFFER_LEN ==> byte_wf(#[trigger] self.buffer@[k]),
            decreases BUFFER_LEN - i,
        {
            self.buffer.set(i, byte);
            i = i + 1;
        }
        proof {
            lemma_dup_nibbles(color_code(color));
            assert forall|x: int, y: int| 0 <= x < 600 && 0 <= y < 448 implies pixel_code(
                self.buffer_view(),
                x,
                y,
            ) == color_code(color) by {
                lemma_byte_index_bounds(x, y);
            }
            assert(buf_wf(self.buffer@)) by {
                assert forall|k: int| 0 <= k < self.buffer@.len() implies byte_wf(
                    #[trigger] self.buffer@[k],
                ) by {
                    lemma_dup_nibbles(color_code(color));
                }
            }
        }
    }

    /// Stores `color` for the single pixel at `(x, y)` and touches nothing
    /// else. Out-of-range coordinates are excluded by precondition: the
    /// driver treats them as a caller error, not a runtime failure.
    pub fn set_pixel(&mut self, x: usize, y: usize, color: Color)
        requires
            old(self).wf(),
            x < 600,
            y < 448,
        ensures
            final(self).wf(),
            final(self).config_view() == old(self).config_view(),
            final(self).events() == old(self).events(),
            final(self).transport_infallible() == old(self).transport_infallible(),
            final(self).buffer_view() == spec_set_pixel(
                old(self).buffer_view(),
                x as int,
                y as int,
                color_code(color),
            ),
            pixel_code(final(self).buffer_view(), x as int, y as int) == color_code(color),
            forall|x2: int, y2: int|
                0 <= x2 < 600 && 0 <= y2 < 448 && (x2 != x || y2 != y) ==> pixel_code(
                    final(self).buffer_view(),
                    x2,
                    y2,
                ) == pixel_code(old(self).buffer_view(), x2, y2),
    {
        proof {
            lemma_byte_index_bounds(x as int, y as int);
            lemma_set_pixel_effect(
                old(self).buffer_view(),
                x as int,
                y as int,
                color_code(color),
            );
        }
        let code = color.code();
        let idx: usize = y * 300 + x / 2;
        let b = self.buffer[idx];
        if x % 2 == 0 {
            self.buffer.set(idx, (b & 0x0F) | (code << 4));
        } else {
            self.buffer.set(idx, (b & 0xF0) | code);
        }
    }

    /// Bulk-loads the full framebuffer from `colors`, row-major: the
    /// caller supplies exactly one color per pixel, and consecutive pairs
    /// pack into one byte (first of the pair in the high nibble). The
    /// exact-length precondition is this driver's documented policy for
    /// bulk loads; partial loads are not offered.
    pub fn copy_from(&mut self, colors: &[Color])
        requires
            old(self).wf(),
            colors@.len() == WIDTH * HEIGHT,
        ensures
            final(self).wf(),
            final(self).config_view() == old(self).config_view(),
            final(self).events() == old(self).events(),
            final(self).transport_infallible() == old(self).transport_infallible(),
            forall|x: int, y: int|
                0 <= x < 600 && 0 <= y < 448 ==> pixel_code(final(self).buffer_view(), x, y)
                    == color_code(colors@[y * 600 + x]),
    {
        let mut i: usize = 0;
        while i < BUFFER_LEN
            invariant
                self.buffer@.len() == BUFFER_LEN,
                i <= BUFFER_LEN,
                colors@.len() == 268800,
                self.config == old(self).config,
                self.transport == old(self).transport,
                forall|k: int|
                    0 <= k < i ==> #[trigger] self.buffer@[k] == ((color_code(colors@[2 * k])
                        << 4) as u8) | color_code(colors@[2 * k + 1]),
                forall|k: int| i <= k < BUFFER_LEN ==> byte_wf(#[trigger] self.buffer@[k]),
            decreases BUFFER_LEN - i,
        {
            let hi = colors[2 * i].code();
            let lo = colors[2 * i + 1].code();
            self.buffer.set(i, (hi << 4) | lo);
            i = i + 1;
        }
        proof {
            assert forall|x: int, y: int| 0 <= x < 600 && 0 <= y < 448 implies pixel_code(
                self.buffer_view(),
                x,
                y,
            ) == color_code(colors@[y * 600 + x]) by {
                lemma_byte_index_bounds(x, y);
                let idx = byte_index(x, y);
                let hi = color_code(colors@[2 * idx]);
                let lo = color_code(colors@[2 * idx + 1]);
                lemma_pack_nibbles(hi, lo);
                assert(2 * idx == y * 600 + 2 * (x / 2));
                if x % 2 == 0 {
                    assert(2 * (x / 2) == x);
                } else {
                    assert(2 * (x / 2) + 1 == x);
                }
            }
            assert(buf_wf(self.buffer@)) by {
                assert forall|k: int| 0 <= k < self.buffer@.len() implies byte_wf(
                    #[trigger] self.buffer@[k],
                ) by {
                    lemma_pack_nibbles(
                        color_code(colors@[2 * k]),
                        color_code(colors@[2 * k + 1]),
                    );
                }
            }
        }
    }

    /// Reads back the 4-bit color code stored for the pixel at `(x, y)`.
    pub fn pixel(&self, x: usize, y: usize) -> (r: u8)
        requires
            self.wf(),
            x < 600,
            y < 448,
        ensures
            r == pixel_code(self.buffer_view(), x as int, y as int),
    {
        proof {
            lemma_byte_index_bounds(x as int, y as int);
        }
        let b = self.buffer[y * 300 + x / 2];
        if x % 2 == 0 {
            b >> 4
        } else {
            b & 0x0F
        }
    }

    /// The configuration phase: reset pulse, busy wait, then the ten
    /// fixed configuration commands of the panel's documented sequence.
    /// On success the ghost result counts the busy wait's low polls.
    #[verifier::rlimit(60)]
    fn setup(&mut self) -> (r: (Result<(), TransportError>, Ghost<nat>))
        ensures
            final(self).buffer_view() == old(self).buffer_view(),
            final(self).config_view() == old(self).config_view(),
            r.0 is Ok ==> final(self).events() == old(self).events() + setup_events(
                color_code(old(self).config_view().border_color),
                r.1@,
            ),
            r.0 is Err ==> exists|k: nat, n: int| #![auto]
                0 <= n <= setup_events(color_code(old(self).config_view().border_color), k).len()
                    && final(self).events() == old(self).events() + setup_events(
                    color_code(old(self).config_view().border_color),
                    k,
                ).subrange(0, n),
            old(self).transport.infallible() ==> r.0 is Ok,
            final(self).transport.infallible() == old(self).transport.infallible(),
    {
        let ghost base = self.transport.events();
        let border = self.config.border_color.code();
        match self.transport.set_reset(Level::Low) {
            Ok(()) => {},
            Err(e) => {
                proof {
                    assert(self.transport.events() =~= base + setup_events(
                        border,
                        0nat,
                    ).subrange(0, 0));
                }
                return (Err(e), Ghost(0nat));
            },
        }
        self.transport.delay_ms(100);
        match self.transport.set_reset(Level::High) {
            Ok(()) => {},
            Err(e) => {
                proof {
                    assert(self.transport.events() =~= base + setup_events(
                        border,
                        0nat,
                    ).subrange(0, 2));
                    assert(0 <= 2 <= setup_events(border, 0nat).len());
                }
                return (Err(e), Ghost(0nat));
            },
        }
        self.transport.delay_ms(100);
        proof {
            assert(self.transport.events() =~= base + reset_events());
        }
        let ghost mut acc: Seq<BusEvent> = reset_events();
        let (bw, k0) = busy_wait(&mut self.transport);
        match bw {
            Ok(()) => {},
            Err(e) => {
                proof {
                    lemma_low_polls_len(k0@);
                    assert(low_polls(k0@) =~= wait_events(k0@).subrange(
                        0,
                        low_polls(k0@).len() as int,
                    ));
                    assert((reset_events() + wait_events(k0@)) =~= setup_events(
                        border,
                        k0@,
                    ).subrange(0, (reset_events() + wait_events(k0@)).len() as int));
                    assert((reset_events() + wait_events(k0@)).len() <= setup_events(
                        border,
                        k0@,
                    ).len());
                    lemma_abort_prefix(
                        self.transport.events(),
                        base,
                        reset_events(),
                        low_polls(k0@),
                        wait_events(k0@),
                        setup_events(border, k0@),
                    );
                }
                return (Err(e), Ghost(0nat));
            },
        }
        proof {
            vstd::seq_lib::lemma_concat_associative(base, acc, wait_events(k0@));
            acc = acc + wait_events(k0@);
            assert(self.transport.events() == base + acc);
        }
        let tres: [u8; 4] = [0x02, 0x58, 0x01, 0xC0];
        match send_command(&mut self.transport, CMD_TRES, tres.as_slice()) {
            Ok(()) => {},
            Err(e) => {
                proof {
                    assert(tres@ =~= tres_data());
                    let n = choose|n: int|
                        0 <= n <= command_events(CMD_TRES, tres_data()).len()
                            && self.transport.events() == (base + acc) + command_events(
                            CMD_TRES,
                            tres_data(),
                        ).subrange(0, n);
                    assert((acc + command_events(CMD_TRES, tres_data())) =~= setup_events(
                        border,
                        k0@,
                    ).subrange(0, (acc + command_events(CMD_TRES, tres_data())).len() as int));
                    assert((acc + command_events(CMD_TRES, tres_data())).len() <= setup_events(
                        border,
                        k0@,
                    ).len());
                    lemma_abort_prefix(
                        self.transport.events(),
                        base,
                        acc,
                        command_events(CMD_TRES, tres_data()).subrange(0, n),
                        command_events(CMD_TRES, tres_data()),
                        setup_events(border, k0@),
                    );
                }
                return (Err(e), Ghost(0nat));
            },
        }
        proof {
            assert(tres@ =~= tres_data());
            vstd::seq_lib::lemma_concat_associative(
                base,
                acc,
                command_events(CMD_TRES, tres_data()),
            );
            acc = acc + command_events(CMD_TRES, tres_data());
            assert(self.transport.events() == base + acc);
        }
        let psr: [u8; 2] = [0xEF, 0x08];
        match send_command(&mut self.transport, CMD_PSR, psr.as_slice()) {
            Ok(()) => {},
            Err(e) => {
                proof {
                    assert(psr@ =~= psr_data());
                    let n = choose|n: int|
                        0 <= n <= command_events(CMD_PSR, psr_data()).len()
                            && self.transport.events() == (base + acc) + command_events(
                            CMD_PSR,
                            psr_data(),
                        ).subrange(0, n);
                    assert((acc + command_events(CMD_PSR, psr_data())) =~= setup_events(
                        border,
                        k0@,
                    ).subrange(0, (acc + command_events(CMD_PSR, psr_data())).len() as int));
                    assert((acc + command_events(CMD_PSR, psr_data())).len() <= setup_events(
                        border,
                        k0@,
                    ).len());
                    lemma_abort_prefix(
                        self.transport.events(),
                        base,
                        acc,
                        command_events(CMD_PSR, psr_data()).subrange(0, n),
                        command_events(CMD_PSR, psr_data()),
                        setup_events(border, k0@),
                    );
                }
                return (Err(e), Ghost(0nat));
            },
        }
        proof {
            assert(psr@ =~= psr_data());
            vstd::seq_lib::lemma_concat_associative(
                base,
                acc,
                command_events(CMD_PSR, psr_data()),
            );
            acc = acc + command_events(CMD_PSR, psr_data());
            assert(self.transport.events() == base + acc);
        }
        let pwr: [u8; 4] = [0x37, 0x00, 0x23, 0x23];
        match send_command(&mut self.transport, CMD_PWR, pwr.as_slice()) {
            Ok(()) => {},
            Err(e) => {
                proof {
                    assert(pwr@ =~= pwr_data());
                    let n = choose|n: int|
                        0 <= n <= command_events(CMD_PWR, pwr_data()).len()
                            && self.transport.events() == (base + acc) + command_events(
                            CMD_PWR,
                            pwr_data(),
                        ).subrange(0, n);
                    assert((acc + command_events(CMD_PWR, pwr_data())) =~= setup_events(
                        border,
                        k0@,
                    ).subrange(0, (acc + command_events(CMD_PWR, pwr_data())).len() as int));
                    assert((acc + command_events(CMD_PWR, pwr_data())).len() <= setup_events(
                        border,
                        k0@,
                    ).len());
                    lemma_abort_prefix(
                        self.transport.events(),
                        base,
                        acc,
                        command_events(CMD_PWR, pwr_data()).subrange(0, n),
                        command_events(CMD_PWR, pwr_data()),
                        setup_events(border, k0@),
                    );
                }
                return (Err(e), Ghost(0nat));
            },
        }
        proof {
            assert(pwr@ =~= pwr_data());
            vstd::seq_lib::lemma_concat_associative(
                base,
                acc,
                command_events(CMD_PWR, pwr_data()),
            );
            acc = acc + command_events(CMD_PWR, pwr_data());
            assert(self.transport.events() == base + acc);
        }
        let pll: [u8; 1] = [0x3C];
        match send_command(&mut self.transport, CMD_PLL, pll.as_slice()) {
            Ok(()) => {},
            Err(e) => {
                proof {
                    assert(pll@ =~= seq![0x3Cu8]);
                    let n = choose|n: int|
                        0 <= n <= command_events(CMD_PLL, seq![0x3Cu8]).len()
                            && self.transport.events() == (base + acc) + command_events(
                            CMD_PLL,
                            seq![0x3Cu8],
                        ).subrange(0, n);
                    assert((acc + command_events(CMD_PLL, seq![0x3Cu8])) =~= setup_events(
                        border,
                        k0@,
                    ).subrange(0, (acc + command_events(CMD_PLL, seq![0x3Cu8])).len() as int));
                    assert((acc + command_events(CMD_PLL, seq![0x3Cu8])).len() <= setup_events(
                        border,
                        k0@,
                    ).len());
                    lemma_abort_prefix(
                        self.transport.events(),
                        base,
                        acc,
                        command_events(CMD_PLL, seq![0x3Cu8]).subrange(0, n),
                        command_events(CMD_PLL, seq![0x3Cu8]),
                        setup_events(border, k0@),
                    );
                }
                return (Err(e), Ghost(0nat));
            },
        }
        proof {
            assert(pll@ =~= seq![0x3Cu8]);
            vstd::seq_lib::lemma_concat_associative(
                base,
                acc,
                command_events(CMD_PLL, seq![0x3Cu8]),
            );
            acc = acc + command_events(CMD_PLL, seq![0x3Cu8]);
            assert(self.transport.events() == base + acc);
        }
        let tse: [u8; 1] = [0x00];
        match send_command(&mut self.transport, CMD_TSE, tse.as_slice()) {
            Ok(()) => {},
            Err(e) => {
                proof {
                    assert(tse@ =~= seq![0x00u8]);
                    let n = choose|n: int|
                        0 <= n <= command_events(CMD_TSE, seq![0x00u8]).len()
                            && self.transport.events() == (base + acc) + command_events(
                            CMD_TSE,
                            seq![0x00u8],
                        ).subrange(0, n);
                    assert((acc + command_events(CMD_TSE, seq![0x00u8])) =~= setup_events(
                        border,
                        k0@,
                    ).subrange(0, (acc + command_events(CMD_TSE, seq![0x00u8])).len() as int));
                    assert((acc + command_events(CMD_TSE, seq![0x00u8])).len() <= setup_events(
                        border,
                        k0@,
                    ).len());
                    lemma_abort_prefix(
                        self.transport.events(),
                        base,
                        acc,
                        command_events(CMD_TSE, seq![0x00u8]).subrange(0, n),
                        command_events(CMD_TSE, seq![0x00u8]),
                        setup_events(border, k0@),
                    );
                }
                return (Err(e), Ghost(0nat));
            },
        }
        proof {
            assert(tse@ =~= seq![0x00u8]);
            vstd::seq_lib::lemma_concat_associative(
                base,
                acc,
                command_events(CMD_TSE, seq![0x00u8]),
            );
            acc = acc + command_events(CMD_TSE, seq![0x00u8]);
            assert(self.transport.events() == base + acc);
        }
        let cdi: [u8; 1] = [(border << 5) | 0x17];
        match send_command(&mut self.transport, CMD_CDI, cdi.as_slice()) {
            Ok(()) => {},
            Err(e) => {
                proof {
                    assert(cdi@ =~= seq![cdi_byte(border)]);
                    let n = choose|n: int|
                        0 <= n <= command_events(CMD_CDI, seq![cdi_byte(border)]).len()
                            && self.transport.events() == (base + acc) + command_events(
                            CMD_CDI,
                            seq![cdi_byte(border)],
                        ).subrange(0, n);
                    assert((acc + command_events(CMD_CDI, seq![cdi_byte(border)])) =~= setup_events(
                        border,
                        k0@,
                    ).subrange(0, (acc + command_events(CMD_CDI, seq![cdi_byte(border)])).len() as int));
                    assert((acc + command_events(CMD_CDI, seq![cdi_byte(border)])).len() <= setup_events(
                        border,
                        k0@,
                    ).len());
                    lemma_abort_prefix(
                        self.transport.events(),
                        base,
                        acc,
                        command_events(CMD_CDI, seq![cdi_byte(border)]).subrange(0, n),
                        command_events(CMD_CDI, seq![cdi_byte(border)]),
                        setup_events(border, k0@),
                    );
                }
                return (Err(e), Ghost(0nat));
            },
        }
        proof {
            assert(cdi@ =~= seq![cdi_byte(border)]);
            vstd::seq_lib::lemma_concat_associative(
                base,
                acc,
                command_events(CMD_CDI, seq![cdi_byte(border)]),
            );
            acc = acc + command_events(CMD_CDI, seq![cdi_byte(border)]);
            assert(self.transport.events() == base + acc);
        }
        let tcon: [u8; 1] = [0x22];
        match send_command(&mut self.transport, CMD_TCON, tcon.as_slice()) {
            Ok(()) => {},
            Err(e) => {
                proof {
                    assert(tcon@ =~= seq![0x22u8]);
                    let n = choose|n: int|
                        0 <= n <= command_events(CMD_TCON, seq![0x22u8]).len()
                            && self.transport.events() == (base + acc) + command_events(
                            CMD_TCON,
                            seq![0x22u8],
                        ).subrange(0, n);
                    assert((acc + command_events(CMD_TCON, seq![0x22u8])) =~= setup_events(
                        border,
                        k0@,
                    ).subrange(0, (acc + command_events(CMD_TCON, seq![0x22u8])).len() as int));
                    assert((acc + command_events(CMD_TCON, seq![0x22u8])).len() <= setup_events(
                        border,
                        k0@,
                    ).len());
                    lemma_abort_prefix(
                        self.transport.events(),
                        base,
                        acc,
                        command_events(CMD_TCON, seq![0x22u8]).subrange(0, n),
                        command_events(CMD_TCON, seq![0x22u8]),
                        setup_events(border, k0@),
                    );
                }
                return (Err(e), Ghost(0nat));
            },
        }
        proof {
            assert(tcon@ =~= seq![0x22u8]);
            vstd::seq_lib::lemma_concat_associative(
                base,
                acc,
                command_events(CMD_TCON, seq![0x22u8]),
            );
            acc = acc + command_events(CMD_TCON, seq![0x22u8]);
            assert(self.transport.events() == base + acc);
        }
        let dam: [u8; 1] = [0x00];
        match send_command(&mut self.transport, CMD_DAM, dam.as_slice()) {
            Ok(()) => {},
            Err(e) => {
                proof {
                    assert(dam@ =~= seq![0x00u8]);
                    let n = choose|n: int|
                        0 <= n <= command_events(CMD_DAM, seq![0x00u8]).len()
                            && self.transport.events() == (base + acc) + command_events(
                            CMD_DAM,
                            seq![0x00u8],
                        ).subrange(0, n);
                    assert((acc + command_events(CMD_DAM, seq![0x00u8])) =~= setup_events(
                        border,
                        k0@,
                    ).subrange(0, (acc + command_events(CMD_DAM, seq![0x00u8])).len() as int));
                    assert((acc + command_events(CMD_DAM, seq![0x00u8])).len() <= setup_events(
                        border,
                        k0@,
                    ).len());
                    lemma_abort_prefix(
                        self.transport.events(),
                        base,
                        acc,
                        command_events(CMD_DAM, seq![0x00u8]).subrange(0, n),
                        command_events(CMD_DAM, seq![0x00u8]),
                        setup_events(border, k0@),
                    );
                }
                return (Err(e), Ghost(0nat));
            },
        }
        proof {
            assert(dam@ =~= seq![0x00u8]);
            vstd::seq_lib::lemma_concat_associative(
                base,
                acc,
                command_events(CMD_DAM, seq![0x00u8]),
            );
            acc = acc + command_events(CMD_DAM, seq![0x00u8]);
            assert(self.transport.events() == base + acc);
        }
        let pws: [u8; 1] = [0xAA];
        match send_command(&mut self.transport, CMD_PWS, pws.as_slice()) {
            Ok(()) => {},
            Err(e) => {
                proof {
                    assert(pws@ =~= seq![0xAAu8]);
                    let n = choose|n: int|
                        0 <= n <= command_events(CMD_PWS, seq![0xAAu8]).len()
                            && self.transport.events() == (base + acc) + command_events(
                            CMD_PWS,
                            seq![0xAAu8],
                        ).subrange(0, n);
                    assert((acc + command_events(CMD_PWS, seq![0xAAu8])) =~= setup_events(
                        border,
                        k0@,
                    ).subrange(0, (acc + command_events(CMD_PWS, seq![0xAAu8])).len() as int));
                    assert((acc + command_events(CMD_PWS, seq![0xAAu8])).len() <= setup_events(
                        border,
                        k0@,
                    ).len());
                    lemma_abort_prefix(
                        self.transport.events(),
                        base,
                        acc,
                        command_events(CMD_PWS, seq![0xAAu8]).subrange(0, n),
                        command_events(CMD_PWS, seq![0xAAu8]),
                        setup_events(border, k0@),
                    );
                }
                return (Err(e), Ghost(0nat));
            },
        }
        proof {
            assert(pws@ =~= seq![0xAAu8]);
            vstd::seq_lib::lemma_concat_associative(
                base,
                acc,
                command_events(CMD_PWS, seq![0xAAu8]),
            );
            acc = acc + command_events(CMD_PWS, seq![0xAAu8]);
            assert(self.transport.events() == base + acc);
        }
        let pfs: [u8; 1] = [0x00];
        match send_command(&mut self.transport, CMD_PFS, pfs.as_slice()) {
            Ok(()) => {},
            Err(e) => {
                proof {
                    assert(pfs@ =~= seq![0x00u8]);
                    let n = choose|n: int|
                        0 <= n <= command_events(CMD_PFS, seq![0x00u8]).len()
                            && self.transport.events() == (base + acc) + command_events(
                            CMD_PFS,
                            seq![0x00u8],
                        ).subrange(0, n);
                    assert((acc + command_events(CMD_PFS, seq![0x00u8])) =~= setup_events(
                        border,
                        k0@,
                    ).subrange(0, (acc + command_events(CMD_PFS, seq![0x00u8])).len() as int));
                    assert((acc + command_events(CMD_PFS, seq![0x00u8])).len() <= setup_events(
                        border,
                        k0@,
                    ).len());
                    lemma_abort_prefix(
                        self.transport.events(),
                        base,
                        acc,
                        command_events(CMD_PFS, seq![0x00u8]).subrange(0, n),
                        command_events(CMD_PFS, seq![0x00u8]),
                        setup_events(border, k0@),
                    );
                }
                return (Err(e), Ghost(0nat));
            },
        }
        proof {
            assert(pfs@ =~= seq![0x00u8]);
            vstd::seq_lib::lemma_concat_associative(
                base,
                acc,
                command_events(CMD_PFS, seq![0x00u8]),
            );
            acc = acc + command_events(CMD_PFS, seq![0x00u8]);
            assert(self.transport.events() == base + acc);
            assert(acc == setup_events(border, k0@));
        }
        (Ok(()), k0)
    }

    /// Presents the framebuffer: runs the configuration phase, transfers
    /// the packed buffer, then powers on, triggers the refresh and powers
    /// off, waiting on the busy line after each of the four steps. On
    /// success the transport has observed exactly the documented command
    /// sequence for this framebuffer and border color; on failure the
    /// sequence stops at the failing operation and the framebuffer is
    /// left untouched either way.
    #[verifier::rlimit(80)]
    pub fn show(&mut self) -> (r: Result<(), TransportError>)
        requires
            old(self).wf(),
        ensures
            final(self).wf(),
            final(self).buffer_view() == old(self).buffer_view(),
            final(self).config_view() == old(self).config_view(),
            final(self).transport_infallible() == old(self).transport_infallible(),
            r is Ok ==> exists|k0: nat, k1: nat, k2: nat, k3: nat, k4: nat|
                final(self).events() == old(self).events() + show_events(
                    old(self).buffer_view(),
                    color_code(old(self).config_view().border_color),
                    k0,
                    k1,
                    k2,
                    k3,
                    k4,
                ),
            r is Err ==> exists|k0: nat, k1: nat, k2: nat, k3: nat, k4: nat, n: int| #![auto]
                0 <= n <= show_events(
                    old(self).buffer_view(),
                    color_code(old(self).config_view().border_color),
                    k0,
                    k1,
                    k2,
                    k3,
                    k4,
                ).len() && final(self).events() == old(self).events() + show_events(
                    old(self).buffer_view(),
                    color_code(old(self).config_view().border_color),
                    k0,
                    k1,
                    k2,
                    k3,
                    k4,
                ).subrange(0, n),
            old(self).transport_infallible() ==> r is Ok,
    {
        let ghost base = self.transport.events();
        let ghost border = color_code(self.config.border_color);
        let (st, k0) = self.setup();
        match st {
            Ok(()) => {},
            Err(e) => {
                proof {
                    let (k, n) = choose|k: nat, n: int|
                        0 <= n <= setup_events(border, k).len() && self.transport.events()
                            == base + setup_events(border, k).subrange(0, n);
                    assert(setup_events(border, k).subrange(0, n) =~= show_events(
                        old(self).buffer_view(),
                        border,
                        k,
                        0nat,
                        0nat,
                        0nat,
                        0nat,
                    ).subrange(0, n));
                    assert(0 <= n <= show_events(
                        old(self).buffer_view(),
                        border,
                        k,
                        0nat,
                        0nat,
                        0nat,
                        0nat,
                    ).len());
                }
                return Err(e);
            },
        }
        let ghost mut acc: Seq<BusEvent> = setup_events(border, k0@);
        proof {
            assert(self.transport.events() == base + acc);
        }
        match send_command(&mut self.transport, CMD_DTM1, self.buffer.as_slice()) {
            Ok(()) => {},
            Err(e) => {
                proof {
                    let n = choose|n: int|
                        0 <= n <= command_events(CMD_DTM1, old(self).buffer_view()).len() && self.transport.events() == (base + acc)
                            + command_events(CMD_DTM1, old(self).buffer_view()).subrange(0, n);
                    assert((acc + command_events(CMD_DTM1, old(self).buffer_view())) =~= show_events(
                        old(self).buffer_view(),
                        border,
                        k0@,
                        0nat,
                        0nat,
                        0nat,
                        0nat,
                    ).subrange(
                        0,
                        (acc + command_events(CMD_DTM1, old(self).buffer_view())).len() as int,
                    ));
                    assert((acc + command_events(CMD_DTM1, old(self).buffer_view())).len() <= show_events(
                        old(self).buffer_view(),
                        border,
                        k0@,
                        0nat,
                        0nat,
                        0nat,
                        0nat,
                    ).len());
                    lemma_abort_prefix(
                        self.transport.events(),
                        base,
                        acc,
                        command_events(CMD_DTM1, old(self).buffer_view()).subrange(0, n),
                        command_events(CMD_DTM1, old(self).buffer_view()),
                        show_events(
                        old(self).buffer_view(),
                        border,
                        k0@,
                        0nat,
                        0nat,
                        0nat,
                        0nat,
                    ),
                    );
                }
                return Err(e);
            },
        }
        proof {
            vstd::seq_lib::lemma_concat_associative(
                base,
                acc,
                command_events(CMD_DTM1, old(self).buffer_view()),
            );
            acc = acc + command_events(CMD_DTM1, old(self).buffer_view());
            assert(self.transport.events() == base + acc);
        }
        let (b1, k1) = busy_wait(&mut self.transport);
        match b1 {
            Ok(()) => {},
            Err(e) => {
                proof {
                    lemma_low_polls_len(k1@);
                    assert(low_polls(k1@) =~= wait_events(k1@).subrange(
                        0,
                        low_polls(k1@).len() as int,
                    ));
                    assert((acc + wait_events(k1@)) =~= show_events(
                        old(self).buffer_view(),
                        border,
                        k0@,
                        k1@,
                        0nat,
                        0nat,
                        0nat,
                    ).subrange(
                        0,
                        (acc + wait_events(k1@)).len() as int,
                    ));
                    assert((acc + wait_events(k1@)).len() <= show_events(
                        old(self).buffer_view(),
                        border,
                        k0@,
                        k1@,
                        0nat,
                        0nat,
                        0nat,
                    ).len());
                    lemma_abort_prefix(
                        self.transport.events(),
                        base,
                        acc,
                        low_polls(k1@),
                        wait_events(k1@),
                        show_events(
                        old(self).buffer_view(),
                        border,
                        k0@,
                        k1@,
                        0nat,
                        0nat,
                        0nat,
                    ),
                    );
                }
                return Err(e);
            },
        }
        proof {
            vstd::seq_lib::lemma_concat_associative(base, acc, wait_events(k1@));
            acc = acc + wait_events(k1@);
            assert(self.transport.events() == base + acc);
        }
        let none: [u8; 0] = [];
        match send_command(&mut self.transport, CMD_PON, none.as_slice()) {
            Ok(()) => {},
            Err(e) => {
                proof {
                    assert(none@ =~= Seq::<u8>::empty());
                    let n = choose|n: int|
                        0 <= n <= command_events(CMD_PON, Seq::<u8>::empty()).len() && self.transport.events() == (base + acc)
                            + command_events(CMD_PON, Seq::<u8>::empty()).subrange(0, n);
                    assert((acc + command_events(CMD_PON, Seq::<u8>::empty())) =~= show_events(
                        old(self).buffer_view(),
                        border,
                        k0@,
                        k1@,
                        0nat,
                        0nat,
                        0nat,
                    ).subrange(
                        0,
                        (acc + command_events(CMD_PON, Seq::<u8>::empty())).len() as int,
                    ));
                    assert((acc + command_events(CMD_PON, Seq::<u8>::empty())).len() <= show_events(
                        old(self).buffer_view(),
                        border,
                        k0@,
                        k1@,
                        0nat,
                        0nat,
                        0nat,
                    ).len());
                    lemma_abort_prefix(
                        self.transport.events(),
                        base,
                        acc,
                        command_events(CMD_PON, Seq::<u8>::empty()).subrange(0, n),
                        command_events(CMD_PON, Seq::<u8>::empty()),
                        show_events(
                        old(self).buffer_view(),
                        border,
                        k0@,
                        k1@,
                        0nat,
                        0nat,
                        0nat,
                    ),
                    );
                }
                return Err(e);
            },
        }
        proof {
            assert(none@ =~= Seq::<u8>::empty());
            vstd::seq_lib::lemma_concat_associative(
                base,
                acc,
                command_events(CMD_PON, Seq::empty()),
            );
            acc = acc + command_events(CMD_PON, Seq::empty());
            assert(self.transport.events() == base + acc);
        }
        let (b2, k2) = busy_wait(&mut self.transport);
        match b2 {
            Ok(()) => {},
            Err(e) => {
                proof {
                    lemma_low_polls_len(k2@);
                    assert(low_polls(k2@) =~= wait_events(k2@).subrange(
                        0,
                        low_polls(k2@).len() as int,
                    ));
                    assert((acc + wait_events(k2@)) =~= show_events(
                        old(self).buffer_view(),
                        border,
                        k0@,
                        k1@,
                        k2@,
                        0nat,
                        0nat,
                    ).subrange(
                        0,
                        (acc + wait_events(k2@)).len() as int,
                    ));
                    assert((acc + wait_events(k2@)).len() <= show_events(
                        old(self).buffer_view(),
                        border,
                        k0@,
                        k1@,
                        k2@,
                        0nat,
                        0nat,
                    ).len());
                    lemma_abort_prefix(
                        self.transport.events(),
                        base,
                        acc,
                        low_polls(k2@),
                        wait_events(k2@),
                        show_events(
                        old(self).buffer_view(),
                        border,
                        k0@,
                        k1@,
                        k2@,
                        0nat,
                        0nat,
                    ),
                    );
                }
                return Err(e);
            },
        }
        proof {
            vstd::seq_lib::lemma_concat_associative(base, acc, wait_events(k2@));
            acc = acc + wait_events(k2@);
            assert(self.transport.events() == base + acc);
        }
        match send_command(&mut self.transport, CMD_DRF, none.as_slice()) {
            Ok(()) => {},
            Err(e) => {
                proof {
                    assert(none@ =~= Seq::<u8>::empty());
                    let n = choose|n: int|
                        0 <= n <= command_events(CMD_DRF, Seq::<u8>::empty()).len() && self.transport.events() == (base + acc)
                            + command_events(CMD_DRF, Seq::<u8>::empty()).subrange(0, n);
                    assert((acc + command_events(CMD_DRF, Seq::<u8>::empty())) =~= show_events(
                        old(self).buffer_view(),
                        border,
                        k0@,
                        k1@,
                        k2@,
                        0nat,
                        0nat,
                    ).subrange(
                        0,
                        (acc + command_events(CMD_DRF, Seq::<u8>::empty())).len() as int,
                    ));
                    assert((acc + command_events(CMD_DRF, Seq::<u8>::empty())).len() <= show_events(
                        old(self).buffer_view(),
                        border,
                        k0@,
                        k1@,
                        k2@,
                        0nat,
                        0nat,
                    ).len());
                    lemma_abort_prefix(
                        self.transport.events(),
                        base,
                        acc,
                        command_events(CMD_DRF, Seq::<u8>::empty()).subrange(0, n),
                        command_events(CMD_DRF, Seq::<u8>::empty()),
                        show_events(
                        old(self).buffer_view(),
                        border,
                        k0@,
                        k1@,
                        k2@,
                        0nat,
                        0nat,
                    ),
                    );
                }
                return Err(e);
            },
        }
        proof {
            vstd::seq_lib::lemma_concat_associative(
                base,
                acc,
                command_events(CMD_DRF, Seq::empty()),
            );
            acc = acc + command_events(CMD_DRF, Seq::empty());
            assert(self.transport.events() == base + acc);
        }
        let (b3, k3) = busy_wait(&mut self.transport);
        match b3 {
            Ok(()) => {},
            Err(e) => {
                proof {
                    lemma_low_polls_len(k3@);
                    assert(low_polls(k3@) =~= wait_events(k3@).subrange(
                        0,
                        low_polls(k3@).len() as int,
                    ));
                    assert((acc + wait_events(k3@)) =~= show_events(
                        old(self).buffer_view(),
                        border,
                        k0@,
                        k1@,
                        k2@,
                        k3@,
                        0nat,
                    ).subrange(
                        0,
                        (acc + wait_events(k3@)).len() as int,
                    ));
                    assert((acc + wait_events(k3@)).len() <= show_events(
                        old(self).buffer_view(),
                        border,
                        k0@,
                        k1@,
                        k2@,
                        k3@,
                        0nat,
                    ).len());
                    lemma_abort_prefix(
                        self.transport.events(),
                        base,
                        acc,
                        low_polls(k3@),
                        wait_events(k3@),
                        show_events(
                        old(self).buffer_view(),
                        border,
                        k0@,
                        k1@,
                        k2@,
                        k3@,
                        0nat,
                    ),
                    );
                }
                return Err(e);
            },
        }
        proof {
            vstd::seq_lib::lemma_concat_associative(base, acc, wait_events(k3@));
            acc = acc + wait_events(k3@);
            assert(self.transport.events() == base + acc);
        }
        match send_command(&mut self.transport, CMD_POF, none.as_slice()) {
            Ok(()) => {},
            Err(e) => {
                proof {
                    assert(none@ =~= Seq::<u8>::empty());
                    let n = choose|n: int|
                        0 <= n <= command_events(CMD_POF, Seq::<u8>::empty()).len() && self.transport.events() == (base + acc)
                            + command_events(CMD_POF, Seq::<u8>::empty()).subrange(0, n);
                    assert((acc + command_events(CMD_POF, Seq::<u8>::empty())) =~= show_events(
                        old(self).buffer_view(),
                        border,
                        k0@,
                        k1@,
                        k2@,
                        k3@,
                        0nat,
                    ).subrange(
                        0,
                        (acc + command_events(CMD_POF, Seq::<u8>::empty())).len() as int,
                    ));
                    assert((acc + command_events(CMD_POF, Seq::<u8>::empty())).len() <= show_events(
                        old(self).buffer_view(),
                        border,
                        k0@,
                        k1@,
                        k2@,
                        k3@,
                        0nat,
                    ).len());
                    lemma_abort_prefix(
                        self.transport.events(),
                        base,
                        acc,
                        command_events(CMD_POF, Seq::<u8>::empty()).subrange(0, n),
                        command_events(CMD_POF, Seq::<u8>::empty()),
                        show_events(
                        old(self).buffer_view(),
                        border,
                        k0@,
                        k1@,
                        k2@,
                        k3@,
                        0nat,
                    ),
                    );
                }
                return Err(e);
            },
        }
        proof {
            vstd::seq_lib::lemma_concat_associative(
                base,
                acc,
                command_events(CMD_POF, Seq::empty()),
            );
            acc = acc + command_events(CMD_POF, Seq::empty());
            assert(self.transport.events() == base + acc);
        }
        let (b4, k4) = busy_wait(&mut self.transport);
        match b4 {
            Ok(()) => {},
            Err(e) => {
                proof {
                    lemma_low_polls_len(k4@);
                    assert(low_polls(k4@) =~= wait_events(k4@).subrange(
                        0,
                        low_polls(k4@).len() as int,
                    ));
                    assert((acc + wait_events(k4@)) =~= show_events(
                        old(self).buffer_view(),
                        border,
                        k0@,
                        k1@,
                        k2@,
                        k3@,
                        k4@,
                    ).subrange(
                        0,
                        (acc + wait_events(k4@)).len() as int,
                    ));
                    assert((acc + wait_events(k4@)).len() <= show_events(
                        old(self).buffer_view(),
                        border,
                        k0@,
                        k1@,
                        k2@,
                        k3@,
                        k4@,
                    ).len());
                    lemma_abort_prefix(
                        self.transport.events(),
                        base,
                        acc,
                        low_polls(k4@),
                        wait_events(k4@),
                        show_events(
                        old(self).buffer_view(),
                        border,
                        k0@,
                        k1@,
                        k2@,
                        k3@,
                        k4@,
                    ),
                    );
                }
                return Err(e);
            },
        }
        proof {
            vstd::seq_lib::lemma_concat_associative(base, acc, wait_events(k4@));
            acc = acc + wait_events(k4@);
            assert(self.transport.events() == base + acc);
            assert(acc == show_events(
                old(self).buffer_view(),
                border,
                k0@,
                k1@,
                k2@,
                k3@,
                k4@,
            ));
            assert(self.transport.events() == old(self).events() + show_events(
                old(self).buffer_view(),
                border,
                k0@,
                k1@,
                k2@,
                k3@,
                k4@,
            ));
        }
        Ok(())
    }
}

/// Writing a pixel twice leaves exactly that pixel at the second color
/// and every other pixel as it was before either write.
pub proof fn lemma_set_pixel_overwrite(buf: Seq<u8>, x: int, y: int, c1: u8, c2: u8)
    requires
        buf_wf(buf),
        0 <= x < 600,
        0 <= y < 448,
        c1 < 8,
        c2 < 8,
    ensures
        pixel_code(spec_set_pixel(spec_set_pixel(buf, x, y, c1), x, y, c2), x, y) == c2,
        forall|x2: int, y2: int|
            0 <= x2 < 600 && 0 <= y2 < 448 && (x2 != x || y2 != y) ==> pixel_code(
                spec_set_pixel(spec_set_pixel(buf, x, y, c1), x, y, c2),
                x2,
                y2,
            ) == pixel_code(buf, x2, y2),
{
    lemma_set_pixel_effect(buf, x, y, c1);
    lemma_set_pixel_effect(spec_set_pixel(buf, x, y, c1), x, y, c2);
}

/// Largest byte count handed to the serial transport in one write.
pub const SPI_CHUNK_SIZE: usize = 4096;

/// Panel Setting command code.
pub const CMD_PSR: u8 = 0x00;

/// Power Setting command code.
pub const CMD_PWR: u8 = 0x01;

/// Power Off command code.
pub const CMD_POF: u8 = 0x02;

/// Power-off sequence timing command code.
pub const CMD_PFS: u8 = 0x03;

/// Power On command code.
pub const CMD_PON: u8 = 0x04;

/// Data transfer command code.
pub const CMD_DTM1: u8 = 0x10;

/// Display refresh trigger command code.
pub const CMD_DRF: u8 = 0x12;

/// PLL clock command code.
pub const CMD_PLL: u8 = 0x30;

/// Temperature sensor enable command code.
pub const CMD_TSE: u8 = 0x41;

/// VCOM/data interval command code.
pub const CMD_CDI: u8 = 0x50;

/// Gate/source non-overlap command code.
pub const CMD_TCON: u8 = 0x60;

/// Resolution setting command code.
pub const CMD_TRES: u8 = 0x61;

/// External flash disable command code.
pub const CMD_DAM: u8 = 0x65;

/// Power saving command code.
pub const CMD_PWS: u8 = 0xE3;

/// The serial writes a payload is split into: successive chunks of at
/// most `SPI_CHUNK_SIZE` bytes, in order.
pub open spec fn chunk_events(data: Seq<u8>) -> Seq<BusEvent>
    decreases data.len(),
{
    if data.len() <= 4096 {
        seq![BusEvent::Write(data)]
    } else {
        seq![BusEvent::Write(data.take(4096))] + chunk_events(data.skip(4096))
    }
}

/// The bus events of one framed command: select line low, the command
/// code byte, and for a non-empty payload the select line high followed
/// by the chunked payload writes.
pub open spec fn command_events(code: u8, data: Seq<u8>) -> Seq<BusEvent> {
    if data.len() == 0 {
        seq![BusEvent::Select(Level::Low), BusEvent::Write(seq![code])]
    } else {
        seq![
            BusEvent::Select(Level::Low),
            BusEvent::Write(seq![code]),
            BusEvent::Select(Level::High),
        ] + chunk_events(data)
    }
}

/// `k` rounds of polling the busy line low and sleeping 10 ms.
pub open spec fn low_polls(k: nat) -> Seq<BusEvent>
    decreases k,
{
    if k == 0 {
        Seq::empty()
    } else {
        low_polls((k - 1) as nat) + seq![BusEvent::PollBusy(Level::Low), BusEvent::Delay(10)]
    }
}

/// A complete busy wait: some rounds of low polls, then one poll that
/// reads the line high.
pub open spec fn wait_events(k: nat) -> Seq<BusEvent> {
    low_polls(k) + seq![BusEvent::PollBusy(Level::High)]
}

/// The reset pulse: reset low, 100 ms, reset high, 100 ms.
pub open spec fn reset_events() -> Seq<BusEvent> {
    seq![
        BusEvent::Reset(Level::Low),
        BusEvent::Delay(100),
        BusEvent::Reset(Level::High),
        BusEvent::Delay(100),
    ]
}

/// TRES payload: big-endian 16-bit width then big-endian 16-bit height.
pub open spec fn tres_data() -> Seq<u8> {
    seq![0x02u8, 0x58u8, 0x01u8, 0xC0u8]
}

/// PSR payload: resolution select, external-flash LUT, scan directions,
/// DC-DC converter on, no soft reset; then the seven-color mode byte.
pub open spec fn psr_data() -> Seq<u8> {
    seq![0xEFu8, 0x08u8]
}

/// PWR payload: internal DC-DC source/gate/logic enables and the two
/// fixed voltage-level bytes.
pub open spec fn pwr_data() -> Seq<u8> {
    seq![0x37u8, 0x00u8, 0x23u8, 0x23u8]
}

/// CDI payload byte: the border color code in the top three bits combined
/// with the fixed VCOM/data interval constant.
pub open spec fn cdi_byte(border: u8) -> u8 {
    ((border << 5) as u8) | 0x17
}

/// Every bus event of the configuration phase, in order: reset pulse, one
/// busy wait, then the ten fixed configuration commands.
pub open spec fn setup_events(border: u8, k: nat) -> Seq<BusEvent> {
    reset_events() + wait_events(k) + command_events(CMD_TRES, tres_data()) + command_events(
        CMD_PSR,
        psr_data(),
    ) + command_events(CMD_PWR, pwr_data()) + command_events(CMD_PLL, seq![0x3Cu8])
        + command_events(CMD_TSE, seq![0x00u8]) + command_events(CMD_CDI, seq![cdi_byte(border)])
        + command_events(CMD_TCON, seq![0x22u8]) + command_events(CMD_DAM, seq![0x00u8])
        + command_events(CMD_PWS, seq![0xAAu8]) + command_events(CMD_PFS, seq![0x00u8])
}

/// Every bus event of one full refresh: configuration, the framebuffer
/// transfer, then power-on, refresh and power-off, each followed by a
/// busy wait. The `k` parameters count the low polls of each busy wait.
pub open spec fn show_events(
    buffer: Seq<u8>,
    border: u8,
    k0: nat,
    k1: nat,
    k2: nat,
    k3: nat,
    k4: nat,
) -> Seq<BusEvent> {
    setup_events(border, k0) + command_events(CMD_DTM1, buffer) + wait_events(k1)
        + command_events(CMD_PON, Seq::empty()) + wait_events(k2) + command_events(
        CMD_DRF,
        Seq::empty(),
    ) + wait_events(k3) + command_events(CMD_POF, Seq::empty()) + wait_events(k4)
}

/// The payload bytes carried by a run of serial-write events, in order.
pub open spec fn concat_writes(s: Seq<BusEvent>) -> Seq<u8>
    decreases s.len(),
{
    if s.len() == 0 {
        Seq::empty()
    } else {
        (match s[0] {
            BusEvent::Write(d) => d,
            _ => Seq::empty(),
        }) + concat_writes(s.skip(1))
    }
}

/// How many serial writes a payload of `len` bytes is split into.
pub open spec fn chunk_count(len: int) -> int {
    (len - 1) / 4096 + 1
}

/// Chunking is observation-preserving: a non-empty payload becomes
/// exactly `chunk_count` serial writes, every one of them a write event,
/// and concatenating their bytes restores the payload unchanged.
pub proof fn lemma_chunk_events_structure(data: Seq<u8>)
    requires
        data.len() >= 1,
    ensures
        chunk_events(data).len() == chunk_count(data.len() as int),
        forall|j: int| 0 <= j < chunk_events(data).len() ==> chunk_events(data)[j] is Write,
        concat_writes(chunk_events(data)) == data,
    decreases data.len(),
{
    reveal_with_fuel(concat_writes, 3);
    if data.len() <= 4096 {
        assert(chunk_events(data) =~= seq![BusEvent::Write(data)]);
        assert(chunk_events(data).skip(1) =~= Seq::<BusEvent>::empty());
        assert(chunk_count(data.len() as int) == 1) by {
            assert((data.len() - 1) as int / 4096 == 0);
        }
        assert(concat_writes(chunk_events(data)) =~= data);
    } else {
        let head = data.take(4096);
        let tail = data.skip(4096);
        lemma_chunk_events_structure(tail);
        assert(chunk_events(data) == seq![BusEvent::Write(head)] + chunk_events(tail));
        assert(chunk_events(data).len() == 1 + chunk_events(tail).len());
        assert(chunk_count(data.len() as int) == 1 + chunk_count(tail.len() as int)) by {
            vstd::arithmetic::div_mod::lemma_hoist_over_denominator(
                data.len() - 4096 - 1,
                1,
                4096nat,
            );
        }
        assert forall|j: int| 0 <= j < chunk_events(data).len() implies chunk_events(
            data,
        )[j] is Write by {
            if j > 0 {
                assert(chunk_events(data)[j] == chunk_events(tail)[j - 1]);
            }
        }
        assert((seq![BusEvent::Write(head)] + chunk_events(tail)).skip(1) =~= chunk_events(
            tail,
        ));
        assert(concat_writes(chunk_events(data)) == head + concat_writes(chunk_events(tail)));
        assert(head + tail =~= data);
    }
}

/// Framebuffer transfer chunking: the full packed framebuffer goes out as
/// one framed command whose select line rises once, followed by exactly 33
/// serial writes that together carry the buffer bit-exactly.
pub proof fn lemma_dtm1_chunking(data: Seq<u8>)
    requires
        data.len() == BUFFER_LEN,
    ensures
        command_events(CMD_DTM1, data) == seq![
            BusEvent::Select(Level::Low),
            BusEvent::Write(seq![CMD_DTM1]),
            BusEvent::Select(Level::High),
        ] + chunk_events(data),
        chunk_events(data).len() == 33,
        forall|j: int| 0 <= j < chunk_events(data).len() ==> chunk_events(data)[j] is Write,
        concat_writes(chunk_events(data)) == data,
{
    lemma_chunk_events_structure(data);
    assert(chunk_count(134400) == 33) by {
        assert(134399int / 4096 == 32);
    }
}

/// `p` is an initial segment of `s`.
pub open spec fn is_prefix_of(p: Seq<BusEvent>, s: Seq<BusEvent>) -> bool {
    p.len() <= s.len() && p == s.subrange(0, p.len() as int)
}

/// `k` rounds of low polls are two events each.
proof fn lemma_low_polls_len(k: nat)
    ensures
        low_polls(k).len() == 2 * k,
    decreases k,
{
    if k > 0 {
        lemma_low_polls_len((k - 1) as nat);
    }
}

/// Stitches an aborted step into a prefix of the whole sequence: if the
/// log grew by the completed segments `acc` plus `part` of the next
/// segment `seg`, and `acc + seg` begins `full`, then the log extension
/// is an initial segment of `full`.
proof fn lemma_abort_prefix(
    events: Seq<BusEvent>,
    base: Seq<BusEvent>,
    acc: Seq<BusEvent>,
    part: Seq<BusEvent>,
    seg: Seq<BusEvent>,
    full: Seq<BusEvent>,
)
    requires
        events == (base + acc) + part,
        is_prefix_of(part, seg),
        is_prefix_of(acc + seg, full),
    ensures
        0 <= acc.len() + part.len() <= full.len(),
        events == base + full.subrange(0, acc.len() + part.len() as int),
{
    assert(acc + part =~= full.subrange(0, acc.len() + part.len() as int));
    assert(events =~= base + full.subrange(0, acc.len() + part.len() as int));
}

/// Writes `data` to the serial line in order, split into chunks of at
/// most `SPI_CHUNK_SIZE` bytes. A failure aborts at once, leaving some
/// initial run of complete chunks transmitted.
fn write_chunks<T: Transport>(t: &mut T, data: &[u8]) -> (r: Result<(), TransportError>)
    requires
        data@.len() >= 1,
    ensures
        r is Ok ==> final(t).events() == old(t).events() + chunk_events(data@),
        r is Err ==> exists|n: int| #![auto]
            0 <= n <= chunk_events(data@).len() && final(t).events() == old(t).events()
                + chunk_events(data@).subrange(0, n),
        old(t).infallible() ==> r is Ok,
        final(t).infallible() == old(t).infallible(),
    decreases data@.len(),
{
    if data.len() <= SPI_CHUNK_SIZE {
        match t.write_bytes(data) {
            Ok(()) => {
                proof {
                    assert(t.events() =~= old(t).events() + chunk_events(data@));
                }
                Ok(())
            },
            Err(e) => {
                proof {
                    assert(t.events() =~= old(t).events() + chunk_events(data@).subrange(0, 0));
                }
                Err(e)
            },
        }
    } else {
        let head = vstd::slice::slice_subrange(data, 0, SPI_CHUNK_SIZE);
        match t.write_bytes(head) {
            Ok(()) => {},
            Err(e) => {
                proof {
                    assert(t.events() =~= old(t).events() + chunk_events(data@).subrange(0, 0));
                }
                return Err(e);
            },
        }
        let ghost mid = t.events();
        let tail = vstd::slice::slice_subrange(data, SPI_CHUNK_SIZE, data.len());
        match write_chunks(t, tail) {
            Ok(()) => {
                proof {
                    assert(head@ == data@.take(4096));
                    assert(tail@ == data@.skip(4096));
                    assert(t.events() == mid + chunk_events(tail@));
                    assert(t.events() =~= old(t).events() + chunk_events(data@));
                }
                Ok(())
            },
            Err(e) => {
                proof {
                    assert(head@ == data@.take(4096));
                    assert(tail@ == data@.skip(4096));
                    let n = choose|n: int|
                        0 <= n <= chunk_events(tail@).len() && t.events() == mid + chunk_events(
                            tail@,
                        ).subrange(0, n);
                    assert(t.events() =~= old(t).events() + chunk_events(data@).subrange(
                        0,
                        n + 1,
                    ));
                    assert(0 <= n + 1 <= chunk_events(data@).len());
                }
                Err(e)
            },
        }
    }
}

/// Frames one command: select low, the code byte, and for a non-empty
/// payload select high followed by the chunked payload.
fn send_command<T: Transport>(t: &mut T, code: u8, data: &[u8]) -> (r: Result<
    (),
    TransportError,
>)
    ensures
        r is Ok ==> final(t).events() == old(t).events() + command_events(code, data@),
        r is Err ==> exists|n: int| #![auto]
            0 <= n <= command_events(code, data@).len() && final(t).events() == old(t).events()
                + command_events(code, data@).subrange(0, n),
        old(t).infallible() ==> r is Ok,
        final(t).infallible() == old(t).infallible(),
{
    match t.set_dc(Level::Low) {
        Ok(()) => {},
        Err(e) => {
            proof {
                assert(t.events() =~= old(t).events() + command_events(code, data@).subrange(
                    0,
                    0,
                ));
            }
            return Err(e);
        },
    }
    let cmd: [u8; 1] = [code];
    match t.write_bytes(cmd.as_slice()) {
        Ok(()) => {},
        Err(e) => {
            proof {
                assert(t.events() =~= old(t).events() + command_events(code, data@).subrange(
                    0,
                    1,
                ));
            }
            return Err(e);
        },
    }
    proof {
        assert(cmd@ =~= seq![code]);
    }
    if data.len() > 0 {
        match t.set_dc(Level::High) {
            Ok(()) => {},
            Err(e) => {
                proof {
                    assert(t.events() =~= old(t).events() + command_events(
                        code,
                        data@,
                    ).subrange(0, 2));
                }
                return Err(e);
            },
        }
        let ghost pre = t.events();
        match write_chunks(t, data) {
            Ok(()) => {
                proof {
                    assert(t.events() == pre + chunk_events(data@));
                    assert(t.events() =~= old(t).events() + command_events(code, data@));
                }
                Ok(())
            },
            Err(e) => {
                proof {
                    let n = choose|n: int|
                        0 <= n <= chunk_events(data@).len() && t.events() == pre + chunk_events(
                            data@,
                        ).subrange(0, n);
                    assert(t.events() =~= old(t).events() + command_events(code, data@).subrange(
                        0,
                        n + 3,
                    ));
                    assert(0 <= n + 3 <= command_events(code, data@).len());
                }
                Err(e)
            },
        }
    } else {
        proof {
            assert(t.events() =~= old(t).events() + command_events(code, data@));
        }
        Ok(())
    }
}

/// Polls the busy line until it reads high, sleeping 10 ms after each low
/// read; the ghost result counts the low polls. A transport error aborts
/// the wait at once.
fn busy_wait<T: Transport>(t: &mut T) -> (r: (Result<(), TransportError>, Ghost<nat>))
    ensures
        r.0 is Ok ==> final(t).events() == old(t).events() + wait_events(r.1@),
        r.0 is Err ==> final(t).events() == old(t).events() + low_polls(r.1@),
        r.0 is Err ==> r.0->Err_0 == TransportError::BusyReadFault,
        old(t).infallible() ==> r.0 is Ok,
        final(t).infallible() == old(t).infallible(),
{
    let ghost mut k: nat = 0nat;
    loop
        invariant
            t.events() == old(t).events() + low_polls(k),
            t.infallible() == old(t).infallible(),
        decreases t.ready_within(),
    {
        match t.read_busy() {
            Err(e) => {
                return (Err(e), Ghost(k));
            },
            Ok(Level::High) => {
                proof {
                    assert(t.events() =~= old(t).events() + wait_events(k));
                }
                return (Ok(()), Ghost(k));
            },
            Ok(Level::Low) => {
                t.delay_ms(10);
                proof {
                    k = k + 1;
                    assert(t.events() =~= old(t).events() + low_polls(k));
                }
            },
        }
    }
}

/// Writes to two horizontally adjacent pixels land in the two nibbles of
/// one byte without disturbing each other.
pub proof fn lemma_adjacent_pixels_independent(buf: Seq<u8>, x: int, y: int, c1: u8, c2: u8)
    requires
        buf_wf(buf),
        0 <= x,
        x + 1 < 600,
        0 <= y < 448,
        c1 < 8,
        c2 < 8,
    ensures
        pixel_code(spec_set_pixel(spec_set_pixel(buf, x, y, c1), x + 1, y, c2), x, y) == c1,
        pixel_code(spec_set_pixel(spec_set_pixel(buf, x, y, c1), x + 1, y, c2), x + 1, y) == c2,
{
    lemma_set_pixel_effect(buf, x, y, c1);
    lemma_set_pixel_effect(spec_set_pixel(buf, x, y, c1), x + 1, y, c2);
}

} // verus!
