//! The picture that is shown while the program starts.

use crate::text::chars_of;
use vstd::arithmetic::div_mod::lemma_fundamental_div_mod_converse;
use vstd::prelude::*;

verus! {

pub const BACKGROUND: u32 = 0x00ff_ffff;

pub const FOREGROUND: u32 = 0x001c_1c20;

pub const TRACK: u32 = 0x00e6_e6ea;

pub const ACCENT: u32 = 0x001a_7fdb;

/// Whether the picture is still drawn.
#[derive(Debug, Clone, Copy, PartialEq, Eq, Structural)]
pub struct StartupRenderer {
    pub running: bool,
}

impl StartupRenderer {
    pub fn new() -> (r: Self)
        ensures
            r.running,
    {
        StartupRenderer { running: true }
    }

    pub fn stop(&mut self)
        ensures
            !final(self).running,
    {
        self.running = false;
    }
}

/// A picture: so many pixels wide and high.
pub struct Frame {
    pub width: int,
    pub height: int,
}

/// A part of a picture.
pub struct Area {
    pub x: int,
    pub y: int,
    pub width: int,
    pub height: int,
}

/// The pixel at `p` lies in the area, and in the picture.
pub open spec fn in_area(frame: Frame, area: Area, p: int) -> bool {
    let column = p % frame.width;
    let row = p / frame.width;
    &&& area.x <= column < area.x + area.width
    &&& area.y <= row < area.y + area.height
    &&& p < frame.width * frame.height
}

/// The picture with an area in one colour. Pixels behind the picture stay.
pub open spec fn painted(pixels: Seq<u32>, frame: Frame, area: Area, color: u32) -> Seq<u32> {
    Seq::new(
        pixels.len(),
        |p: int|
            if in_area(frame, area, p) {
                color
            } else {
                pixels[p]
            },
    )
}

/// The pixels painted before row `row`, and in it before column `column`.
spec fn painted_until(
    pixels: Seq<u32>,
    frame: Frame,
    area: Area,
    color: u32,
    row: int,
    column: int,
) -> Seq<u32> {
    Seq::new(
        pixels.len(),
        |p: int|
            if in_area(frame, area, p) && (p / frame.width < row || (p / frame.width == row && p
                % frame.width < column)) {
                color
            } else {
                pixels[p]
            },
    )
}

fn least(a: usize, b: usize) -> (r: usize)
    ensures
        r == if a < b {
            a
        } else {
            b
        },
{
    if a < b {
        a
    } else {
        b
    }
}

proof fn pixel_place(width: int, height: int, row: int, column: int)
    requires
        0 <= column < width,
        0 <= row < height,
    ensures
        0 <= row * width + column < width * height,
        (row * width + column) / width == row,
        (row * width + column) % width == column,
{
    assert(row * width + column < width * height) by (nonlinear_arith)
        requires
            0 <= column < width,
            0 <= row < height,
    ;
    assert(0 <= row * width) by (nonlinear_arith)
        requires
            0 <= row,
            0 < width,
    ;
    lemma_fundamental_div_mod_converse(row * width + column, width, row, column);
}

/// Paints an area, as far as it lies in the picture.
pub fn fill_rect(
    pixels: &mut Vec<u32>,
    width: usize,
    height: usize,
    x: usize,
    y: usize,
    rect_width: usize,
    rect_height: usize,
    color: u32,
)
    requires
        old(pixels)@.len() >= width * height,
        x + rect_width <= usize::MAX,
        y + rect_height <= usize::MAX,
    ensures
        final(pixels)@ == painted(
            old(pixels)@,
            (Frame { width: width as int, height: height as int }),
            (Area {
                x: x as int,
                y: y as int,
                width: rect_width as int,
                height: rect_height as int,
            }),
            color,
        ),
        final(pixels)@.skip(width * height) == old(pixels)@.skip(width * height),
{
    let ghost frame = Frame { width: width as int, height: height as int };
    let ghost area = Area {
        x: x as int,
        y: y as int,
        width: rect_width as int,
        height: rect_height as int,
    };
    let ghost before = pixels@;
    let count: usize = pixels.len();
    let right: usize = least(x + rect_width, width);
    let bottom: usize = least(y + rect_height, height);
    let left: usize = least(x, width);
    let top: usize = least(y, height);
    proof {
        assert(pixels@ =~= painted_until(before, frame, area, color, top as int, 0)) by {
            assert forall|p: int| 0 <= p < before.len() implies painted_until(
                before,
                frame,
                area,
                color,
                top as int,
                0,
            )[p] == before[p] by {
                if p < frame.width * frame.height {
                    row_is_not_negative(frame, p);
                }
            }
        }
    }
    for row in top..bottom
        invariant
            frame == (Frame { width: width as int, height: height as int }),
            area == (Area {
                x: x as int,
                y: y as int,
                width: rect_width as int,
                height: rect_height as int,
            }),
            before.len() >= width * height,
            count == before.len(),
            bottom <= height,
            right <= width,
            x + rect_width <= usize::MAX,
            y + rect_height <= usize::MAX,
            right == x + rect_width || (right == width && width <= x + rect_width),
            bottom == y + rect_height || (bottom == height && height <= y + rect_height),
            left == x || (left == width && width <= x),
            top == y || (top == height && height <= y),
            left <= width,
            pixels@ == painted_until(before, frame, area, color, row as int, 0),
    {
        proof {
            assert(pixels@ =~= painted_until(before, frame, area, color, row as int, left as int))
                by {
                assert forall|p: int| 0 <= p < before.len() implies pixels@[p] == painted_until(
                    before,
                    frame,
                    area,
                    color,
                    row as int,
                    left as int,
                )[p] by {
                    if p < frame.width * frame.height {
                        row_is_not_negative(frame, p);
                    }
                }
            }
        }
        for column in left..right
            invariant
                frame == (Frame { width: width as int, height: height as int }),
                area == (Area {
                    x: x as int,
                    y: y as int,
                    width: rect_width as int,
                    height: rect_height as int,
                }),
                before.len() >= width * height,
                count == before.len(),
                top <= row < bottom <= height,
                right <= width,
                x + rect_width <= usize::MAX,
                y + rect_height <= usize::MAX,
                right == x + rect_width || (right == width && width <= x + rect_width),
                bottom == y + rect_height || (bottom == height && height <= y + rect_height),
                left == x || (left == width && width <= x),
                top == y || (top == height && height <= y),
                pixels@ == painted_until(before, frame, area, color, row as int, column as int),
        {
            proof {
                pixel_place(width as int, height as int, row as int, column as int);
                assert(0 <= row * width) by (nonlinear_arith)
                    requires
                        row >= 0,
                        width >= 0,
                ;
            }
            let place: usize = row * width + column;
            let ghost earlier = pixels@;
            pixels.set(place, color);
            assert(pixels@ =~= painted_until(
                before,
                frame,
                area,
                color,
                row as int,
                column + 1,
            )) by {
                assert forall|p: int| 0 <= p < before.len() implies pixels@[p] == painted_until(
                    before,
                    frame,
                    area,
                    color,
                    row as int,
                    column + 1,
                )[p] by {
                    if p < frame.width * frame.height {
                        row_is_not_negative(frame, p);
                    }
                    if p != place && p < frame.width * frame.height && p / frame.width == row && p
                        % frame.width == column {
                        same_row_and_column(frame, p, place as int);
                    }
                }
            }
        }
        proof {
            assert(pixels@ =~= painted_until(before, frame, area, color, row + 1, 0)) by {
                assert forall|p: int| 0 <= p < before.len() implies pixels@[p] == painted_until(
                    before,
                    frame,
                    area,
                    color,
                    row + 1,
                    0,
                )[p] by {
                    if p < frame.width * frame.height {
                        row_is_not_negative(frame, p);
                    }
                }
            }
        }
    }
    proof {
        assert(pixels@ =~= painted(before, frame, area, color)) by {
            assert forall|p: int| 0 <= p < before.len() implies pixels@[p] == painted(
                before,
                frame,
                area,
                color,
            )[p] by {
                if p < frame.width * frame.height {
                    row_is_not_negative(frame, p);
                }
            }
        }
        assert(pixels@.skip(width * height) =~= before.skip(width * height));
    }
}

proof fn row_is_not_negative(frame: Frame, p: int)
    requires
        0 <= p,
        frame.width * frame.height > p,
        frame.width >= 0,
        frame.height >= 0,
    ensures
        frame.width > 0,
        0 <= p / frame.width < frame.height,
        0 <= p % frame.width < frame.width,
{
    assert(frame.width > 0) by (nonlinear_arith)
        requires
            frame.width * frame.height > p,
            p >= 0,
            frame.width >= 0,
    ;
    vstd::arithmetic::div_mod::lemma_div_pos_is_pos(p, frame.width);
    vstd::arithmetic::div_mod::lemma_mod_bound(p, frame.width);
    vstd::arithmetic::div_mod::lemma_fundamental_div_mod(p, frame.width);
    assert(p / frame.width < frame.height) by (nonlinear_arith)
        requires
            p == frame.width * (p / frame.width) + p % frame.width,
            0 <= p % frame.width,
            p < frame.width * frame.height,
            frame.width > 0,
    ;
}

proof fn same_row_and_column(frame: Frame, p: int, q: int)
    requires
        frame.width > 0,
        p / frame.width == q / frame.width,
        p % frame.width == q % frame.width,
    ensures
        p == q,
{
    vstd::arithmetic::div_mod::lemma_fundamental_div_mod(p, frame.width);
    vstd::arithmetic::div_mod::lemma_fundamental_div_mod(q, frame.width);
}

/// The rows of a letter; each bit is a dot, the fifth from below the leftmost.
pub open spec fn glyph_rows(c: char) -> Seq<u8> {
    if c == 'A' {
        seq![0b01110u8, 0b10001, 0b10001, 0b11111, 0b10001, 0b10001, 0b10001]
    } else if c == 'C' {
        seq![0b01111u8, 0b10000, 0b10000, 0b10000, 0b10000, 0b10000, 0b01111]
    } else if c == 'E' {
        seq![0b11111u8, 0b10000, 0b10000, 0b11110, 0b10000, 0b10000, 0b11111]
    } else if c == 'G' {
        seq![0b01111u8, 0b10000, 0b10000, 0b10111, 0b10001, 0b10001, 0b01111]
    } else if c == 'L' {
        seq![0b10000u8, 0b10000, 0b10000, 0b10000, 0b10000, 0b10000, 0b11111]
    } else if c == 'O' {
        seq![0b01110u8, 0b10001, 0b10001, 0b10001, 0b10001, 0b10001, 0b01110]
    } else if c == 'R' {
        seq![0b11110u8, 0b10001, 0b10001, 0b11110, 0b10100, 0b10010, 0b10001]
    } else if c == 'T' {
        seq![0b11111u8, 0b00100, 0b00100, 0b00100, 0b00100, 0b00100, 0b00100]
    } else if c == 'a' {
        seq![0b00000u8, 0b01110, 0b00001, 0b01111, 0b10001, 0b10011, 0b01101]
    } else if c == 'e' {
        seq![0b00000u8, 0b01110, 0b10001, 0b11111, 0b10000, 0b10000, 0b01111]
    } else if c == 'g' {
        seq![0b00000u8, 0b01110, 0b10001, 0b01111, 0b00001, 0b10001, 0b01110]
    } else if c == 'o' {
        seq![0b00000u8, 0b01110, 0b10001, 0b10001, 0b10001, 0b10001, 0b01110]
    } else if c == 'r' {
        seq![0b00000u8, 0b10110, 0b11001, 0b10000, 0b10000, 0b10000, 0b10000]
    } else if c == 't' {
        seq![0b00100u8, 0b00100, 0b11111, 0b00100, 0b00100, 0b00100, 0b00011]
    } else {
        seq![0u8, 0, 0, 0, 0, 0, 0]
    }
}

pub fn glyph(c: char) -> (r: [u8; 7])
    ensures
        r@ == glyph_rows(c),
{
    let r: [u8; 7] = if c == 'A' {
        [0b01110, 0b10001, 0b10001, 0b11111, 0b10001, 0b10001, 0b10001]
    } else if c == 'C' {
        [0b01111, 0b10000, 0b10000, 0b10000, 0b10000, 0b10000, 0b01111]
    } else if c == 'E' {
        [0b11111, 0b10000, 0b10000, 0b11110, 0b10000, 0b10000, 0b11111]
    } else if c == 'G' {
        [0b01111, 0b10000, 0b10000, 0b10111, 0b10001, 0b10001, 0b01111]
    } else if c == 'L' {
        [0b10000, 0b10000, 0b10000, 0b10000, 0b10000, 0b10000, 0b11111]
    } else if c == 'O' {
        [0b01110, 0b10001, 0b10001, 0b10001, 0b10001, 0b10001, 0b01110]
    } else if c == 'R' {
        [0b11110, 0b10001, 0b10001, 0b11110, 0b10100, 0b10010, 0b10001]
    } else if c == 'T' {
        [0b11111, 0b00100, 0b00100, 0b00100, 0b00100, 0b00100, 0b00100]
    } else if c == 'a' {
        [0b00000, 0b01110, 0b00001, 0b01111, 0b10001, 0b10011, 0b01101]
    } else if c == 'e' {
        [0b00000, 0b01110, 0b10001, 0b11111, 0b10000, 0b10000, 0b01111]
    } else if c == 'g' {
        [0b00000, 0b01110, 0b10001, 0b01111, 0b00001, 0b10001, 0b01110]
    } else if c == 'o' {
        [0b00000, 0b01110, 0b10001, 0b10001, 0b10001, 0b10001, 0b01110]
    } else if c == 'r' {
        [0b00000, 0b10110, 0b11001, 0b10000, 0b10000, 0b10000, 0b10000]
    } else if c == 't' {
        [0b00100, 0b00100, 0b11111, 0b00100, 0b00100, 0b00100, 0b00011]
    } else {
        [0, 0, 0, 0, 0, 0, 0]
    };
    assert(r@ =~= glyph_rows(c));
    r
}

/// The first `n` dots of a letter, row by row, as squares of size `scale`.
pub open spec fn dotted(
    pixels: Seq<u32>,
    frame: Frame,
    x: int,
    y: int,
    scale: int,
    rows: Seq<u8>,
    n: nat,
) -> Seq<u32>
    decreases n,
{
    if n == 0 {
        pixels
    } else {
        let earlier = dotted(pixels, frame, x, y, scale, rows, (n - 1) as nat);
        let row = (n - 1) / 5;
        let column = (n - 1) % 5;
        if rows[row] & (1u8 << ((4 - column) as u8)) != 0 {
            painted(
                earlier,
                frame,
                Area { x: x + column * scale, y: y + row * scale, width: scale, height: scale },
                FOREGROUND,
            )
        } else {
            earlier
        }
    }
}

/// A text, each letter six squares behind the one before.
pub open spec fn lettered(
    pixels: Seq<u32>,
    frame: Frame,
    x: int,
    y: int,
    scale: int,
    s: Seq<char>,
) -> Seq<u32>
    decreases s.len(),
{
    if s.len() == 0 {
        pixels
    } else {
        dotted(
            lettered(pixels, frame, x, y, scale, s.drop_last()),
            frame,
            x + (s.len() - 1) * (6 * scale),
            y,
            scale,
            glyph_rows(s.last()),
            35,
        )
    }
}

fn draw_letter(
    pixels: &mut Vec<u32>,
    width: usize,
    height: usize,
    x: usize,
    y: usize,
    scale: usize,
    c: char,
)
    requires
        old(pixels)@.len() >= width * height,
        x + 6 * scale <= usize::MAX,
        y + 7 * scale <= usize::MAX,
    ensures
        final(pixels)@ == dotted(
            old(pixels)@,
            (Frame { width: width as int, height: height as int }),
            x as int,
            y as int,
            scale as int,
            glyph_rows(c),
            35,
        ),
{
    let ghost frame = Frame { width: width as int, height: height as int };
    let ghost before = pixels@;
    let rows: [u8; 7] = glyph(c);
    for n in 0..35usize
        invariant
            frame == (Frame { width: width as int, height: height as int }),
            before.len() >= width * height,
            pixels@.len() == before.len(),
            rows@ == glyph_rows(c),
            x + 6 * scale <= usize::MAX,
            y + 7 * scale <= usize::MAX,
            pixels@ == dotted(
                before,
                frame,
                x as int,
                y as int,
                scale as int,
                glyph_rows(c),
                n as nat,
            ),
    {
        let row: usize = n / 5;
        let column: usize = n % 5;
        let bits: u8 = rows[row];
        if bits & (1u8 << ((4 - column) as u8)) != 0 {
            proof {
                assert(column * scale <= 4 * scale) by (nonlinear_arith)
                    requires
                        column <= 4,
                ;
                assert(row * scale <= 6 * scale) by (nonlinear_arith)
                    requires
                        row <= 6,
                ;
            }
            fill_rect(
                pixels,
                width,
                height,
                x + column * scale,
                y + row * scale,
                scale,
                scale,
                FOREGROUND,
            );
        }
    }
}

/// Draws a text.
pub fn draw_text(
    pixels: &mut Vec<u32>,
    width: usize,
    height: usize,
    x: usize,
    y: usize,
    scale: usize,
    s: &str,
)
    requires
        old(pixels)@.len() >= width * height,
        x + s@.len() * (6 * scale) <= usize::MAX,
        s@.len() > 0 ==> y + 7 * scale <= usize::MAX,
    ensures
        final(pixels)@ == lettered(
            old(pixels)@,
            (Frame { width: width as int, height: height as int }),
            x as int,
            y as int,
            scale as int,
            s@,
        ),
        final(pixels)@.skip(width * height) == old(pixels)@.skip(width * height),
{
    let ghost frame = Frame { width: width as int, height: height as int };
    let ghost before = pixels@;
    let chars = chars_of(s);
    assert(chars@.take(0) =~= Seq::empty());
    let mut at: usize = x;
    assert(0 * (6 * scale) == 0) by (nonlinear_arith);
    for i in 0..chars.len()
        invariant
            chars@ == s@,
            frame == (Frame { width: width as int, height: height as int }),
            before.len() >= width * height,
            pixels@.len() == before.len(),
            x + s@.len() * (6 * scale) <= usize::MAX,
            s@.len() > 0 ==> y + 7 * scale <= usize::MAX,
            at == x + i * (6 * scale),
            pixels@ == lettered(before, frame, x as int, y as int, scale as int, chars@.take(i as int)),
    {
        let ghost longer = chars@.take(i + 1);
        assert(longer.drop_last() =~= chars@.take(i as int));
        proof {
            let step = 6 * scale;
            assert((i + 1) * step <= s@.len() * step) by (nonlinear_arith)
                requires
                    i + 1 <= s@.len(),
                    step >= 0,
            ;
            assert((i + 1) * step == i * step + step) by (nonlinear_arith);
        }
        let ghost earlier = pixels@;
        draw_letter(pixels, width, height, at, y, scale, chars[i]);
        proof {
            dotted_stays_in_the_picture(
                earlier,
                frame,
                at as int,
                y as int,
                scale as int,
                glyph_rows(chars@[i as int]),
                35,
            );
        }
        at = at + 6 * scale;
    }
    assert(chars@.take(chars@.len() as int) =~= chars@);
    proof {
        lettered_stays_in_the_picture(before, frame, x as int, y as int, scale as int, s@);
        assert(pixels@.skip(width * height) =~= before.skip(width * height));
    }
}

/// How wide a text is.
pub open spec fn width_of(n: nat, scale: int) -> int {
    n * 6 * scale - scale
}

pub fn text_width(s: &str, scale: usize) -> (r: usize)
    requires
        s@.len() > 0,
        s@.len() * 6 * scale <= usize::MAX,
    ensures
        r == width_of(s@.len(), scale as int),
{
    let n: usize = s.unicode_len();
    proof {
        assert(n * 6 <= n * 6 * scale || scale == 0) by (nonlinear_arith)
            requires
                n >= 0,
                scale >= 0,
        ;
        assert(n * 6 * scale >= scale) by (nonlinear_arith)
            requires
                n >= 1,
                scale >= 0,
        ;
    }
    if scale == 0 {
        return 0;
    }
    n * 6 * scale - scale
}

pub open spec fn bounded(v: int, low: int, high: int) -> int {
    if v < low {
        low
    } else if v > high {
        high
    } else {
        v
    }
}

fn bound(v: usize, low: usize, high: usize) -> (r: usize)
    requires
        low <= high,
    ensures
        r == bounded(v as int, low as int, high as int),
{
    if v < low {
        low
    } else if v > high {
        high
    } else {
        v
    }
}

/// The size of the squares of the label.
pub open spec fn label_scale(width: int) -> int {
    bounded(width / 400, 3, 6)
}

/// How wide the bar of the progress is.
pub open spec fn bar_width(width: int) -> int {
    let wanted = bounded(width * 220 / 1200, 160, 440);
    let room = if width < 32 {
        0
    } else {
        width - 32
    };
    if wanted < room {
        wanted
    } else {
        room
    }
}

pub fn track_width(width: usize) -> (r: usize)
    requires
        width * 220 <= usize::MAX,
    ensures
        r == bar_width(width as int),
{
    least(bound(width * 220 / 1200, 160, 440), width.saturating_sub(32))
}

/// Half of what is left of `whole` beside `part`.
pub open spec fn centered(whole: int, part: int) -> int {
    if whole < part {
        0
    } else {
        (whole - part) / 2
    }
}

/// The picture while the program starts: the name, and a bar of which
/// `filled` pixels are full. Pixels behind the picture have the background.
pub open spec fn frame_pixels(len: nat, frame: Frame, filled: int) -> Seq<u32> {
    let scale = label_scale(frame.width);
    let center = frame.height / 2;
    let above = if center < 40 * scale / 3 {
        0
    } else {
        center - 40 * scale / 3
    };
    let blank = Seq::new(len, |p: int| BACKGROUND);
    let labelled = lettered(
        blank,
        frame,
        centered(frame.width, width_of(8, scale)),
        above,
        scale,
        "LogCrate"@,
    );
    let bar = Area {
        x: centered(frame.width, bar_width(frame.width)),
        y: center + 20 * scale / 3,
        width: bar_width(frame.width),
        height: bounded(frame.width * 4 / 1200, 4, 8),
    };
    let full = Area {
        width: if filled < 1 {
            1
        } else {
            filled
        },
        ..bar
    };
    painted(painted(labelled, frame, bar, TRACK), frame, full, ACCENT)
}

/// Draws the picture while the program starts.
pub fn draw_frame(pixels: &mut Vec<u32>, width: usize, height: usize, filled: usize)
    requires
        old(pixels)@.len() >= width * height,
        width * 220 <= usize::MAX,
        height <= usize::MAX - 1000,
        filled <= usize::MAX - width,
    ensures
        final(pixels)@ == frame_pixels(
            old(pixels)@.len(),
            (Frame { width: width as int, height: height as int }),
            filled as int,
        ),
        forall|p: int|
            width * height <= p < old(pixels)@.len() ==> #[trigger] final(pixels)@[p] == BACKGROUND,
{
    let ghost frame = Frame { width: width as int, height: height as int };
    let ghost len = pixels@.len();
    let count: usize = pixels.len();
    for i in 0..count
        invariant
            pixels@.len() == count,
            forall|j: int| 0 <= j < i ==> pixels@[j] == BACKGROUND,
    {
        pixels.set(i, BACKGROUND);
    }
    assert(pixels@ =~= Seq::new(len, |p: int| BACKGROUND));
    let scale: usize = bound(width / 400, 3, 6);
    proof {
        reveal_strlit("LogCrate");
        assert("LogCrate"@.len() == 8);
        assert(8 * 6 * scale <= 288) by (nonlinear_arith)
            requires
                scale <= 6,
        ;
    }
    let label_width: usize = text_width("LogCrate", scale);
    let label_x: usize = width.saturating_sub(label_width) / 2;
    let center_y: usize = height / 2;
    let label_y: usize = center_y.saturating_sub(40 * scale / 3);
    draw_text(pixels, width, height, label_x, label_y, scale, "LogCrate");
    let bar: usize = track_width(width);
    let bar_height: usize = bound(width * 4 / 1200, 4, 8);
    let bar_x: usize = width.saturating_sub(bar) / 2;
    let bar_y: usize = center_y + 20 * scale / 3;
    let ghost labelled = pixels@;
    proof {
        lettered_stays_in_the_picture(
            Seq::new(len, |p: int| BACKGROUND),
            frame,
            label_x as int,
            label_y as int,
            scale as int,
            "LogCrate"@,
        );
    }
    fill_rect(pixels, width, height, bar_x, bar_y, bar, bar_height, TRACK);
    let full: usize = if filled < 1 {
        1
    } else {
        filled
    };
    fill_rect(pixels, width, height, bar_x, bar_y, full, bar_height, ACCENT);
}

proof fn dotted_stays_in_the_picture(
    pixels: Seq<u32>,
    frame: Frame,
    x: int,
    y: int,
    scale: int,
    rows: Seq<u8>,
    n: nat,
)
    ensures
        dotted(pixels, frame, x, y, scale, rows, n).len() == pixels.len(),
        forall|p: int|
            0 <= p < pixels.len() && frame.width * frame.height <= p ==> #[trigger] dotted(
                pixels,
                frame,
                x,
                y,
                scale,
                rows,
                n,
            )[p] == pixels[p],
    decreases n,
{
    if n > 0 {
        dotted_stays_in_the_picture(pixels, frame, x, y, scale, rows, (n - 1) as nat);
        let earlier = dotted(pixels, frame, x, y, scale, rows, (n - 1) as nat);
        assert forall|p: int|
            0 <= p < pixels.len() && frame.width * frame.height <= p implies #[trigger] dotted(
            pixels,
            frame,
            x,
            y,
            scale,
            rows,
            n,
        )[p] == pixels[p] by {
            assert(earlier[p] == pixels[p]);
        }
    }
}

/// A text changes no pixel behind the picture.
pub proof fn lettered_stays_in_the_picture(
    pixels: Seq<u32>,
    frame: Frame,
    x: int,
    y: int,
    scale: int,
    s: Seq<char>,
)
    ensures
        lettered(pixels, frame, x, y, scale, s).len() == pixels.len(),
        forall|p: int|
            0 <= p < pixels.len() && frame.width * frame.height <= p ==> #[trigger] lettered(
                pixels,
                frame,
                x,
                y,
                scale,
                s,
            )[p] == pixels[p],
    decreases s.len(),
{
    if s.len() > 0 {
        lettered_stays_in_the_picture(pixels, frame, x, y, scale, s.drop_last());
        dotted_stays_in_the_picture(
            lettered(pixels, frame, x, y, scale, s.drop_last()),
            frame,
            x + (s.len() - 1) * (6 * scale),
            y,
            scale,
            glyph_rows(s.last()),
            35,
        );
    }
}

/// In a picture exactly the pixels of an area get its colour: those in its
/// columns and rows. All others stay.
pub proof fn area_is_painted(
    pixels: Seq<u32>,
    frame: Frame,
    area: Area,
    color: u32,
    row: int,
    column: int,
)
    requires
        0 <= row < frame.height,
        0 <= column < frame.width,
        pixels.len() >= frame.width * frame.height,
    ensures
        painted(pixels, frame, area, color).len() == pixels.len(),
        painted(pixels, frame, area, color)[row * frame.width + column] == if area.x <= column
            && column < area.x + area.width && area.y <= row && row < area.y + area.height {
            color
        } else {
            pixels[row * frame.width + column]
        },
{
    pixel_place(frame.width, frame.height, row, column);
}

/// The bar of the picture is filled from the left: so many pixels of it as are
/// full, at least one, have the colour of what is done, and the others of it
/// that of the track.
pub proof fn bar_is_filled_from_the_left(
    len: nat,
    frame: Frame,
    filled: int,
    row: int,
    column: int,
)
    requires
        0 <= row < frame.height,
        0 <= column < frame.width,
        len >= frame.width * frame.height,
        frame.height / 2 + 20 * label_scale(frame.width) / 3 <= row < frame.height / 2 + 20
            * label_scale(frame.width) / 3 + bounded(frame.width * 4 / 1200, 4, 8),
    ensures
        ({
            let left = centered(frame.width, bar_width(frame.width));
            let p = row * frame.width + column;
            let full = left <= column && (column < left + filled || column == left);
            &&& full ==> frame_pixels(len, frame, filled)[p] == ACCENT
            &&& !full && left <= column < left + bar_width(frame.width) ==> frame_pixels(
                len,
                frame,
                filled,
            )[p] == TRACK
        }),
{
    let scale = label_scale(frame.width);
    let center = frame.height / 2;
    let above = if center < 40 * scale / 3 {
        0
    } else {
        center - 40 * scale / 3
    };
    let blank = Seq::new(len, |p: int| BACKGROUND);
    let x = centered(frame.width, width_of(8, scale));
    let labelled = lettered(blank, frame, x, above, scale, "LogCrate"@);
    lettered_stays_in_the_picture(blank, frame, x, above, scale, "LogCrate"@);
    let bar = Area {
        x: centered(frame.width, bar_width(frame.width)),
        y: center + 20 * scale / 3,
        width: bar_width(frame.width),
        height: bounded(frame.width * 4 / 1200, 4, 8),
    };
    let full = Area {
        width: if filled < 1 {
            1
        } else {
            filled
        },
        ..bar
    };
    area_is_painted(labelled, frame, bar, TRACK, row, column);
    area_is_painted(painted(labelled, frame, bar, TRACK), frame, full, ACCENT, row, column);
}

/// A letter is drawn by its dots: each dot that is set in its rows is a square
/// of the foreground, and everything else stays.
pub proof fn letter_is_drawn_by_its_dots(
    pixels: Seq<u32>,
    frame: Frame,
    x: int,
    y: int,
    scale: int,
    rows: Seq<u8>,
    row: int,
    column: int,
    dx: int,
    dy: int,
)
    requires
        0 <= x,
        0 <= y,
        scale > 0,
        0 <= row < 7,
        0 <= column < 5,
        0 <= dx < scale,
        0 <= dy < scale,
        x + column * scale + dx < frame.width,
        y + row * scale + dy < frame.height,
        pixels.len() >= frame.width * frame.height,
    ensures
        ({
            let p = (y + row * scale + dy) * frame.width + (x + column * scale + dx);
            dotted(pixels, frame, x, y, scale, rows, 35)[p] == if (rows[row] >> ((4
                - column) as u8)) & 1 == 1 {
                FOREGROUND
            } else {
                pixels[p]
            }
        }),
{
    let b = rows[row];
    let k = (4 - column) as u8;
    assert((b & (1u8 << k) != 0) == ((b >> k) & 1 == 1)) by (bit_vector)
        requires
            k < 8,
    ;
    dots_drawn_so_far(pixels, frame, x, y, scale, rows, 35, row, column, dx, dy);
}

proof fn dots_drawn_so_far(
    pixels: Seq<u32>,
    frame: Frame,
    x: int,
    y: int,
    scale: int,
    rows: Seq<u8>,
    n: nat,
    row: int,
    column: int,
    dx: int,
    dy: int,
)
    requires
        0 <= x,
        0 <= y,
        scale > 0,
        0 <= row < 7,
        0 <= column < 5,
        0 <= dx < scale,
        0 <= dy < scale,
        x + column * scale + dx < frame.width,
        y + row * scale + dy < frame.height,
        pixels.len() >= frame.width * frame.height,
        n <= 35,
    ensures
        ({
            let p = (y + row * scale + dy) * frame.width + (x + column * scale + dx);
            dotted(pixels, frame, x, y, scale, rows, n)[p] == if 5 * row + column < n && rows[row] & (
            1u8 << ((4 - column) as u8)) != 0 {
                FOREGROUND
            } else {
                pixels[p]
            }
        }),
    decreases n,
{
    let c = x + column * scale + dx;
    let r = y + row * scale + dy;
    assert(0 <= c && 0 <= r) by (nonlinear_arith)
        requires
            c == x + column * scale + dx,
            r == y + row * scale + dy,
            0 <= x,
            0 <= y,
            0 <= column,
            0 <= row,
            scale > 0,
            0 <= dx,
            0 <= dy,
    ;
    if n > 0 {
        let earlier = dotted(pixels, frame, x, y, scale, rows, (n - 1) as nat);
        dots_drawn_so_far(
            pixels,
            frame,
            x,
            y,
            scale,
            rows,
            (n - 1) as nat,
            row,
            column,
            dx,
            dy,
        );
        dotted_stays_in_the_picture(pixels, frame, x, y, scale, rows, (n - 1) as nat);
        let i = (n - 1) / 5;
        let j = (n - 1) % 5;
        square_holds_its_pixels(x, scale, column, j, dx);
        square_holds_its_pixels(y, scale, row, i, dy);
        let area = Area { x: x + j * scale, y: y + i * scale, width: scale, height: scale };
        area_is_painted(earlier, frame, area, FOREGROUND, r, c);
        assert((5 * row + column == n - 1) == (i == row && j == column));
    }
}

proof fn square_holds_its_pixels(x: int, scale: int, column: int, j: int, dx: int)
    requires
        scale > 0,
        0 <= dx < scale,
    ensures
        (x + j * scale <= x + column * scale + dx && x + column * scale + dx < x + j * scale + scale)
            == (j == column),
{
    if j < column {
        assert(j * scale + scale <= column * scale) by (nonlinear_arith)
            requires
                j < column,
                scale > 0,
        ;
    } else if j > column {
        assert(column * scale + scale <= j * scale) by (nonlinear_arith)
            requires
                j > column,
                scale > 0,
        ;
    }
}

} // verus!
