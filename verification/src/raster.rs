//! Packed one-bit frames: packing grey pixels, reading pixels back, and the
//! Braille cells that stand for them on a terminal.
use vstd::prelude::*;
use crate::format::row_bytes_of;

verus! {

/// The bit of pixel column `x` within its byte: the leftmost pixel is the
/// high bit.
pub open spec fn bit_mask(x: int) -> u8 {
    0x80u8 >> ((x % 8) as u8)
}

/// The byte that holds pixel `(x, y)` of a frame whose rows take
/// `row_bytes` bytes.
pub open spec fn byte_index(row_bytes: int, x: int, y: int) -> int {
    y * row_bytes + x / 8
}

/// Pixel `(x, y)` of a packed frame is lit.
pub open spec fn lit(frame: Seq<u8>, row_bytes: int, x: int, y: int) -> bool {
    frame[byte_index(row_bytes, x, y)] & bit_mask(x) != 0
}

proof fn lemma_or_bit(a: u8, s: u8, t: u8)
    requires
        s < 8,
        t < 8,
    ensures
        ((a | (0x80u8 >> t)) & (0x80u8 >> s) != 0) == ((a & (0x80u8 >> s) != 0) || s == t),
{
    assert(s < 8 && t < 8 ==> (((a | (0x80u8 >> t)) & (0x80u8 >> s) != 0) == ((a & (0x80u8 >> s)
        != 0) || s == t))) by (bit_vector);
}

proof fn lemma_zero_bits(s: u8)
    requires
        s < 8,
    ensures
        0u8 & (0x80u8 >> s) == 0,
{
    assert(0u8 & (0x80u8 >> s) == 0) by (bit_vector);
}

proof fn lemma_byte_index_unique(row_bytes: int, x1: int, y1: int, x2: int, y2: int)
    requires
        row_bytes > 0,
        0 <= x1 < 8 * row_bytes,
        0 <= x2 < 8 * row_bytes,
        0 <= y1,
        0 <= y2,
        byte_index(row_bytes, x1, y1) == byte_index(row_bytes, x2, y2),
    ensures
        y1 == y2,
        x1 / 8 == x2 / 8,
{
    let a1 = x1 / 8;
    let a2 = x2 / 8;
    assert(0 <= a1 < row_bytes && 0 <= a2 < row_bytes);
    assert(y1 * row_bytes + a1 == y2 * row_bytes + a2);
    if y1 < y2 {
        assert(y1 * row_bytes + row_bytes <= y2 * row_bytes) by (nonlinear_arith)
            requires
                y1 < y2,
                row_bytes > 0,
        ;
    } else if y2 < y1 {
        assert(y2 * row_bytes + row_bytes <= y1 * row_bytes) by (nonlinear_arith)
            requires
                y2 < y1,
                row_bytes > 0,
        ;
    }
}

pub(crate) proof fn lemma_byte_index_bound(row_bytes: int, height: int, x: int, y: int)
    requires
        row_bytes > 0,
        0 <= x < 8 * row_bytes,
        0 <= y < height,
    ensures
        0 <= byte_index(row_bytes, x, y) < row_bytes * height,
{
    assert(0 <= y * row_bytes && y * row_bytes + row_bytes <= row_bytes * height) by (nonlinear_arith)
        requires
            row_bytes > 0,
            0 <= y < height,
    ;
}

/// Pixel `(x, y)` of a packed frame `width` pixels wide is lit.
pub fn pixel(frame: &[u8], width: u16, x: usize, y: usize) -> (on: bool)
    requires
        byte_index(row_bytes_of(width), x as int, y as int) < frame@.len(),
    ensures
        on == lit(frame@, row_bytes_of(width), x as int, y as int),
{
    let row_bytes = (width as usize + 7) / 8;
    proof {
        assert(0 <= y * row_bytes) by (nonlinear_arith);
    }
    let length = frame.len();
    assert(y * row_bytes + x / 8 < length);
    frame[y * row_bytes + x / 8] & (0x80u8 >> ((x % 8) as u8)) != 0
}

/// Pixel `(x, y)` of a `width`-wide grey image is bright: at least 128.
pub open spec fn pixel_on(pixels: Seq<u8>, width: int, x: int, y: int) -> bool {
    x < width && pixels[y * width + x] >= 128
}

/// The contribution of pixel `8 * bx + t` of row `y` to its packed byte.
pub open spec fn packed_bit(pixels: Seq<u8>, width: int, y: int, bx: int, t: int) -> u8 {
    if pixel_on(pixels, width, bx * 8 + t, y) {
        0x80u8 >> (t as u8)
    } else {
        0
    }
}

/// Byte `bx` of row `y` of the packed image: its eight pixels, the leftmost
/// in the high bit.
pub open spec fn packed_byte(pixels: Seq<u8>, width: int, y: int, bx: int) -> u8 {
    packed_bit(pixels, width, y, bx, 0) | packed_bit(pixels, width, y, bx, 1) | packed_bit(
        pixels,
        width,
        y,
        bx,
        2,
    ) | packed_bit(pixels, width, y, bx, 3) | packed_bit(pixels, width, y, bx, 4) | packed_bit(
        pixels,
        width,
        y,
        bx,
        5,
    ) | packed_bit(pixels, width, y, bx, 6) | packed_bit(pixels, width, y, bx, 7)
}

/// The packed frame of a `width` by `height` grey image.
pub open spec fn packed_frame(width: u16, height: u16, pixels: Seq<u8>) -> Seq<u8> {
    let rb = row_bytes_of(width);
    Seq::new((rb * height) as nat, |j: int| packed_byte(pixels, width as int, j / rb, j % rb))
}

proof fn lemma_byte_of_bits(b0: bool, b1: bool, b2: bool, b3: bool, b4: bool, b5: bool, b6: bool, b7: bool, s: u8)
    requires
        s < 8,
    ensures
        ((if b0 { 0x80u8 } else { 0u8 }) | (if b1 { 0x40u8 } else { 0u8 }) | (if b2 { 0x20u8 } else { 0u8 })
            | (if b3 { 0x10u8 } else { 0u8 }) | (if b4 { 0x08u8 } else { 0u8 }) | (if b5 { 0x04u8 } else {
            0u8 }) | (if b6 { 0x02u8 } else { 0u8 }) | (if b7 { 0x01u8 } else { 0u8 })) & (0x80u8 >> s) != 0
            == (if s == 0 { b0 } else if s == 1 { b1 } else if s == 2 { b2 } else if s == 3 { b3 } else if s
            == 4 { b4 } else if s == 5 { b5 } else if s == 6 { b6 } else { b7 }),
{
    assert(s < 8 ==> (((if b0 { 0x80u8 } else { 0u8 }) | (if b1 { 0x40u8 } else { 0u8 }) | (if b2 { 0x20u8 } else { 0u8 })
            | (if b3 { 0x10u8 } else { 0u8 }) | (if b4 { 0x08u8 } else { 0u8 }) | (if b5 { 0x04u8 } else {
            0u8 }) | (if b6 { 0x02u8 } else { 0u8 }) | (if b7 { 0x01u8 } else { 0u8 })) & (0x80u8 >> s) != 0
            == (if s == 0 { b0 } else if s == 1 { b1 } else if s == 2 { b2 } else if s == 3 { b3 } else if s
            == 4 { b4 } else if s == 5 { b5 } else if s == 6 { b6 } else { b7 }))) by (bit_vector);
}

proof fn lemma_bits_determine_byte(a: u8, b: u8)
    requires
        forall|s: u8| s < 8 ==> ((a & (0x80u8 >> s) != 0) == (b & (0x80u8 >> s) != 0)),
    ensures
        a == b,
{
    assert((a & (0x80u8 >> 0u8) != 0) == (b & (0x80u8 >> 0u8) != 0));
    assert((a & (0x80u8 >> 1u8) != 0) == (b & (0x80u8 >> 1u8) != 0));
    assert((a & (0x80u8 >> 2u8) != 0) == (b & (0x80u8 >> 2u8) != 0));
    assert((a & (0x80u8 >> 3u8) != 0) == (b & (0x80u8 >> 3u8) != 0));
    assert((a & (0x80u8 >> 4u8) != 0) == (b & (0x80u8 >> 4u8) != 0));
    assert((a & (0x80u8 >> 5u8) != 0) == (b & (0x80u8 >> 5u8) != 0));
    assert((a & (0x80u8 >> 6u8) != 0) == (b & (0x80u8 >> 6u8) != 0));
    assert((a & (0x80u8 >> 7u8) != 0) == (b & (0x80u8 >> 7u8) != 0));
    assert(((a & (0x80u8 >> 0u8) != 0) == (b & (0x80u8 >> 0u8) != 0)) && ((a & (0x80u8 >> 1u8) != 0)
        == (b & (0x80u8 >> 1u8) != 0)) && ((a & (0x80u8 >> 2u8) != 0) == (b & (0x80u8 >> 2u8) != 0))
        && ((a & (0x80u8 >> 3u8) != 0) == (b & (0x80u8 >> 3u8) != 0)) && ((a & (0x80u8 >> 4u8) != 0)
        == (b & (0x80u8 >> 4u8) != 0)) && ((a & (0x80u8 >> 5u8) != 0) == (b & (0x80u8 >> 5u8) != 0))
        && ((a & (0x80u8 >> 6u8) != 0) == (b & (0x80u8 >> 6u8) != 0)) && ((a & (0x80u8 >> 7u8) != 0)
        == (b & (0x80u8 >> 7u8) != 0)) ==> a == b) by (bit_vector);
}

/// Bit `s` of a packed byte is its pixel `8 * bx + s`.
proof fn lemma_packed_byte_bit(pixels: Seq<u8>, width: int, y: int, bx: int, s: u8)
    requires
        s < 8,
    ensures
        (packed_byte(pixels, width, y, bx) & (0x80u8 >> s) != 0) == pixel_on(pixels, width, bx * 8 + s, y),
{
    lemma_byte_of_bits(
        pixel_on(pixels, width, bx * 8 + 0, y),
        pixel_on(pixels, width, bx * 8 + 1, y),
        pixel_on(pixels, width, bx * 8 + 2, y),
        pixel_on(pixels, width, bx * 8 + 3, y),
        pixel_on(pixels, width, bx * 8 + 4, y),
        pixel_on(pixels, width, bx * 8 + 5, y),
        pixel_on(pixels, width, bx * 8 + 6, y),
        pixel_on(pixels, width, bx * 8 + 7, y),
        s,
    );
    assert(0x80u8 >> 0u8 == 0x80u8) by (bit_vector);
    assert(0x80u8 >> 1u8 == 0x40u8) by (bit_vector);
    assert(0x80u8 >> 2u8 == 0x20u8) by (bit_vector);
    assert(0x80u8 >> 3u8 == 0x10u8) by (bit_vector);
    assert(0x80u8 >> 4u8 == 0x08u8) by (bit_vector);
    assert(0x80u8 >> 5u8 == 0x04u8) by (bit_vector);
    assert(0x80u8 >> 6u8 == 0x02u8) by (bit_vector);
    assert(0x80u8 >> 7u8 == 0x01u8) by (bit_vector);
}

/// A packed frame is the packed image of its pixels when every pixel bit
/// matches and every padding bit is off.
proof fn lemma_packed_frame(width: u16, height: u16, pixels: Seq<u8>, packed: Seq<u8>)
    requires
        width * height <= pixels.len(),
        packed.len() == row_bytes_of(width) * height,
        forall|x: int, y: int|
            0 <= x < width && 0 <= y < height ==> #[trigger] lit(packed, row_bytes_of(width), x, y)
                == (pixels[y * width + x] >= 128),
        forall|x: int, y: int|
            width <= x < 8 * row_bytes_of(width) && 0 <= y < height ==> !#[trigger] lit(
                packed,
                row_bytes_of(width),
                x,
                y,
            ),
    ensures
        packed == packed_frame(width, height, pixels),
{
    let rb = row_bytes_of(width);
    let spec_frame = packed_frame(width, height, pixels);
    assert forall|j: int| 0 <= j < packed.len() implies packed[j] == spec_frame[j] by {
        let y = j / rb;
        let bx = j % rb;
        assert(rb > 0);
        assert(j == y * rb + bx && 0 <= bx < rb && 0 <= y < height) by (nonlinear_arith)
            requires
                rb > 0,
                0 <= j < rb * height,
                y == j / rb,
                bx == j % rb,
        ;
        assert forall|s: u8| s < 8 implies ((packed[j] & (0x80u8 >> s) != 0) == (spec_frame[j] & (
        0x80u8 >> s) != 0)) by {
            let x = bx * 8 + s;
            assert(x / 8 == bx && x % 8 == s);
            assert(byte_index(rb, x, y) == j);
            lemma_packed_byte_bit(pixels, width as int, y, bx, s);
            assert(lit(packed, rb, x, y) == (packed[j] & (0x80u8 >> s) != 0));
            if x < width {
                assert(lit(packed, rb, x, y) == (pixels[y * width + x] >= 128));
            } else {
                assert(!lit(packed, rb, x, y));
            }
        }
        lemma_bits_determine_byte(packed[j], spec_frame[j]);
    }
    assert(packed =~= spec_frame);
}

/// Packs a `width` by `height` image of grey pixels into one bit per pixel:
/// a pixel is lit when its grey value is at least 128.
pub fn pack_frame(width: u16, height: u16, pixels: &[u8]) -> (packed: Vec<u8>)
    requires
        width * height <= pixels@.len(),
    ensures
        packed@.len() == row_bytes_of(width) * height,
        forall|x: int, y: int|
            0 <= x < width && 0 <= y < height ==> #[trigger] lit(packed@, row_bytes_of(width), x, y)
                == (pixels@[y * width + x] >= 128),
        forall|x: int, y: int|
            width <= x < 8 * row_bytes_of(width) && 0 <= y < height ==> !#[trigger] lit(
                packed@,
                row_bytes_of(width),
                x,
                y,
            ),
        packed@ == packed_frame(width, height, pixels@),
{
    let w = width as usize;
    let h = height as usize;
    let row_bytes = (w + 7) / 8;
    let ghost rb = row_bytes as int;
    proof {
        assert(0 <= rb * h <= 8192 * 65535) by (nonlinear_arith)
            requires
                0 <= rb <= 8192,
                0 <= h <= 65535,
        ;
    }
    let mut packed: Vec<u8> = vec![0u8; row_bytes * h];
    proof {
        assert forall|x: int, y: int| 0 <= x < 8 * rb && 0 <= y < h implies !#[trigger] lit(
            packed@,
            rb,
            x,
            y,
        ) by {
            lemma_byte_index_bound(rb, h as int, x, y);
            lemma_zero_bits((x % 8) as u8);
        }
    }
    let mut y: usize = 0;
    while y < h
        invariant
            w == width,
            h == height,
            rb == row_bytes,
            row_bytes == row_bytes_of(width),
            y <= h,
            w * h <= pixels@.len(),
            packed@.len() == rb * h,
            forall|x1: int, y1: int|
                0 <= x1 < 8 * rb && 0 <= y1 < h ==> #[trigger] lit(packed@, rb, x1, y1) == (y1
                    < y && x1 < w && pixels@[y1 * w + x1] >= 128),
        decreases h - y,
    {
        let mut x: usize = 0;
        while x < w
            invariant
                w == width,
                h == height,
                rb == row_bytes,
                row_bytes == row_bytes_of(width),
                y < h,
                x <= w,
                w * h <= pixels@.len(),
                packed@.len() == rb * h,
                forall|x1: int, y1: int|
                    0 <= x1 < 8 * rb && 0 <= y1 < h ==> #[trigger] lit(packed@, rb, x1, y1) == ((
                    y1 < y || (y1 == y && x1 < x)) && x1 < w && pixels@[y1 * w + x1] >= 128),
            decreases w - x,
        {
            let pixel_count = pixels.len();
            let byte_count = packed.len();
            proof {
                assert(y * w + x < w * h) by (nonlinear_arith)
                    requires
                        y < h,
                        x < w,
                ;
                lemma_byte_index_bound(rb, h as int, x as int, y as int);
            }
            if pixels[y * w + x] >= 128 {
                let index = y * row_bytes + x / 8;
                let ghost before = packed@;
                let value = packed[index] | (0x80u8 >> ((x % 8) as u8));
                packed.set(index, value);
                proof {
                    assert forall|x1: int, y1: int|
                        0 <= x1 < 8 * rb && 0 <= y1 < h implies #[trigger] lit(
                        packed@,
                        rb,
                        x1,
                        y1,
                    ) == ((y1 < y || (y1 == y && x1 <= x)) && x1 < w && pixels@[y1 * w + x1]
                        >= 128) by {
                        lemma_byte_index_bound(rb, h as int, x1, y1);
                        assert(lit(before, rb, x1, y1) == ((y1 < y || (y1 == y && x1 < x)) && x1
                            < w && pixels@[y1 * w + x1] >= 128));
                        if byte_index(rb, x1, y1) == index {
                            lemma_byte_index_unique(rb, x1, y1, x as int, y as int);
                            lemma_or_bit(before[index as int], (x1 % 8) as u8, (x % 8) as u8);
                            if x1 % 8 == x % 8 {
                                assert(x1 == x);
                            }
                        }
                    }
                }
            } else {
                proof {
                    assert forall|x1: int, y1: int|
                        0 <= x1 < 8 * rb && 0 <= y1 < h implies #[trigger] lit(
                        packed@,
                        rb,
                        x1,
                        y1,
                    ) == ((y1 < y || (y1 == y && x1 <= x)) && x1 < w && pixels@[y1 * w + x1]
                        >= 128) by {}
                }
            }
            x += 1;
        }
        y += 1;
    }
    proof {
        lemma_packed_frame(width, height, pixels@, packed@);
    }
    packed
}

/// The mask of dot `(dx, dy)` of a Braille cell, two dots wide and four
/// high.
pub open spec fn dot_mask(dy: int, dx: int) -> u8 {
    if dy == 0 {
        if dx == 0 {
            0x01
        } else {
            0x08
        }
    } else if dy == 1 {
        if dx == 0 {
            0x02
        } else {
            0x10
        }
    } else if dy == 2 {
        if dx == 0 {
            0x04
        } else {
            0x20
        }
    } else if dx == 0 {
        0x40
    } else {
        0x80
    }
}

fn braille_dot(dot_y: usize, dot_x: usize) -> (mask: u8)
    requires
        dot_y < 4,
        dot_x < 2,
    ensures
        mask == dot_mask(dot_y as int, dot_x as int),
{
    if dot_y == 0 {
        if dot_x == 0 {
            0x01
        } else {
            0x08
        }
    } else if dot_y == 1 {
        if dot_x == 0 {
            0x02
        } else {
            0x10
        }
    } else if dot_y == 2 {
        if dot_x == 0 {
            0x04
        } else {
            0x20
        }
    } else if dot_x == 0 {
        0x40
    } else {
        0x80
    }
}

/// Calls `char::from_u32`: the character with scalar value `value`, if
/// there is one; there is one for every value but the surrogates and those
/// above U+10FFFF.
#[verifier::external_body]
fn char_from_u32(value: u32) -> (c: Option<char>)
    ensures
        c matches Some(ch) ==> ch as u32 == value,
        c is Some <==> (value < 0xD800 || (0xE000 <= value && value <= 0x10FFFF)),
{
    char::from_u32(value)
}

/// Calls `String::push`: appends `c` to `s`.
#[verifier::external_body]
fn push_char(s: &mut String, c: char)
    ensures
        final(s)@ == old(s)@.push(c),
{
    s.push(c);
}

/// The frame column that dot column `dx` of cell column `cx` samples, when
/// `columns` cells span `width` pixels.
pub open spec fn braille_source_x(width: int, columns: int, cx: int, dx: int) -> int {
    (cx * 2 + dx) * width / (columns * 2)
}

/// The frame row that dot row `dy` of cell row `cy` samples, when `rows`
/// cells span `height` pixels.
pub open spec fn braille_source_y(height: int, rows: int, cy: int, dy: int) -> int {
    (cy * 4 + dy) * height / (rows * 4)
}

/// The byte of the frame that dot `(dx, dy)` of cell `(cx, cy)` reads.
pub open spec fn braille_sample_index(
    width: u16,
    height: u16,
    columns: int,
    rows: int,
    cx: int,
    cy: int,
    dx: int,
    dy: int,
) -> int {
    byte_index(
        row_bytes_of(width),
        braille_source_x(width as int, columns, cx, dx),
        braille_source_y(height as int, rows, cy, dy),
    )
}

/// Dot number `k` of cell `(cx, cy)`, counting row by row: its mask when
/// the pixel it samples is lit, else nothing.
pub open spec fn cell_dot(
    frame: Seq<u8>,
    width: u16,
    height: u16,
    columns: int,
    rows: int,
    cx: int,
    cy: int,
    k: int,
) -> u8 {
    let dy = k / 2;
    let dx = k % 2;
    if lit(
        frame,
        row_bytes_of(width),
        braille_source_x(width as int, columns, cx, dx),
        braille_source_y(height as int, rows, cy, dy),
    ) {
        dot_mask(dy, dx)
    } else {
        0
    }
}

/// The masks of the first `k` dots of cell `(cx, cy)`, ORed together.
pub open spec fn cell_bits(
    frame: Seq<u8>,
    width: u16,
    height: u16,
    columns: int,
    rows: int,
    cx: int,
    cy: int,
    k: int,
) -> u8
    decreases k,
{
    if k <= 0 {
        0
    } else {
        cell_bits(frame, width, height, columns, rows, cx, cy, k - 1) | cell_dot(
            frame,
            width,
            height,
            columns,
            rows,
            cx,
            cy,
            k - 1,
        )
    }
}

proof fn lemma_or_zero(a: u8)
    ensures
        a | 0 == a,
{
    assert(a | 0 == a) by (bit_vector);
}

proof fn lemma_scaled_bound(a: int, bound: int, scale: int)
    requires
        0 <= a <= bound,
        0 <= scale,
    ensures
        0 <= a * scale <= bound * scale,
{
    assert(0 <= a * scale <= bound * scale) by (nonlinear_arith)
        requires
            0 <= a <= bound,
            0 <= scale,
    ;
}

/// Renders a packed frame as `rows` lines of `columns` Braille cells, each
/// dot sampling the frame pixel under it.
pub fn render_braille(frame: &[u8], width: u16, height: u16, columns: usize, rows: usize) -> (lines:
    Vec<String>)
    requires
        columns * 2 <= usize::MAX,
        rows * 4 <= usize::MAX,
        columns == 0 || (columns * 2 - 1) * width <= usize::MAX,
        rows == 0 || (rows * 4 - 1) * height <= usize::MAX,
        forall|cx: int, cy: int, dx: int, dy: int|
            0 <= cx < columns && 0 <= cy < rows && 0 <= dx < 2 && 0 <= dy < 4
                ==> #[trigger] braille_sample_index(width, height, columns as int, rows as int, cx, cy, dx, dy)
                < frame@.len(),
    ensures
        lines@.len() == rows,
        forall|cy: int| 0 <= cy < rows ==> (#[trigger] lines@[cy])@.len() == columns,
        forall|cx: int, cy: int|
            0 <= cx < columns && 0 <= cy < rows ==> (#[trigger] lines@[cy]@[cx]) as u32 == 0x2800
                + cell_bits(frame@, width, height, columns as int, rows as int, cx, cy, 8),
        forall|cx: int, cy: int, dx: int, dy: int|
            #![trigger lines@[cy]@[cx], braille_dot_bit(dy, dx)]
            0 <= cx < columns && 0 <= cy < rows && 0 <= dx < 2 && 0 <= dy < 4 ==> ((((lines@[cy]@[cx]
                as u32) - 0x2800) as u8 & braille_dot_bit(dy, dx)) != 0) == lit(
                frame@,
                row_bytes_of(width),
                (2 * cx + dx) * width / (2 * columns),
                (4 * cy + dy) * height / (4 * rows),
            ),
{
    let dot_width = columns * 2;
    let dot_height = rows * 4;
    let w = width as usize;
    let h = height as usize;
    let mut lines: Vec<String> = Vec::new();
    let mut cell_y: usize = 0;
    while cell_y < rows
        invariant
            dot_width == columns * 2,
            dot_height == rows * 4,
            w == width,
            h == height,
            columns == 0 || (columns * 2 - 1) * width <= usize::MAX,
            rows == 0 || (rows * 4 - 1) * height <= usize::MAX,
            forall|cx: int, cy: int, dx: int, dy: int|
                0 <= cx < columns && 0 <= cy < rows && 0 <= dx < 2 && 0 <= dy < 4
                    ==> #[trigger] braille_sample_index(width, height, columns as int, rows as int, cx, cy, dx, dy)
                    < frame@.len(),
            cell_y <= rows,
            lines@.len() == cell_y,
            forall|cy: int| 0 <= cy < cell_y ==> (#[trigger] lines@[cy])@.len() == columns,
            forall|cx: int, cy: int|
                0 <= cx < columns && 0 <= cy < cell_y ==> (#[trigger] lines@[cy]@[cx]) as u32 == 0x2800
                    + cell_bits(frame@, width, height, columns as int, rows as int, cx, cy, 8),
        decreases rows - cell_y,
    {
        let mut line = String::new();
        let mut cell_x: usize = 0;
        while cell_x < columns
            invariant
                dot_width == columns * 2,
                dot_height == rows * 4,
                w == width,
                h == height,
                columns == 0 || (columns * 2 - 1) * width <= usize::MAX,
                rows == 0 || (rows * 4 - 1) * height <= usize::MAX,
                forall|cx: int, cy: int, dx: int, dy: int|
                    0 <= cx < columns && 0 <= cy < rows && 0 <= dx < 2 && 0 <= dy < 4
                        ==> #[trigger] braille_sample_index(width, height, columns as int, rows as int, cx, cy, dx, dy)
                        < frame@.len(),
                cell_y < rows,
                cell_x <= columns,
                line@.len() == cell_x,
                forall|cx: int| 0 <= cx < cell_x ==> (#[trigger] line@[cx]) as u32 == 0x2800
                    + cell_bits(frame@, width, height, columns as int, rows as int, cx, cell_y as int, 8),
            decreases columns - cell_x,
        {
            let mut bits: u8 = 0;
            let mut dot_y: usize = 0;
            while dot_y < 4
                invariant
                    dot_width == columns * 2,
                    dot_height == rows * 4,
                    w == width,
                    h == height,
                    (columns * 2 - 1) * width <= usize::MAX,
                    (rows * 4 - 1) * height <= usize::MAX,
                    forall|cx: int, cy: int, dx: int, dy: int|
                        0 <= cx < columns && 0 <= cy < rows && 0 <= dx < 2 && 0 <= dy < 4
                            ==> #[trigger] braille_sample_index(width, height, columns as int, rows as int, cx, cy, dx, dy)
                            < frame@.len(),
                    cell_y < rows,
                    cell_x < columns,
                    dot_y <= 4,
                    bits == cell_bits(frame@, width, height, columns as int, rows as int, cell_x as int, cell_y as int, dot_y * 2),
                decreases 4 - dot_y,
            {
                let mut dot_x: usize = 0;
                while dot_x < 2
                    invariant
                        dot_width == columns * 2,
                        dot_height == rows * 4,
                        w == width,
                        h == height,
                        (columns * 2 - 1) * width <= usize::MAX,
                        (rows * 4 - 1) * height <= usize::MAX,
                        forall|cx: int, cy: int, dx: int, dy: int|
                            0 <= cx < columns && 0 <= cy < rows && 0 <= dx < 2 && 0 <= dy < 4
                                ==> #[trigger] braille_sample_index(width, height, columns as int, rows as int, cx, cy, dx, dy)
                                < frame@.len(),
                        cell_y < rows,
                        cell_x < columns,
                        dot_y < 4,
                        dot_x <= 2,
                        bits == cell_bits(frame@, width, height, columns as int, rows as int, cell_x as int, cell_y as int, dot_y * 2 + dot_x),
                    decreases 2 - dot_x,
                {
                    proof {
                        lemma_scaled_bound((cell_x * 2 + dot_x) as int, columns * 2 - 1, w as int);
                        lemma_scaled_bound((cell_y * 4 + dot_y) as int, rows * 4 - 1, h as int);
                    }
                    let source_x = (cell_x * 2 + dot_x) * w / dot_width;
                    let source_y = (cell_y * 4 + dot_y) * h / dot_height;
                    assert(braille_sample_index(width, height, columns as int, rows as int, cell_x as int, cell_y as int, dot_x as int, dot_y as int) < frame@.len());
                    let ghost k = dot_y * 2 + dot_x;
                    let ghost k1 = k + 1;
                    assert(k / 2 == dot_y && k % 2 == dot_x);
                    if pixel(frame, width, source_x, source_y) {
                        bits = bits | braille_dot(dot_y, dot_x);
                    } else {
                        proof {
                            lemma_or_zero(bits);
                        }
                    }
                    dot_x += 1;
                }
                dot_y += 1;
            }
            let c = match char_from_u32(0x2800 + bits as u32) {
                Some(c) => c,
                None => ' ',
            };
            push_char(&mut line, c);
            cell_x += 1;
        }
        lines.push(line);
        cell_y += 1;
    }
    proof {
        assert forall|cx: int, cy: int, dx: int, dy: int|
            #![trigger lines@[cy]@[cx], braille_dot_bit(dy, dx)]
            0 <= cx < columns && 0 <= cy < rows && 0 <= dx < 2 && 0 <= dy < 4 implies ((((
        lines@[cy]@[cx] as u32) - 0x2800) as u8 & braille_dot_bit(dy, dx)) != 0) == lit(
            frame@,
            row_bytes_of(width),
            (2 * cx + dx) * width / (2 * columns),
            (4 * cy + dy) * height / (4 * rows),
        ) by {
            lemma_braille_dot_samples(frame@, width, height, columns as int, rows as int, cx, cy, dx, dy);
        }
    }
    lines
}

/// The frame column that mask column `column` samples.
pub open spec fn mask_source_x(width: int, columns: int, column: int) -> int {
    column * width / columns
}

/// The frame row that mask row `row` samples.
pub open spec fn mask_source_y(height: int, rows: int, row: int) -> int {
    row * height / rows
}

/// The byte of the frame that mask cell `(column, row)` reads.
pub open spec fn mask_sample_index(width: u16, height: u16, columns: int, rows: int, column: int, row: int) -> int {
    byte_index(
        row_bytes_of(width),
        mask_source_x(width as int, columns, column),
        mask_source_y(height as int, rows, row),
    )
}

/// Renders a packed frame as `rows` lines of `columns` characters, `1`
/// where the sampled pixel is lit and `0` where it is not.
pub fn render_mask(frame: &[u8], width: u16, height: u16, columns: usize, rows: usize) -> (lines: Vec<
    String,
>)
    requires
        columns == 0 || (columns - 1) * width <= usize::MAX,
        rows == 0 || (rows - 1) * height <= usize::MAX,
        forall|column: int, row: int|
            0 <= column < columns && 0 <= row < rows ==> #[trigger] mask_sample_index(
                width,
                height,
                columns as int,
                rows as int,
                column,
                row,
            ) < frame@.len(),
    ensures
        lines@.len() == rows,
        forall|row: int| 0 <= row < rows ==> (#[trigger] lines@[row])@.len() == columns,
        forall|column: int, row: int|
            0 <= column < columns && 0 <= row < rows ==> #[trigger] lines@[row]@[column] == if lit(
                frame@,
                row_bytes_of(width),
                mask_source_x(width as int, columns as int, column),
                mask_source_y(height as int, rows as int, row),
            ) {
                '1'
            } else {
                '0'
            },
        forall|column: int, row: int|
            0 <= column < columns && 0 <= row < rows ==> (#[trigger] lines@[row]@[column] == '1')
                == lit(
                frame@,
                row_bytes_of(width),
                column * width / (columns as int),
                row * height / (rows as int),
            ),
{
    let w = width as usize;
    let h = height as usize;
    let mut lines: Vec<String> = Vec::new();
    let mut row: usize = 0;
    while row < rows
        invariant
            w == width,
            h == height,
            columns == 0 || (columns - 1) * width <= usize::MAX,
            rows == 0 || (rows - 1) * height <= usize::MAX,
            forall|column: int, row: int|
                0 <= column < columns && 0 <= row < rows ==> #[trigger] mask_sample_index(
                    width,
                    height,
                    columns as int,
                    rows as int,
                    column,
                    row,
                ) < frame@.len(),
            row <= rows,
            lines@.len() == row,
            forall|r: int| 0 <= r < row ==> (#[trigger] lines@[r])@.len() == columns,
            forall|column: int, r: int|
                0 <= column < columns && 0 <= r < row ==> #[trigger] lines@[r]@[column] == if lit(
                    frame@,
                    row_bytes_of(width),
                    mask_source_x(width as int, columns as int, column),
                    mask_source_y(height as int, rows as int, r),
                ) {
                    '1'
                } else {
                    '0'
                },
        decreases rows - row,
    {
        let mut line = String::new();
        let mut column: usize = 0;
        while column < columns
            invariant
                w == width,
                h == height,
                (columns - 1) * width <= usize::MAX,
                (rows - 1) * height <= usize::MAX,
                forall|column: int, row: int|
                    0 <= column < columns && 0 <= row < rows ==> #[trigger] mask_sample_index(
                        width,
                        height,
                        columns as int,
                        rows as int,
                        column,
                        row,
                    ) < frame@.len(),
                row < rows,
                column <= columns,
                line@.len() == column,
                forall|c: int| 0 <= c < column ==> #[trigger] line@[c] == if lit(
                    frame@,
                    row_bytes_of(width),
                    mask_source_x(width as int, columns as int, c),
                    mask_source_y(height as int, rows as int, row as int),
                ) {
                    '1'
                } else {
                    '0'
                },
            decreases columns - column,
        {
            proof {
                lemma_scaled_bound(column as int, columns - 1, w as int);
                lemma_scaled_bound(row as int, rows - 1, h as int);
            }
            let source_x = column * w / columns;
            let source_y = row * h / rows;
            assert(mask_sample_index(width, height, columns as int, rows as int, column as int, row as int) < frame@.len());
            let on = pixel(frame, width, source_x, source_y);
            push_char(&mut line, if on {
                '1'
            } else {
                '0'
            });
            column += 1;
        }
        lines.push(line);
        row += 1;
    }
    lines
}

/// Why a stream of raw grey frames cannot be read.
#[derive(Debug, Clone, Copy, PartialEq, Eq)]
pub enum RawFramesError {
    NoFrames,
    IncompleteFrame,
}

/// Reads a stream of raw `width` by `height` grey frames, one byte per
/// pixel, and packs each one.
pub fn read_raw_frames(data: &[u8], width: u16, height: u16) -> (res: Result<
    Vec<Vec<u8>>,
    RawFramesError,
>)
    requires
        width * height > 0,
    ensures
        data@.len() == 0 ==> res == Err::<Vec<Vec<u8>>, RawFramesError>(RawFramesError::NoFrames),
        data@.len() > 0 && (data@.len() as int) % (width * height) != 0 ==> res == Err::<
            Vec<Vec<u8>>,
            RawFramesError,
        >(RawFramesError::IncompleteFrame),
        data@.len() > 0 && (data@.len() as int) % (width * height) == 0 ==> (res matches Ok(frames)
            && frames@.len() == (data@.len() as int) / (width * height) && forall|i: int|
            0 <= i < frames@.len() ==> (#[trigger] frames@[i])@ == packed_frame(
                width,
                height,
                data@.subrange(i * (width * height), i * (width * height) + width * height),
            )),
{
    proof {
        let w = width as int;
        let h = height as int;
        assert(0 < w * h <= 65535 * 65535) by (nonlinear_arith)
            requires
                0 <= w <= 65535,
                0 <= h <= 65535,
                w * h > 0,
        ;
    }
    let frame_size = width as usize * height as usize;
    let ghost fs = frame_size as int;
    let length = data.len();
    let mut frames: Vec<Vec<u8>> = Vec::new();
    let mut offset: usize = 0;
    assert(frames@.len() * fs == 0) by (nonlinear_arith)
        requires
            frames@.len() == 0,
    ;
    while length - offset >= frame_size
        invariant
            fs == width * height,
            fs > 0,
            frame_size == fs,
            length == data@.len(),
            offset <= length,
            offset == frames@.len() * fs,
            forall|i: int|
                0 <= i < frames@.len() ==> (#[trigger] frames@[i])@ == packed_frame(
                    width,
                    height,
                    data@.subrange(i * fs, i * fs + fs),
                ),
        decreases length - offset,
    {
        let frame = pack_frame(width, height, &data[offset..offset + frame_size]);
        let ghost count = frames@.len();
        frames.push(frame);
        proof {
            assert((count + 1) * fs == count * fs + fs) by (nonlinear_arith);
        }
        offset += frame_size;
    }
    proof {
        let k = frames@.len() as int;
        assert(length < offset + fs);
        assert((data@.len() as int) % fs == 0 <==> offset == length) by (nonlinear_arith)
            requires
                fs > 0,
                offset == k * fs,
                offset <= length,
                length < offset + fs,
                data@.len() == length,
        ;
        if offset == length {
            assert((data@.len() as int) / fs == k) by (nonlinear_arith)
                requires
                    fs > 0,
                    data@.len() == k * fs,
            ;
        }
    }
    if offset < length {
        return Err(RawFramesError::IncompleteFrame);
    }
    if frames.len() == 0 {
        return Err(RawFramesError::NoFrames);
    }
    Ok(frames)
}

/// Bit `t` of `b`, counting from the high bit, is set.
pub open spec fn bit_set(b: u8, t: int) -> bool {
    b & (0x80u8 >> (t as u8)) != 0
}

/// A Braille pattern character, U+2800 to U+28FF.
pub open spec fn is_braille(c: char) -> bool {
    0x2800 <= c as u32 <= 0x28FF
}

/// The dots of a Braille pattern character, one bit each.
pub open spec fn braille_bits(c: char) -> u8 {
    ((c as u32) - 0x2800) as u8
}

/// Dot `(dx, dy)` of the Braille character `c` is raised.
pub open spec fn dot_on(c: char, dy: int, dx: int) -> bool {
    braille_bits(c) & dot_mask(dy, dx) != 0
}

/// Cell `(c, r)` is a character of `lines`.
pub open spec fn in_cells(lines: Seq<Seq<char>>, r: int, c: int) -> bool {
    0 <= r < lines.len() && 0 <= c < lines[r].len()
}

/// Cell `(c1, r1)` comes before cell `(c2, r2)` in reading order.
pub open spec fn before(r1: int, c1: int, r2: int, c2: int) -> bool {
    r1 < r2 || (r1 == r2 && c1 < c2)
}

/// Every character of `lines` up to and including cell `(c, r)` is a
/// Braille pattern.
pub open spec fn braille_through(lines: Seq<Seq<char>>, r: int, c: int) -> bool {
    forall|r1: int, c1: int|
        #![trigger lines[r1][c1]]
        in_cells(lines, r1, c1) && (before(r1, c1, r, c) || (r1 == r && c1 == c)) ==> is_braille(
            lines[r1][c1],
        )
}

/// Raised dot `(dx, dy)` of cell `(c, r)` lights bit `t` of byte `j` of a
/// frame whose rows take `row_bytes` bytes.
pub open spec fn dot_sets(
    lines: Seq<Seq<char>>,
    row_bytes: int,
    r: int,
    c: int,
    dy: int,
    dx: int,
    j: int,
    t: int,
) -> bool {
    &&& in_cells(lines, r, c)
    &&& 0 <= dy < 4
    &&& 0 <= dx < 2
    &&& dot_on(lines[r][c], dy, dx)
    &&& byte_index(row_bytes, c * 2 + dx, r * 4 + dy) == j
    &&& (c * 2 + dx) % 8 == t
}

/// Dot `(dx, dy)` of cell `(c, r)` comes before dot number `k` of cell
/// `(cx, cy)`.
pub open spec fn dot_done(r: int, c: int, dy: int, dx: int, cy: int, cx: int, k: int) -> bool {
    before(r, c, cy, cx) || (r == cy && c == cx && dy * 2 + dx < k)
}

/// Some dot before dot number `k` of cell `(cx, cy)` lights bit `t` of
/// byte `j`.
pub open spec fn lit_by_done(
    lines: Seq<Seq<char>>,
    row_bytes: int,
    j: int,
    t: int,
    cy: int,
    cx: int,
    k: int,
) -> bool {
    exists|r: int, c: int, dy: int, dx: int|
        #[trigger] dot_sets(lines, row_bytes, r, c, dy, dx, j, t) && dot_done(r, c, dy, dx, cy, cx, k)
}

/// Some dot of `lines` lights bit `t` of byte `j`.
pub open spec fn lit_by_dots(lines: Seq<Seq<char>>, row_bytes: int, j: int, t: int) -> bool {
    exists|r: int, c: int, dy: int, dx: int| #[trigger] dot_sets(lines, row_bytes, r, c, dy, dx, j, t)
}

/// The contents of a list of lines of characters.
pub open spec fn lines_view(lines: Seq<Vec<char>>) -> Seq<Seq<char>> {
    lines.map_values(|l: Vec<char>| l@)
}

proof fn lemma_same_done_set(
    lines: Seq<Seq<char>>,
    row_bytes: int,
    j: int,
    t: int,
    cy1: int,
    cx1: int,
    k1: int,
    cy2: int,
    cx2: int,
    k2: int,
)
    requires
        forall|r: int, c: int, dy: int, dx: int|
            in_cells(lines, r, c) && 0 <= dy < 4 && 0 <= dx < 2 ==> (dot_done(r, c, dy, dx, cy1, cx1, k1)
                == dot_done(r, c, dy, dx, cy2, cx2, k2)),
    ensures
        lit_by_done(lines, row_bytes, j, t, cy1, cx1, k1) == lit_by_done(lines, row_bytes, j, t, cy2, cx2, k2),
{
    if lit_by_done(lines, row_bytes, j, t, cy1, cx1, k1) {
        let (r, c, dy, dx) = choose|r: int, c: int, dy: int, dx: int|
            #[trigger] dot_sets(lines, row_bytes, r, c, dy, dx, j, t) && dot_done(r, c, dy, dx, cy1, cx1, k1);
        assert(dot_sets(lines, row_bytes, r, c, dy, dx, j, t) && dot_done(r, c, dy, dx, cy2, cx2, k2));
    }
    if lit_by_done(lines, row_bytes, j, t, cy2, cx2, k2) {
        let (r, c, dy, dx) = choose|r: int, c: int, dy: int, dx: int|
            #[trigger] dot_sets(lines, row_bytes, r, c, dy, dx, j, t) && dot_done(r, c, dy, dx, cy2, cx2, k2);
        assert(dot_sets(lines, row_bytes, r, c, dy, dx, j, t) && dot_done(r, c, dy, dx, cy1, cx1, k1));
    }
}

/// Every character of `lines` is a Braille pattern.
pub open spec fn all_braille(lines: Seq<Seq<char>>) -> bool {
    forall|r: int, c: int| in_cells(lines, r, c) ==> is_braille(#[trigger] lines[r][c])
}

/// Cell `(c, r)` holds the first character of `lines`, in reading order,
/// that is not a Braille pattern.
pub open spec fn first_non_braille_at(lines: Seq<Seq<char>>, r: int, c: int) -> bool {
    &&& in_cells(lines, r, c)
    &&& !is_braille(lines[r][c])
    &&& forall|r1: int, c1: int|
        #![trigger lines[r1][c1]]
        in_cells(lines, r1, c1) && before(r1, c1, r, c) ==> is_braille(lines[r1][c1])
}

/// The contribution of bit `t` to byte `j` of an unpacked frame.
pub open spec fn unpacked_bit(lines: Seq<Seq<char>>, row_bytes: int, j: int, t: int) -> u8 {
    if lit_by_dots(lines, row_bytes, j, t) {
        0x80u8 >> (t as u8)
    } else {
        0
    }
}

/// Byte `j` of the frame unpacked from `lines`.
pub open spec fn unpacked_byte(lines: Seq<Seq<char>>, row_bytes: int, j: int) -> u8 {
    unpacked_bit(lines, row_bytes, j, 0) | unpacked_bit(lines, row_bytes, j, 1) | unpacked_bit(
        lines,
        row_bytes,
        j,
        2,
    ) | unpacked_bit(lines, row_bytes, j, 3) | unpacked_bit(lines, row_bytes, j, 4) | unpacked_bit(
        lines,
        row_bytes,
        j,
        5,
    ) | unpacked_bit(lines, row_bytes, j, 6) | unpacked_bit(lines, row_bytes, j, 7)
}

/// What unpacking `lines` into a `width` by `height` frame gives: the frame
/// whose bits are lit by the raised dots, or the code of the first
/// character that is not a Braille pattern.
pub open spec fn spec_unpack_braille(lines: Seq<Seq<char>>, width: u16, height: u16) -> Result<
    Seq<u8>,
    u32,
> {
    if all_braille(lines) {
        Ok(
            Seq::new(
                (row_bytes_of(width) * height) as nat,
                |j: int| unpacked_byte(lines, row_bytes_of(width), j),
            ),
        )
    } else {
        let (r, c) = choose|r: int, c: int| first_non_braille_at(lines, r, c);
        Err(lines[r][c] as u32)
    }
}

proof fn lemma_first_non_braille_unique(lines: Seq<Seq<char>>, width: u16, height: u16, r: int, c: int)
    requires
        first_non_braille_at(lines, r, c),
    ensures
        !all_braille(lines),
        spec_unpack_braille(lines, width, height) == Err::<Seq<u8>, u32>(lines[r][c] as u32),
{
    let (r2, c2) = choose|r2: int, c2: int| first_non_braille_at(lines, r2, c2);
    assert(first_non_braille_at(lines, r2, c2));
    if before(r, c, r2, c2) {
        assert(is_braille(lines[r][c]));
    } else if before(r2, c2, r, c) {
        assert(is_braille(lines[r2][c2]));
    }
    assert(r == r2 && c == c2);
}

proof fn lemma_unpacked_byte_bit(lines: Seq<Seq<char>>, row_bytes: int, j: int, s: u8)
    requires
        s < 8,
    ensures
        bit_set(unpacked_byte(lines, row_bytes, j), s as int) == lit_by_dots(lines, row_bytes, j, s as int),
{
    lemma_byte_of_bits(
        lit_by_dots(lines, row_bytes, j, 0),
        lit_by_dots(lines, row_bytes, j, 1),
        lit_by_dots(lines, row_bytes, j, 2),
        lit_by_dots(lines, row_bytes, j, 3),
        lit_by_dots(lines, row_bytes, j, 4),
        lit_by_dots(lines, row_bytes, j, 5),
        lit_by_dots(lines, row_bytes, j, 6),
        lit_by_dots(lines, row_bytes, j, 7),
        s,
    );
    assert(0x80u8 >> 0u8 == 0x80u8) by (bit_vector);
    assert(0x80u8 >> 1u8 == 0x40u8) by (bit_vector);
    assert(0x80u8 >> 2u8 == 0x20u8) by (bit_vector);
    assert(0x80u8 >> 3u8 == 0x10u8) by (bit_vector);
    assert(0x80u8 >> 4u8 == 0x08u8) by (bit_vector);
    assert(0x80u8 >> 5u8 == 0x04u8) by (bit_vector);
    assert(0x80u8 >> 6u8 == 0x02u8) by (bit_vector);
    assert(0x80u8 >> 7u8 == 0x01u8) by (bit_vector);
}

/// Unpacks lines of Braille characters into a packed frame `width` by
/// `height` pixels: each raised dot lights its pixel.  The first character
/// that is not a Braille pattern, in reading order, is the error.
pub fn unpack_braille(lines: &[Vec<char>], width: u16, height: u16) -> (res: Result<Vec<u8>, u32>)
    requires
        forall|r: int, c: int, dy: int, dx: int|
            in_cells(lines_view(lines@), r, c) && braille_through(lines_view(lines@), r, c) && 0 <= dy < 4
                && 0 <= dx < 2 && #[trigger] dot_on(lines_view(lines@)[r][c], dy, dx) ==> byte_index(
                row_bytes_of(width),
                c * 2 + dx,
                r * 4 + dy,
            ) < row_bytes_of(width) * height,
    ensures
        match res {
            Err(codepoint) => exists|r: int, c: int|
                in_cells(lines_view(lines@), r, c) && !is_braille(#[trigger] lines_view(lines@)[r][c])
                    && codepoint == lines_view(lines@)[r][c] as u32 && forall|r1: int, c1: int|
                    #![trigger lines_view(lines@)[r1][c1]]
                    in_cells(lines_view(lines@), r1, c1) && before(r1, c1, r, c) ==> is_braille(
                        lines_view(lines@)[r1][c1],
                    ),
            Ok(frame) => {
                &&& all_braille(lines_view(lines@))
                &&& frame@.len() == row_bytes_of(width) * height
                &&& forall|j: int, t: int|
                    0 <= j < frame@.len() && 0 <= t < 8 ==> (#[trigger] bit_set(frame@[j], t)
                        == #[trigger] lit_by_dots(lines_view(lines@), row_bytes_of(width), j, t))
            },
        },
        match res {
            Ok(frame) => spec_unpack_braille(lines_view(lines@), width, height) == Ok::<Seq<u8>, u32>(
                frame@,
            ),
            Err(codepoint) => spec_unpack_braille(lines_view(lines@), width, height) == Err::<
                Seq<u8>,
                u32,
            >(codepoint),
        },
{
    let ghost text = lines_view(lines@);
    let ghost rb = row_bytes_of(width);
    let ghost h = height as int;
    let row_bytes = (width as usize + 7) / 8;
    proof {
        assert(0 <= rb * h <= 8192 * 65535) by (nonlinear_arith)
            requires
                0 <= rb <= 8192,
                0 <= h <= 65535,
        ;
    }
    let mut frame: Vec<u8> = vec![0u8; row_bytes * height as usize];
    let length = frame.len();
    proof {
        assert forall|j: int, t: int| 0 <= j < frame@.len() && 0 <= t < 8 implies (#[trigger] bit_set(frame@[j], t) == lit_by_done(text, rb, j, t, 0, 0, 0)) by {
            lemma_zero_bits(t as u8);
            if lit_by_done(text, rb, j, t, 0, 0, 0) {
                let (r, c, dy, dx) = choose|r: int, c: int, dy: int, dx: int|
                    #[trigger] dot_sets(text, rb, r, c, dy, dx, j, t) && dot_done(r, c, dy, dx, 0, 0, 0);
            }
        }
    }
    let mut cell_y: usize = 0;
    while cell_y < lines.len()
        invariant
            text == lines_view(lines@),
            rb == row_bytes,
            row_bytes == row_bytes_of(width),
            h == height,
            frame@.len() == rb * h,
            length == frame@.len(),
            cell_y <= lines@.len(),
            forall|r: int, c: int, dy: int, dx: int|
                in_cells(text, r, c) && braille_through(text, r, c) && 0 <= dy < 4 && 0 <= dx < 2
                    && #[trigger] dot_on(text[r][c], dy, dx) ==> byte_index(rb, c * 2 + dx, r * 4 + dy)
                    < rb * h,
            forall|r1: int, c1: int|
                #![trigger text[r1][c1]]
                in_cells(text, r1, c1) && r1 < cell_y ==> is_braille(text[r1][c1]),
            forall|j: int, t: int|
                0 <= j < frame@.len() && 0 <= t < 8 ==> (#[trigger] bit_set(frame@[j], t)
                    == lit_by_done(text, rb, j, t, cell_y as int, 0, 0)),
        decreases lines.len() - cell_y,
    {
        let line = &lines[cell_y];
        assert(line@ == text[cell_y as int]);
        let mut cell_x: usize = 0;
        while cell_x < line.len()
            invariant
                text == lines_view(lines@),
                line@ == text[cell_y as int],
                rb == row_bytes,
                row_bytes == row_bytes_of(width),
                h == height,
                frame@.len() == rb * h,
                length == frame@.len(),
                cell_y < lines@.len(),
                cell_x <= line@.len(),
                forall|r: int, c: int, dy: int, dx: int|
                    in_cells(text, r, c) && braille_through(text, r, c) && 0 <= dy < 4 && 0 <= dx < 2
                        && #[trigger] dot_on(text[r][c], dy, dx) ==> byte_index(rb, c * 2 + dx, r * 4 + dy)
                        < rb * h,
                forall|r1: int, c1: int|
                    #![trigger text[r1][c1]]
                    in_cells(text, r1, c1) && before(r1, c1, cell_y as int, cell_x as int) ==> is_braille(
                        text[r1][c1],
                    ),
                forall|j: int, t: int|
                    0 <= j < frame@.len() && 0 <= t < 8 ==> (#[trigger] bit_set(frame@[j], t)
                        == lit_by_done(text, rb, j, t, cell_y as int, cell_x as int, 0)),
            decreases line.len() - cell_x,
        {
            let codepoint = line[cell_x] as u32;
            if codepoint < 0x2800 || codepoint > 0x28ff {
                assert(!is_braille(text[cell_y as int][cell_x as int]));
                proof {
                    assert(first_non_braille_at(text, cell_y as int, cell_x as int));
                    lemma_first_non_braille_unique(text, width, height, cell_y as int, cell_x as int);
                }
                return Err(codepoint);
            }
            assert(braille_through(text, cell_y as int, cell_x as int));
            let bits = (codepoint - 0x2800) as u8;
            let ghost ch = text[cell_y as int][cell_x as int];
            assert(bits == braille_bits(ch));
            let mut dot_y: usize = 0;
            while dot_y < 4
                invariant
                    text == lines_view(lines@),
                    rb == row_bytes,
                    row_bytes == row_bytes_of(width),
                    h == height,
                    frame@.len() == rb * h,
                    length == frame@.len(),
                    in_cells(text, cell_y as int, cell_x as int),
                    braille_through(text, cell_y as int, cell_x as int),
                    ch == text[cell_y as int][cell_x as int],
                    bits == braille_bits(ch),
                    dot_y <= 4,
                    forall|r: int, c: int, dy: int, dx: int|
                        in_cells(text, r, c) && braille_through(text, r, c) && 0 <= dy < 4 && 0 <= dx < 2
                            && #[trigger] dot_on(text[r][c], dy, dx) ==> byte_index(rb, c * 2 + dx, r * 4 + dy)
                            < rb * h,
                    forall|j: int, t: int|
                        0 <= j < frame@.len() && 0 <= t < 8 ==> (#[trigger] bit_set(frame@[j], t)
                            == lit_by_done(text, rb, j, t, cell_y as int, cell_x as int, dot_y * 2)),
                decreases 4 - dot_y,
            {
                let mut dot_x: usize = 0;
                while dot_x < 2
                    invariant
                        text == lines_view(lines@),
                        rb == row_bytes,
                        row_bytes == row_bytes_of(width),
                        h == height,
                        frame@.len() == rb * h,
                        length == frame@.len(),
                        in_cells(text, cell_y as int, cell_x as int),
                        braille_through(text, cell_y as int, cell_x as int),
                        ch == text[cell_y as int][cell_x as int],
                        bits == braille_bits(ch),
                        dot_y < 4,
                        dot_x <= 2,
                        forall|r: int, c: int, dy: int, dx: int|
                            in_cells(text, r, c) && braille_through(text, r, c) && 0 <= dy < 4 && 0 <= dx < 2
                                && #[trigger] dot_on(text[r][c], dy, dx) ==> byte_index(rb, c * 2 + dx, r * 4 + dy)
                                < rb * h,
                        forall|j: int, t: int|
                            0 <= j < frame@.len() && 0 <= t < 8 ==> (#[trigger] bit_set(frame@[j], t)
                                == lit_by_done(text, rb, j, t, cell_y as int, cell_x as int, dot_y * 2 + dot_x)),
                    decreases 2 - dot_x,
                {
                    let dot = braille_dot(dot_y, dot_x);
                    let ghost k = dot_y * 2 + dot_x;
                    let ghost k1 = k + 1;
                    let ghost x = cell_x * 2 + dot_x;
                    let ghost y = cell_y * 4 + dot_y;
                    if bits & dot != 0 {
                        assert(dot_on(ch, dot_y as int, dot_x as int));
                        assert(byte_index(rb, x, y) < rb * h);
                        proof {
                            assert(rb > 0) by (nonlinear_arith)
                                requires
                                    byte_index(rb, x, y) < rb * h,
                                    y >= 0,
                                    x >= 0,
                                    rb >= 0,
                            ;
                            assert(y * rb < rb * h && 0 <= y * rb) by (nonlinear_arith)
                                requires
                                    byte_index(rb, x, y) < rb * h,
                                    y >= 0,
                                    x >= 0,
                                    rb > 0,
                            ;
                            assert(x / 8 < rb * h);
                            assert(x < 8 * (rb * h) + 8);
                            assert(rb * h <= 8192 * 65535) by (nonlinear_arith)
                                requires
                                    0 <= rb <= 8192,
                                    0 <= h <= 65535,
                            ;
                            assert(y < h) by (nonlinear_arith)
                                requires
                                    y * rb < rb * h,
                                    rb > 0,
                            ;
                        }
                        let px = cell_x * 2 + dot_x;
                        let py = cell_y * 4 + dot_y;
                        let index = py * row_bytes + px / 8;
                        let ghost before = frame@;
                        let value = frame[index] | (0x80u8 >> ((px % 8) as u8));
                        frame.set(index, value);
                        proof {
                            assert forall|j: int, t: int| 0 <= j < frame@.len() && 0 <= t < 8 implies (#[trigger] bit_set(frame@[j], t) == lit_by_done(
                                text,
                                rb,
                                j,
                                t,
                                cell_y as int,
                                cell_x as int,
                                k1,
                            )) by {
                                assert(bit_set(before[j], t) == lit_by_done(text, rb, j, t, cell_y as int, cell_x as int, k));
                                assert(index as int == byte_index(rb, x, y));
                                if j != index {
                                    assert(frame@[j] == before[j]);
                                }
                                if j == index {
                                    assert(frame@[j] == before[j] | (0x80u8 >> ((x % 8) as u8)));
                                    lemma_or_bit(before[j], t as u8, (x % 8) as u8);
                                    if t == x % 8 {
                                        assert(dot_sets(text, rb, cell_y as int, cell_x as int, dot_y as int, dot_x as int, j, t)
                                            && dot_done(cell_y as int, cell_x as int, dot_y as int, dot_x as int, cell_y as int, cell_x as int, k1));
                                    }
                                }
                                let old_lit = lit_by_done(text, rb, j, t, cell_y as int, cell_x as int, k);
                                if old_lit {
                                    let (r, c, dy, dx) = choose|r: int, c: int, dy: int, dx: int|
                                        #[trigger] dot_sets(text, rb, r, c, dy, dx, j, t) && dot_done(r, c, dy, dx, cell_y as int, cell_x as int, k);
                                    assert(dot_sets(text, rb, r, c, dy, dx, j, t) && dot_done(r, c, dy, dx, cell_y as int, cell_x as int, k1));
                                }
                                if lit_by_done(text, rb, j, t, cell_y as int, cell_x as int, k1) {
                                    let (r, c, dy, dx) = choose|r: int, c: int, dy: int, dx: int|
                                        #[trigger] dot_sets(text, rb, r, c, dy, dx, j, t) && dot_done(r, c, dy, dx, cell_y as int, cell_x as int, k1);
                                    if !dot_done(r, c, dy, dx, cell_y as int, cell_x as int, k) {
                                        assert(dy * 2 + dx == k);
                                        assert(dy == dot_y && dx == dot_x);
                                        assert(r == cell_y && c == cell_x);
                                        assert(j == index);
                                        assert(t == x % 8);
                                    }
                                }
                            }
                        }
                    } else {
                        proof {
                            assert(!dot_on(ch, dot_y as int, dot_x as int));
                            assert forall|j: int, t: int| 0 <= j < frame@.len() && 0 <= t < 8 implies (#[trigger] bit_set(frame@[j], t) == lit_by_done(
                                text,
                                rb,
                                j,
                                t,
                                cell_y as int,
                                cell_x as int,
                                k1,
                            )) by {
                                let old_lit = lit_by_done(text, rb, j, t, cell_y as int, cell_x as int, k);
                                if old_lit {
                                    let (r, c, dy, dx) = choose|r: int, c: int, dy: int, dx: int|
                                        #[trigger] dot_sets(text, rb, r, c, dy, dx, j, t) && dot_done(r, c, dy, dx, cell_y as int, cell_x as int, k);
                                    assert(dot_sets(text, rb, r, c, dy, dx, j, t) && dot_done(r, c, dy, dx, cell_y as int, cell_x as int, k1));
                                }
                                if lit_by_done(text, rb, j, t, cell_y as int, cell_x as int, k1) {
                                    let (r, c, dy, dx) = choose|r: int, c: int, dy: int, dx: int|
                                        #[trigger] dot_sets(text, rb, r, c, dy, dx, j, t) && dot_done(r, c, dy, dx, cell_y as int, cell_x as int, k1);
                                    if !dot_done(r, c, dy, dx, cell_y as int, cell_x as int, k) {
                                        assert(dy * 2 + dx == k);
                                        assert(dy == dot_y && dx == dot_x);
                                        assert(false);
                                    }
                                    assert(old_lit);
                                }
                            }
                        }
                    }
                    dot_x += 1;
                }
                dot_y += 1;
            }
            proof {
                assert forall|j: int, t: int| 0 <= j < frame@.len() && 0 <= t < 8 implies lit_by_done(
                    text,
                    rb,
                    j,
                    t,
                    cell_y as int,
                    cell_x as int,
                    8,
                ) == lit_by_done(text, rb, j, t, cell_y as int, cell_x + 1, 0) by {
                    lemma_same_done_set(text, rb, j, t, cell_y as int, cell_x as int, 8, cell_y as int, cell_x + 1, 0);
                }
            }
            cell_x += 1;
        }
        proof {
            assert forall|j: int, t: int| 0 <= j < frame@.len() && 0 <= t < 8 implies lit_by_done(
                text,
                rb,
                j,
                t,
                cell_y as int,
                cell_x as int,
                0,
            ) == lit_by_done(text, rb, j, t, cell_y + 1, 0, 0) by {
                lemma_same_done_set(text, rb, j, t, cell_y as int, cell_x as int, 0, cell_y + 1, 0, 0);
            }
        }
        cell_y += 1;
    }
    proof {
        assert forall|j: int, t: int| 0 <= j < frame@.len() && 0 <= t < 8 implies lit_by_done(
            text,
            rb,
            j,
            t,
            cell_y as int,
            0,
            0,
        ) == lit_by_dots(text, rb, j, t) by {
            if lit_by_dots(text, rb, j, t) {
                let (r, c, dy, dx) = choose|r: int, c: int, dy: int, dx: int|
                    #[trigger] dot_sets(text, rb, r, c, dy, dx, j, t);
                assert(dot_sets(text, rb, r, c, dy, dx, j, t) && dot_done(r, c, dy, dx, cell_y as int, 0, 0));
            }
        }
        assert(all_braille(text));
        let unpacked = Seq::new((rb * h) as nat, |j: int| unpacked_byte(text, rb, j));
        assert forall|j: int| 0 <= j < frame@.len() implies frame@[j] == unpacked[j] by {
            assert forall|s: u8| s < 8 implies ((frame@[j] & (0x80u8 >> s) != 0) == (unpacked[j] & (
            0x80u8 >> s) != 0)) by {
                lemma_unpacked_byte_bit(text, rb, j, s);
                assert(bit_set(frame@[j], s as int) == lit_by_dots(text, rb, j, s as int));
            }
            lemma_bits_determine_byte(frame@[j], unpacked[j]);
        }
        assert(frame@ =~= unpacked);
    }
    Ok(frame)
}

/// Each of the eight dots of a Braille cell is a single bit.
proof fn lemma_single_dot(b: u8, dy: int, dx: int)
    requires
        0 <= dy < 4,
        0 <= dx < 2,
    ensures
        (if b & dot_mask(dy, dx) != 0 { dot_mask(dy, dx) } else { 0u8 }) == b & dot_mask(dy, dx),
{
    let m = dot_mask(dy, dx);
    assert(m == 0x01 || m == 0x02 || m == 0x04 || m == 0x08 || m == 0x10 || m == 0x20 || m == 0x40
        || m == 0x80);
    assert((m == 0x01 || m == 0x02 || m == 0x04 || m == 0x08 || m == 0x10 || m == 0x20 || m == 0x40
        || m == 0x80) ==> (b & m != 0 ==> b & m == m)) by (bit_vector);
}

/// At one cell per 2 by 4 pixels, dot `(dx, dy)` of cell `(cx, cy)`
/// samples pixel `(2 * cx + dx, 4 * cy + dy)`.
proof fn lemma_exact_scale(columns: int, rows: int, cx: int, cy: int, dx: int, dy: int)
    requires
        0 < columns,
        0 < rows,
        0 <= cx < columns,
        0 <= cy < rows,
        0 <= dx < 2,
        0 <= dy < 4,
    ensures
        braille_source_x(2 * columns, columns, cx, dx) == 2 * cx + dx,
        braille_source_y(4 * rows, rows, cy, dy) == 4 * cy + dy,
{
    let a = cx * 2 + dx;
    let b = cy * 4 + dy;
    assert(a * (2 * columns) / (columns * 2) == a) by (nonlinear_arith)
        requires
            columns > 0,
            a >= 0,
    ;
    assert(b * (4 * rows) / (rows * 4) == b) by (nonlinear_arith)
        requires
            rows > 0,
            b >= 0,
    ;
}

/// In the frame unpacked from `lines` at its own size, the pixel under dot
/// `(dx, dy)` of cell `(cx, cy)` is lit exactly when that dot is raised.
proof fn lemma_unpacked_pixel(lines: Seq<Seq<char>>, columns: int, rows: int, cx: int, cy: int, dx: int, dy: int)
    requires
        0 < columns,
        2 * columns <= 0xFFFF,
        0 < rows,
        4 * rows <= 0xFFFF,
        lines.len() == rows,
        forall|r: int| 0 <= r < rows ==> (#[trigger] lines[r]).len() == columns,
        all_braille(lines),
        0 <= cx < columns,
        0 <= cy < rows,
        0 <= dx < 2,
        0 <= dy < 4,
    ensures
        lit(
            spec_unpack_braille(lines, (2 * columns) as u16, (4 * rows) as u16)->Ok_0,
            row_bytes_of((2 * columns) as u16),
            2 * cx + dx,
            4 * cy + dy,
        ) == dot_on(lines[cy][cx], dy, dx),
{
    let w = (2 * columns) as u16;
    let h = (4 * rows) as u16;
    let rb = row_bytes_of(w);
    let frame = spec_unpack_braille(lines, w, h)->Ok_0;
    let x = 2 * cx + dx;
    let y = 4 * cy + dy;
    let t = x % 8;
    assert(rb > 0 && x < 8 * rb);
    lemma_byte_index_bound(rb, h as int, x, y);
    let j = byte_index(rb, x, y);
    assert(frame[j] == unpacked_byte(lines, rb, j));
    lemma_unpacked_byte_bit(lines, rb, j, t as u8);
    assert(lit(frame, rb, x, y) == lit_by_dots(lines, rb, j, t));
    if dot_on(lines[cy][cx], dy, dx) {
        assert(dot_sets(lines, rb, cy, cx, dy, dx, j, t));
    }
    if lit_by_dots(lines, rb, j, t) {
        let (r, c, dy2, dx2) = choose|r: int, c: int, dy2: int, dx2: int|
            #[trigger] dot_sets(lines, rb, r, c, dy2, dx2, j, t);
        let x2 = c * 2 + dx2;
        let y2 = r * 4 + dy2;
        assert(x2 < 8 * rb);
        lemma_byte_index_unique(rb, x, y, x2, y2);
        assert(x == x2);
        assert(c == cx && dx2 == dx);
        assert(r == cy && dy2 == dy);
    }
}

/// Unpacking Braille lines into a frame of their own size (two pixels per
/// cell across, four down) and rendering that frame back at the same size
/// gives the same lines: each cell comes back as the character it was.
pub proof fn lemma_unpack_then_render(lines: Seq<Seq<char>>, columns: int, rows: int)
    requires
        0 < columns,
        2 * columns <= 0xFFFF,
        0 < rows,
        4 * rows <= 0xFFFF,
        lines.len() == rows,
        forall|r: int| 0 <= r < rows ==> (#[trigger] lines[r]).len() == columns,
        all_braille(lines),
    ensures
        spec_unpack_braille(lines, (2 * columns) as u16, (4 * rows) as u16) is Ok,
        forall|cx: int, cy: int|
            0 <= cx < columns && 0 <= cy < rows ==> 0x2800 + cell_bits(
                spec_unpack_braille(lines, (2 * columns) as u16, (4 * rows) as u16)->Ok_0,
                (2 * columns) as u16,
                (4 * rows) as u16,
                columns,
                rows,
                cx,
                cy,
                8,
            ) == #[trigger] lines[cy][cx] as u32,
{
    let w = (2 * columns) as u16;
    let h = (4 * rows) as u16;
    let frame = spec_unpack_braille(lines, w, h)->Ok_0;
    assert forall|cx: int, cy: int| 0 <= cx < columns && 0 <= cy < rows implies 0x2800 + cell_bits(
        frame,
        w,
        h,
        columns,
        rows,
        cx,
        cy,
        8,
    ) == #[trigger] lines[cy][cx] as u32 by {
        let ch = lines[cy][cx];
        let b = braille_bits(ch);
        assert(is_braille(ch));
        assert forall|k: int| 0 <= k < 8 implies #[trigger] cell_dot(frame, w, h, columns, rows, cx, cy, k)
            == b & dot_mask(k / 2, k % 2) by {
            lemma_exact_scale(columns, rows, cx, cy, k % 2, k / 2);
            lemma_unpacked_pixel(lines, columns, rows, cx, cy, k % 2, k / 2);
            lemma_single_dot(b, k / 2, k % 2);
        }
        reveal_with_fuel(cell_bits, 9);
        assert(cell_bits(frame, w, h, columns, rows, cx, cy, 8) == (((((((0u8 | cell_dot(frame, w, h, columns, rows, cx, cy, 0))
            | cell_dot(frame, w, h, columns, rows, cx, cy, 1)) | cell_dot(frame, w, h, columns, rows, cx, cy, 2))
            | cell_dot(frame, w, h, columns, rows, cx, cy, 3)) | cell_dot(frame, w, h, columns, rows, cx, cy, 4))
            | cell_dot(frame, w, h, columns, rows, cx, cy, 5)) | cell_dot(frame, w, h, columns, rows, cx, cy, 6))
            | cell_dot(frame, w, h, columns, rows, cx, cy, 7));
        assert(((((((((0u8 | (b & 0x01)) | (b & 0x08)) | (b & 0x02)) | (b & 0x10)) | (b & 0x04)) | (b
            & 0x20)) | (b & 0x40)) | (b & 0x80)) == b) by (bit_vector);
        assert(cell_bits(frame, w, h, columns, rows, cx, cy, 8) == b);
    }
}

/// The byte whose Braille dots, taken row by row with the left dot first,
/// are raised where `b0` to `b7` say.
pub open spec fn dot_byte(b0: bool, b1: bool, b2: bool, b3: bool, b4: bool, b5: bool, b6: bool, b7: bool) -> u8 {
    (((((((0u8 | (if b0 { 0x01u8 } else { 0u8 })) | (if b1 { 0x08u8 } else { 0u8 })) | (if b2 {
        0x02u8
    } else {
        0u8
    })) | (if b3 { 0x10u8 } else { 0u8 })) | (if b4 { 0x04u8 } else { 0u8 })) | (if b5 {
        0x20u8
    } else {
        0u8
    })) | (if b6 { 0x40u8 } else { 0u8 })) | (if b7 { 0x80u8 } else { 0u8 })
}

proof fn lemma_dot_byte(b0: bool, b1: bool, b2: bool, b3: bool, b4: bool, b5: bool, b6: bool, b7: bool)
    by (bit_vector)
    ensures
        (dot_byte(b0, b1, b2, b3, b4, b5, b6, b7) & 0x01u8 != 0) == b0,
        (dot_byte(b0, b1, b2, b3, b4, b5, b6, b7) & 0x08u8 != 0) == b1,
        (dot_byte(b0, b1, b2, b3, b4, b5, b6, b7) & 0x02u8 != 0) == b2,
        (dot_byte(b0, b1, b2, b3, b4, b5, b6, b7) & 0x10u8 != 0) == b3,
        (dot_byte(b0, b1, b2, b3, b4, b5, b6, b7) & 0x04u8 != 0) == b4,
        (dot_byte(b0, b1, b2, b3, b4, b5, b6, b7) & 0x20u8 != 0) == b5,
        (dot_byte(b0, b1, b2, b3, b4, b5, b6, b7) & 0x40u8 != 0) == b6,
        (dot_byte(b0, b1, b2, b3, b4, b5, b6, b7) & 0x80u8 != 0) == b7,
{
}

/// The bit of dot `(dx, dy)` in a Unicode Braille pattern: Unicode numbers
/// the dots 1 to 3 down the left column, 4 to 6 down the right column, and
/// 7 and 8 along the bottom row; dot `n` is bit `n - 1` of the offset from
/// U+2800.
pub open spec fn braille_dot_bit(dy: int, dx: int) -> u8 {
    let dot = if dy < 3 {
        dy + 3 * dx + 1
    } else {
        7 + dx
    };
    if dot == 1 {
        0x01
    } else if dot == 2 {
        0x02
    } else if dot == 3 {
        0x04
    } else if dot == 4 {
        0x08
    } else if dot == 5 {
        0x10
    } else if dot == 6 {
        0x20
    } else if dot == 7 {
        0x40
    } else {
        0x80
    }
}

/// Pixel number `k` of the dots of cell `(cx, cy)`, counting row by row,
/// at the position the law below gives for it, is lit.
spec fn dot_sampled(
    frame: Seq<u8>,
    width: u16,
    height: u16,
    columns: int,
    rows: int,
    cx: int,
    cy: int,
    k: int,
) -> bool {
    lit(
        frame,
        row_bytes_of(width),
        (2 * cx + k % 2) * width / (2 * columns),
        (4 * cy + k / 2) * height / (4 * rows),
    )
}

proof fn lemma_cell_bits_byte(
    frame: Seq<u8>,
    width: u16,
    height: u16,
    columns: int,
    rows: int,
    cx: int,
    cy: int,
)
    ensures
        cell_bits(frame, width, height, columns, rows, cx, cy, 8) == dot_byte(
            dot_sampled(frame, width, height, columns, rows, cx, cy, 0),
            dot_sampled(frame, width, height, columns, rows, cx, cy, 1),
            dot_sampled(frame, width, height, columns, rows, cx, cy, 2),
            dot_sampled(frame, width, height, columns, rows, cx, cy, 3),
            dot_sampled(frame, width, height, columns, rows, cx, cy, 4),
            dot_sampled(frame, width, height, columns, rows, cx, cy, 5),
            dot_sampled(frame, width, height, columns, rows, cx, cy, 6),
            dot_sampled(frame, width, height, columns, rows, cx, cy, 7),
        ),
{
    assert forall|k: int| 0 <= k < 8 implies #[trigger] cell_dot(
        frame,
        width,
        height,
        columns,
        rows,
        cx,
        cy,
        k,
    ) == (if dot_sampled(frame, width, height, columns, rows, cx, cy, k) {
        dot_mask(k / 2, k % 2)
    } else {
        0u8
    }) by {
        assert(braille_source_x(width as int, columns, cx, k % 2) == (2 * cx + k % 2) * width / (2
            * columns));
        assert(braille_source_y(height as int, rows, cy, k / 2) == (4 * cy + k / 2) * height / (4
            * rows));
    }
    reveal_with_fuel(cell_bits, 9);
}

/// Rendering scales the frame onto the grid of dots, whatever the sizes:
/// dot `(dx, dy)` of cell `(cx, cy)` is raised exactly when pixel
/// `((2 cx + dx) * width / (2 columns), (4 cy + dy) * height / (4 rows))`
/// of the frame is lit, so the `2 columns` dot columns spread evenly over the
/// `width` pixels (and likewise down), and every sampled pixel lies inside
/// the frame.
pub proof fn lemma_braille_dot_samples(
    frame: Seq<u8>,
    width: u16,
    height: u16,
    columns: int,
    rows: int,
    cx: int,
    cy: int,
    dx: int,
    dy: int,
)
    requires
        0 < columns,
        0 < rows,
        0 <= cx < columns,
        0 <= cy < rows,
        0 <= dx < 2,
        0 <= dy < 4,
    ensures
        (cell_bits(frame, width, height, columns, rows, cx, cy, 8) & braille_dot_bit(dy, dx) != 0)
            == lit(
            frame,
            row_bytes_of(width),
            (2 * cx + dx) * width / (2 * columns),
            (4 * cy + dy) * height / (4 * rows),
        ),
        width > 0 ==> 0 <= (2 * cx + dx) * width / (2 * columns) < width,
        height > 0 ==> 0 <= (4 * cy + dy) * height / (4 * rows) < height,
{
    lemma_cell_bits_byte(frame, width, height, columns, rows, cx, cy);
    let s0 = dot_sampled(frame, width, height, columns, rows, cx, cy, 0);
    let s1 = dot_sampled(frame, width, height, columns, rows, cx, cy, 1);
    let s2 = dot_sampled(frame, width, height, columns, rows, cx, cy, 2);
    let s3 = dot_sampled(frame, width, height, columns, rows, cx, cy, 3);
    let s4 = dot_sampled(frame, width, height, columns, rows, cx, cy, 4);
    let s5 = dot_sampled(frame, width, height, columns, rows, cx, cy, 5);
    let s6 = dot_sampled(frame, width, height, columns, rows, cx, cy, 6);
    let s7 = dot_sampled(frame, width, height, columns, rows, cx, cy, 7);
    lemma_dot_byte(s0, s1, s2, s3, s4, s5, s6, s7);
    let k = dy * 2 + dx;
    assert(k % 2 == dx && k / 2 == dy);
    assert(dot_sampled(frame, width, height, columns, rows, cx, cy, k) == lit(
        frame,
        row_bytes_of(width),
        (2 * cx + dx) * width / (2 * columns),
        (4 * cy + dy) * height / (4 * rows),
    ));
    let w = width as int;
    let h = height as int;
    let a = 2 * cx + dx;
    let c = 4 * cy + dy;
    assert(w > 0 ==> 0 <= a * w / (2 * columns) < w) by (nonlinear_arith)
        requires
            0 <= a < 2 * columns,
            columns > 0,
            w >= 0,
    ;
    assert(h > 0 ==> 0 <= c * h / (4 * rows) < h) by (nonlinear_arith)
        requires
            0 <= c < 4 * rows,
            rows > 0,
            h >= 0,
    ;
}

/// The mask scales the frame onto its cells, whatever the sizes: cell
/// `(column, row)` samples pixel `(column * width / columns, row * height /
/// rows)`; when the width is `k` times the number of columns, column `c`
/// samples pixel `k * c`; and every sample lies inside the frame.
pub proof fn lemma_mask_samples(width: int, height: int, columns: int, rows: int, column: int, row: int)
    requires
        0 < columns,
        0 < rows,
        0 <= column < columns,
        0 <= row < rows,
        0 <= width,
        0 <= height,
    ensures
        mask_source_x(width, columns, column) == column * width / columns,
        mask_source_y(height, rows, row) == row * height / rows,
        width > 0 ==> 0 <= mask_source_x(width, columns, column) < width,
        height > 0 ==> 0 <= mask_source_y(height, rows, row) < height,
        forall|k: int| #![trigger k * columns] width == k * columns ==> mask_source_x(width, columns, column) == k * column,
        forall|k: int| #![trigger k * rows] height == k * rows ==> mask_source_y(height, rows, row) == k * row,
{
    assert(width > 0 ==> 0 <= column * width / columns < width) by (nonlinear_arith)
        requires
            0 <= column < columns,
            0 <= width,
    ;
    assert(height > 0 ==> 0 <= row * height / rows < height) by (nonlinear_arith)
        requires
            0 <= row < rows,
            0 <= height,
    ;
    assert forall|k: int| #![trigger k * columns] width == k * columns implies column * width / columns == k
        * column by {
        assert(column * (k * columns) == columns * (k * column)) by (nonlinear_arith);
        vstd::arithmetic::div_mod::lemma_div_multiples_vanish(k * column, columns);
    }
    assert forall|k: int| #![trigger k * rows] height == k * rows implies row * height / rows == k * row by {
        assert(row * (k * rows) == rows * (k * row)) by (nonlinear_arith);
        vstd::arithmetic::div_mod::lemma_div_multiples_vanish(k * row, rows);
    }
}

} // verus!
