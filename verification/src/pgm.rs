//! Binary (P5) PGM images: the header's tokens and numbers, and the pixels
//! after it.
use vstd::prelude::*;
use vstd::utf8::valid_utf8;
use crate::raster::{pack_frame, packed_frame};
use crate::records::views;

verus! {

/// ASCII whitespace: space, tab, line feed, form feed, carriage return.
pub open spec fn is_space(b: u8) -> bool {
    b == 0x20 || b == 0x09 || b == 0x0A || b == 0x0C || b == 0x0D
}

fn space(b: u8) -> (r: bool)
    ensures
        r == is_space(b),
{
    b == 0x20 || b == 0x09 || b == 0x0A || b == 0x0C || b == 0x0D
}

/// The first position from `p` on that is not whitespace.
pub open spec fn skip_spaces(b: Seq<u8>, p: int) -> int
    decreases b.len() - p,
{
    if 0 <= p < b.len() && is_space(b[p]) {
        skip_spaces(b, p + 1)
    } else {
        p
    }
}

/// The end of the line that `p` is on: the next line feed, or the end.
pub open spec fn skip_comment(b: Seq<u8>, p: int) -> int
    decreases b.len() - p,
{
    if 0 <= p < b.len() && b[p] != 0x0A {
        skip_comment(b, p + 1)
    } else {
        p
    }
}

pub proof fn lemma_skip_spaces(b: Seq<u8>, p: int)
    ensures
        p <= skip_spaces(b, p),
        0 <= p <= b.len() ==> skip_spaces(b, p) <= b.len(),
    decreases b.len() - p,
{
    if 0 <= p < b.len() && is_space(b[p]) {
        lemma_skip_spaces(b, p + 1);
    }
}

pub proof fn lemma_skip_comment(b: Seq<u8>, p: int)
    ensures
        p <= skip_comment(b, p),
        0 <= p <= b.len() ==> skip_comment(b, p) <= b.len(),
    decreases b.len() - p,
{
    if 0 <= p < b.len() && b[p] != 0x0A {
        lemma_skip_comment(b, p + 1);
    }
}

/// The start of the next token from `p` on: whitespace and comments (from
/// `#` to the end of the line) are skipped.
pub open spec fn skip_filler(b: Seq<u8>, p: int) -> int
    decreases b.len() - p,
{
    let q = skip_spaces(b, p);
    if 0 <= q < b.len() && b[q] == 0x23 {
        proof {
            lemma_skip_spaces(b, p);
            lemma_skip_comment(b, q + 1);
        }
        skip_filler(b, skip_comment(b, q))
    } else {
        q
    }
}

/// The end of the token that starts at `s`: the next whitespace, or the end.
pub open spec fn token_end(b: Seq<u8>, s: int) -> int
    decreases b.len() - s,
{
    if 0 <= s < b.len() && !is_space(b[s]) {
        token_end(b, s + 1)
    } else {
        s
    }
}

/// The next token from `p` on, if there is one, and where reading stops.
pub open spec fn spec_token(b: Seq<u8>, p: int) -> (Option<Seq<u8>>, int) {
    let s = skip_filler(b, p);
    let e = token_end(b, s);
    (
        if s != e {
            Some(b.subrange(s, e))
        } else {
            None
        },
        e,
    )
}

proof fn lemma_token_bounds(b: Seq<u8>, p: int)
    requires
        0 <= p <= b.len(),
    ensures
        p <= skip_filler(b, p) <= token_end(b, skip_filler(b, p)) <= b.len(),
    decreases b.len() - p,
{
    lemma_skip_spaces(b, p);
    let q = skip_spaces(b, p);
    if 0 <= q < b.len() && b[q] == 0x23 {
        lemma_skip_comment(b, q);
        lemma_skip_comment(b, q + 1);
        lemma_token_bounds(b, skip_comment(b, q));
    } else {
        lemma_token_end(b, q);
    }
}

proof fn lemma_token_end(b: Seq<u8>, s: int)
    requires
        0 <= s <= b.len(),
    ensures
        s <= token_end(b, s) <= b.len(),
    decreases b.len() - s,
{
    if s < b.len() && !is_space(b[s]) {
        lemma_token_end(b, s + 1);
    }
}

/// Reads the next token from `cursor` on and leaves `cursor` after it.
pub fn token<'a>(bytes: &'a [u8], cursor: &mut usize) -> (res: Option<&'a [u8]>)
    ensures
        *final(cursor) == spec_token(bytes@, *old(cursor) as int).1,
        match spec_token(bytes@, *old(cursor) as int).0 {
            Some(t) => res matches Some(r) && r@ == t,
            None => res is None,
        },
{
    let ghost b = bytes@;
    let ghost p0 = *old(cursor) as int;
    let length = bytes.len();
    if *cursor > length {
        return None;
    }
    loop
        invariant_except_break
            *cursor <= length,
            length == b.len(),
            b == bytes@,
            skip_filler(b, p0) == skip_filler(b, *cursor as int),
        ensures
            *cursor <= length,
            skip_filler(b, p0) == *cursor,
        decreases length - *cursor,
    {
        let ghost at = *cursor as int;
        while *cursor < length && space(bytes[*cursor])
            invariant
                at <= *cursor <= length,
                length == b.len(),
                b == bytes@,
                skip_spaces(b, at) == skip_spaces(b, *cursor as int),
            decreases length - *cursor,
        {
            *cursor += 1;
        }
        if *cursor >= length || bytes[*cursor] != 0x23 {
            break;
        }
        let ghost q = *cursor as int;
        while *cursor < length && bytes[*cursor] != 0x0A
            invariant
                q <= *cursor <= length,
                length == b.len(),
                b == bytes@,
                skip_comment(b, q) == skip_comment(b, *cursor as int),
            decreases length - *cursor,
        {
            *cursor += 1;
        }
        proof {
            lemma_skip_spaces(b, at);
            lemma_skip_comment(b, q + 1);
        }
    }
    let start = *cursor;
    while *cursor < length && !space(bytes[*cursor])
        invariant
            start <= *cursor <= length,
            length == b.len(),
            b == bytes@,
            token_end(b, start as int) == token_end(b, *cursor as int),
        decreases length - *cursor,
    {
        *cursor += 1;
    }
    if start != *cursor {
        Some(&bytes[start..*cursor])
    } else {
        None
    }
}

/// An ASCII decimal digit.
pub open spec fn is_digit(b: u8) -> bool {
    0x30 <= b <= 0x39
}

/// Why a token is not a `u16`, as `str::parse` tells it.
#[derive(Debug, Clone, Copy, PartialEq, Eq)]
pub enum NumberError {
    /// The token is empty.
    Empty,
    /// A byte is not a decimal digit, or a sign stands alone.
    InvalidDigit,
    /// The digits read so far make a value above `u16::MAX`.
    TooLarge,
}

/// `t` without the `+` that may lead it.
pub open spec fn unsigned_digits(t: Seq<u8>) -> Seq<u8> {
    if t.len() > 0 && t[0] == 0x2B {
        t.subrange(1, t.len() as int)
    } else {
        t
    }
}

/// Reading `digits` in decimal from byte `i` on, with `value` read so far:
/// the first byte that is not a digit, or whose digit takes the value past
/// `u16::MAX`, stops the reading with that error.
pub open spec fn scan_u16(digits: Seq<u8>, i: int, value: int) -> Result<u16, NumberError>
    decreases digits.len() - i,
{
    if i >= digits.len() {
        Ok(value as u16)
    } else if !is_digit(digits[i]) {
        Err(NumberError::InvalidDigit)
    } else if value * 10 + (digits[i] - 0x30) > u16::MAX {
        Err(NumberError::TooLarge)
    } else {
        scan_u16(digits, i + 1, value * 10 + (digits[i] - 0x30))
    }
}

/// What reading `t` as a `u16` gives: an optional `+`, then decimal digits
/// read from the left, for a value that fits.
pub open spec fn spec_parse_u16(t: Seq<u8>) -> Result<u16, NumberError> {
    if t.len() == 0 {
        Err(NumberError::Empty)
    } else if t.len() == 1 && (t[0] == 0x2B || t[0] == 0x2D) {
        Err(NumberError::InvalidDigit)
    } else {
        scan_u16(unsigned_digits(t), 0, 0)
    }
}

/// Reads a token as a `u16`, as `str::parse` does.
pub fn parse_u16(t: &[u8]) -> (res: Result<u16, NumberError>)
    ensures
        res == spec_parse_u16(t@),
{
    if t.len() == 0 {
        return Err(NumberError::Empty);
    }
    if t.len() == 1 && (t[0] == 0x2B || t[0] == 0x2D) {
        return Err(NumberError::InvalidDigit);
    }
    let mut start: usize = 0;
    if t[0] == 0x2B {
        start = 1;
    }
    let ghost digits = unsigned_digits(t@);
    assert(digits =~= t@.subrange(start as int, t@.len() as int));
    let mut value: u32 = 0;
    let mut i: usize = start;
    while i < t.len()
        invariant
            start <= i <= t@.len(),
            digits == t@.subrange(start as int, t@.len() as int),
            digits == unsigned_digits(t@),
            t@.len() > 0,
            !(t@.len() == 1 && (t@[0] == 0x2B || t@[0] == 0x2D)),
            value <= u16::MAX,
            scan_u16(digits, i - start, value as int) == spec_parse_u16(t@),
        decreases t.len() - i,
    {
        let b = t[i];
        assert(digits[i - start] == b);
        if b < 0x30 || b > 0x39 {
            return Err(NumberError::InvalidDigit);
        }
        let next = value * 10 + (b - 0x30) as u32;
        if next > 65535 {
            return Err(NumberError::TooLarge);
        }
        value = next;
        i += 1;
    }
    Ok(value as u16)
}

/// Calls `std::str::from_utf8`: whether `bytes` are valid UTF-8, as vstd
/// states validity.
#[verifier::external_body]
fn is_utf8(bytes: &[u8]) -> (valid: bool)
    ensures
        valid == valid_utf8(bytes@),
{
    std::str::from_utf8(bytes).is_ok()
}

/// Why a PGM image cannot be read.
#[derive(Debug, Clone, Copy, PartialEq, Eq)]
pub enum PgmError {
    MissingMagic,
    NotBinary,
    MissingWidth,
    MissingHeight,
    MissingMaximum,
    /// A header token is not valid UTF-8.
    NotUtf8,
    /// A header token is not a `u16`.
    BadNumber(NumberError),
    NotEightBit,
    TruncatedPixels,
}

/// The number in the next token from `p` on, and where reading stops;
/// `missing` when there is no token.
pub open spec fn spec_header_number(b: Seq<u8>, p: int, missing: PgmError) -> Result<
    (u16, int),
    PgmError,
> {
    match spec_token(b, p).0 {
        None => Err(missing),
        Some(t) => if !valid_utf8(t) {
            Err(PgmError::NotUtf8)
        } else {
            match spec_parse_u16(t) {
                Err(e) => Err(PgmError::BadNumber(e)),
                Ok(v) => Ok((v, spec_token(b, p).1)),
            }
        },
    }
}

/// The `P5` that starts a binary PGM file.
pub open spec fn binary_magic() -> Seq<u8> {
    seq![0x50u8, 0x35u8]
}

/// What reading a binary PGM file gives: its width, its height and its
/// pixels, one byte each, starting just after the one whitespace byte that
/// ends the maximum grey value; or why it cannot be read.
pub open spec fn spec_parse_pgm(b: Seq<u8>) -> Result<(u16, u16, Seq<u8>), PgmError> {
    match spec_token(b, 0).0 {
        None => Err(PgmError::MissingMagic),
        Some(m) => if m != binary_magic() {
            Err(PgmError::NotBinary)
        } else {
            match spec_header_number(b, spec_token(b, 0).1, PgmError::MissingWidth) {
                Err(e) => Err(e),
                Ok((width, p2)) => match spec_header_number(b, p2, PgmError::MissingHeight) {
                    Err(e) => Err(e),
                    Ok((height, p3)) => match spec_header_number(b, p3, PgmError::MissingMaximum) {
                        Err(e) => Err(e),
                        Ok((maximum, p4)) => if maximum != 255 {
                            Err(PgmError::NotEightBit)
                        } else {
                            let start = p4 + 1;
                            let size = width * height;
                            if start + size > b.len() {
                                Err(PgmError::TruncatedPixels)
                            } else {
                                Ok((width, height, b.subrange(start, start + size)))
                            }
                        },
                    },
                },
            }
        },
    }
}

fn header_number(bytes: &[u8], cursor: &mut usize, missing: PgmError) -> (res: Result<
    u16,
    PgmError,
>)
    ensures
        match spec_header_number(bytes@, *old(cursor) as int, missing) {
            Ok((v, p)) => res == Ok::<u16, PgmError>(v) && *final(cursor) == p,
            Err(e) => res == Err::<u16, PgmError>(e),
        },
{
    match token(bytes, cursor) {
        None => Err(missing),
        Some(t) => if !is_utf8(t) {
            Err(PgmError::NotUtf8)
        } else {
            match parse_u16(t) {
                Err(e) => Err(PgmError::BadNumber(e)),
                Ok(v) => Ok(v),
            }
        },
    }
}

/// Reads a binary PGM file: the `P5` magic, the width, the height and the
/// maximum grey value (which must be 255), then a single whitespace byte,
/// then one byte per pixel.
pub fn parse_pgm(bytes: &[u8]) -> (res: Result<(u16, u16, Vec<u8>), PgmError>)
    ensures
        match spec_parse_pgm(bytes@) {
            Ok((width, height, pixels)) => res matches Ok((w, h, p)) && w == width && h == height
                && p@ == pixels,
            Err(e) => res == Err::<(u16, u16, Vec<u8>), PgmError>(e),
        },
{
    let ghost b = bytes@;
    let mut cursor: usize = 0;
    let magic = match token(bytes, &mut cursor) {
        None => return Err(PgmError::MissingMagic),
        Some(m) => m,
    };
    if magic.len() != 2 || magic[0] != 0x50 || magic[1] != 0x35 {
        assert(magic@ != binary_magic()) by {
            if magic@ == binary_magic() {
                assert(magic@[0] == 0x50 && magic@[1] == 0x35);
            }
        }
        return Err(PgmError::NotBinary);
    }
    assert(magic@ =~= binary_magic());
    let width = match header_number(bytes, &mut cursor, PgmError::MissingWidth) {
        Ok(v) => v,
        Err(e) => return Err(e),
    };
    let height = match header_number(bytes, &mut cursor, PgmError::MissingHeight) {
        Ok(v) => v,
        Err(e) => return Err(e),
    };
    let maximum = match header_number(bytes, &mut cursor, PgmError::MissingMaximum) {
        Ok(v) => v,
        Err(e) => return Err(e),
    };
    if maximum != 255 {
        return Err(PgmError::NotEightBit);
    }
    let length = bytes.len();
    proof {
        let w = width as int;
        let h = height as int;
        assert(0 <= w * h <= 65535 * 65535) by (nonlinear_arith)
            requires
                0 <= w <= 65535,
                0 <= h <= 65535,
        ;
    }
    let size = width as usize * height as usize;
    if cursor >= length || length - (cursor + 1) < size {
        return Err(PgmError::TruncatedPixels);
    }
    let start = cursor + 1;
    let pixels = vstd::slice::slice_to_vec(&bytes[start..start + size]);
    Ok((width, height, pixels))
}

/// Adds a PGM image to the frames of a movie, packed one bit per pixel,
/// when it has the size of the images added before it (or is the first);
/// `false`, with nothing changed, when its size differs.
pub fn add_pgm_frame(
    dimensions: &mut Option<(u16, u16)>,
    frames: &mut Vec<Vec<u8>>,
    width: u16,
    height: u16,
    pixels: &[u8],
) -> (added: bool)
    requires
        width * height <= pixels@.len(),
    ensures
        added == (*old(dimensions) matches Some((w, h)) ==> w == width && h == height),
        added ==> *final(dimensions) == Some((width, height)) && views(final(frames)@) == views(
            old(frames)@,
        ).push(packed_frame(width, height, pixels@)),
        !added ==> *final(dimensions) == *old(dimensions) && final(frames)@ == old(frames)@,
{
    let fits = match *dimensions {
        None => true,
        Some((w, h)) => w == width && h == height,
    };
    if !fits {
        return false;
    }
    let packed = pack_frame(width, height, pixels);
    frames.push(packed);
    *dimensions = Some((width, height));
    assert(views(frames@) =~= views(old(frames)@).push(packed_frame(width, height, pixels@)));
    true
}

} // verus!
