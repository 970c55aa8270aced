//! Braille movies written as text: blocks separated by blank lines, each a
//! number, a `-->` timing line, then the rows of Braille cells of a frame.
use vstd::prelude::*;
use crate::raster::{
    byte_index, dot_on, in_cells, lemma_byte_index_bound, lines_view, spec_unpack_braille,
    braille_through, unpack_braille,
};
use crate::format::row_bytes_of;
use crate::records::views;

verus! {

/// Rewrites `s` from position `i` on with each CR LF turned into LF,
/// after `acc`.
pub open spec fn crlf_from(s: Seq<char>, i: int, acc: Seq<char>) -> Seq<char>
    decreases s.len() - i,
{
    if i < 0 || i >= s.len() {
        acc
    } else if i + 1 < s.len() && s[i] == '\r' && s[i + 1] == '\n' {
        crlf_from(s, i + 2, acc.push('\n'))
    } else {
        crlf_from(s, i + 1, acc.push(s[i]))
    }
}

/// `s` with each CR LF turned into LF.
pub open spec fn normalize_newlines(s: Seq<char>) -> Seq<char> {
    crlf_from(s, 0, seq![])
}

/// Splits `s` at each blank line (two LFs in a row, matched from the left)
/// from position `i` on; the current block started at `start`.
pub open spec fn blocks_from(s: Seq<char>, start: int, i: int, acc: Seq<Seq<char>>) -> Seq<Seq<char>>
    decreases s.len() - i,
{
    if i < 0 || i >= s.len() {
        acc.push(s.subrange(start, s.len() as int))
    } else if i + 1 < s.len() && s[i] == '\n' && s[i + 1] == '\n' {
        blocks_from(s, i + 2, i + 2, acc.push(s.subrange(start, i)))
    } else {
        blocks_from(s, start, i + 1, acc)
    }
}

/// The blocks of `s`, as `str::split` with a blank line gives them.
pub open spec fn blocks(s: Seq<char>) -> Seq<Seq<char>> {
    blocks_from(s, 0, 0, seq![])
}

/// A line without its LF, and without the CR before it.
pub open spec fn line_before(b: Seq<char>, start: int, end: int) -> Seq<char> {
    let line = b.subrange(start, end);
    if line.len() > 0 && line.last() == '\r' {
        line.drop_last()
    } else {
        line
    }
}

/// Splits `b` into lines from position `i` on; the current line started at
/// `start`.
pub open spec fn lines_from(b: Seq<char>, start: int, i: int, acc: Seq<Seq<char>>) -> Seq<Seq<char>>
    decreases b.len() - i,
{
    if i < 0 || i >= b.len() {
        if start < b.len() {
            acc.push(b.subrange(start, b.len() as int))
        } else {
            acc
        }
    } else if b[i] == '\n' {
        lines_from(b, i + 1, i + 1, acc.push(line_before(b, start, i)))
    } else {
        lines_from(b, start, i + 1, acc)
    }
}

/// The lines of `b`, as `str::lines` gives them.
pub open spec fn block_lines(b: Seq<char>) -> Seq<Seq<char>> {
    lines_from(b, 0, 0, seq![])
}

/// `l` holds `-->`.
pub open spec fn has_arrow(l: Seq<char>) -> bool {
    exists|i: int| 0 <= i && i + 3 <= l.len() && #[trigger] l[i] == '-' && l[i + 1] == '-' && l[i + 2] == '>'
}

/// Why a Braille text movie cannot be read.
#[derive(Debug, Clone, Copy, PartialEq, Eq)]
pub enum BrailleError {
    InconsistentWidth,
    TooWide,
    TooTall,
    InconsistentDimensions,
    NonBraille(u32),
    NoFrames,
}

/// Every line of `image` has `columns` characters.
pub open spec fn same_width(image: Seq<Seq<char>>, columns: int) -> bool {
    forall|k: int| 0 <= k < image.len() ==> (#[trigger] image[k]).len() == columns
}

/// Reads the frames of the blocks from number `i` on, after the frames
/// already read, whose size is `dims`.
pub open spec fn frames_from(
    blocks: Seq<Seq<char>>,
    i: int,
    dims: Option<(u16, u16)>,
    frames: Seq<Seq<u8>>,
) -> Result<(u16, u16, Seq<Seq<u8>>), BrailleError>
    decreases blocks.len() - i,
{
    if i < 0 || i >= blocks.len() {
        match dims {
            None => Err(BrailleError::NoFrames),
            Some((w, h)) => Ok((w, h, frames)),
        }
    } else {
        let lines = block_lines(blocks[i]);
        if lines.len() < 3 || !has_arrow(lines[1]) {
            frames_from(blocks, i + 1, dims, frames)
        } else {
            let image = lines.subrange(2, lines.len() as int);
            let columns = image[0].len() as int;
            if columns == 0 || !same_width(image, columns) {
                Err(BrailleError::InconsistentWidth)
            } else if columns * 2 > u16::MAX {
                Err(BrailleError::TooWide)
            } else if image.len() * 4 > u16::MAX {
                Err(BrailleError::TooTall)
            } else {
                let w = (columns * 2) as u16;
                let h = (image.len() * 4) as u16;
                if dims is Some && dims != Some((w, h)) {
                    Err(BrailleError::InconsistentDimensions)
                } else {
                    match spec_unpack_braille(image, w, h) {
                        Err(codepoint) => Err(BrailleError::NonBraille(codepoint)),
                        Ok(frame) => frames_from(blocks, i + 1, Some((w, h)), frames.push(frame)),
                    }
                }
            }
        }
    }
}

/// What reading a Braille text movie gives: the frame size and the frames,
/// or why it cannot be read.
pub open spec fn spec_parse_braille(text: Seq<char>) -> Result<(u16, u16, Seq<Seq<u8>>), BrailleError> {
    frames_from(blocks(normalize_newlines(text)), 0, None, seq![])
}

/// Frames of one size, read from Braille text.
pub struct FrameSet {
    pub width: u16,
    pub height: u16,
    pub frames: Vec<Vec<u8>>,
}

fn normalize(text: &[char]) -> (out: Vec<char>)
    ensures
        out@ == normalize_newlines(text@),
{
    let ghost s = text@;
    let mut out: Vec<char> = Vec::new();
    let mut i: usize = 0;
    let length = text.len();
    while i < length
        invariant
            s == text@,
            length == s.len(),
            i <= length,
            normalize_newlines(s) == crlf_from(s, i as int, out@),
        decreases length - i,
    {
        if i + 1 < length && text[i] == '\r' && text[i + 1] == '\n' {
            out.push('\n');
            i += 2;
        } else {
            out.push(text[i]);
            i += 1;
        }
    }
    out
}

fn split_blocks(s: &[char]) -> (out: Vec<Vec<char>>)
    ensures
        lines_view(out@) == blocks(s@),
{
    let ghost text = s@;
    let mut out: Vec<Vec<char>> = Vec::new();
    let mut start: usize = 0;
    let mut i: usize = 0;
    let length = s.len();
    assert(lines_view(out@) =~= Seq::<Seq<char>>::empty());
    while i < length
        invariant
            text == s@,
            length == text.len(),
            start <= i <= length,
            blocks(text) == blocks_from(text, start as int, i as int, lines_view(out@)),
        decreases length - i,
    {
        if i + 1 < length && s[i] == '\n' && s[i + 1] == '\n' {
            let block = vstd::slice::slice_to_vec(&s[start..i]);
            let ghost before = lines_view(out@);
            out.push(block);
            assert(lines_view(out@) =~= before.push(text.subrange(start as int, i as int)));
            i += 2;
            start = i;
        } else {
            i += 1;
        }
    }
    let block = vstd::slice::slice_to_vec(&s[start..length]);
    let ghost before = lines_view(out@);
    out.push(block);
    assert(lines_view(out@) =~= before.push(text.subrange(start as int, length as int)));
    out
}

fn split_lines(b: &[char]) -> (out: Vec<Vec<char>>)
    ensures
        lines_view(out@) == block_lines(b@),
{
    let ghost text = b@;
    let mut out: Vec<Vec<char>> = Vec::new();
    let mut start: usize = 0;
    let mut i: usize = 0;
    let length = b.len();
    assert(lines_view(out@) =~= Seq::<Seq<char>>::empty());
    while i < length
        invariant
            text == b@,
            length == text.len(),
            start <= i <= length,
            block_lines(text) == lines_from(text, start as int, i as int, lines_view(out@)),
        decreases length - i,
    {
        if b[i] == '\n' {
            let mut end = i;
            if end > start && b[end - 1] == '\r' {
                end = end - 1;
            }
            let line = vstd::slice::slice_to_vec(&b[start..end]);
            let ghost before = lines_view(out@);
            out.push(line);
            assert(line@ =~= line_before(text, start as int, i as int));
            assert(lines_view(out@) =~= before.push(line_before(text, start as int, i as int)));
            i += 1;
            start = i;
        } else {
            i += 1;
        }
    }
    if start < length {
        let line = vstd::slice::slice_to_vec(&b[start..length]);
        let ghost before = lines_view(out@);
        out.push(line);
        assert(lines_view(out@) =~= before.push(text.subrange(start as int, length as int)));
    }
    out
}

fn arrow_in(l: &[char]) -> (found: bool)
    ensures
        found == has_arrow(l@),
{
    let length = l.len();
    let mut i: usize = 0;
    while i < length && length - i >= 3
        invariant
            length == l@.len(),
            forall|k: int| 0 <= k < i ==> !(#[trigger] l@[k] == '-' && l@[k + 1] == '-' && l@[k + 2] == '>'),
        decreases length - i,
    {
        if l[i] == '-' && l[i + 1] == '-' && l[i + 2] == '>' {
            return true;
        }
        i += 1;
    }
    proof {
        if has_arrow(l@) {
            let k = choose|k: int| 0 <= k && k + 3 <= l@.len() && #[trigger] l@[k] == '-' && l@[k + 1] == '-' && l@[k + 2] == '>';
            assert(k < i);
        }
    }
    false
}

/// Reads a Braille text movie: every block whose second line holds `-->`
/// is a frame, drawn by the lines after it.  All frames must have one size.
pub fn parse_braille_frames(text: &[char]) -> (res: Result<FrameSet, BrailleError>)
    ensures
        match spec_parse_braille(text@) {
            Ok((w, h, frames)) => res matches Ok(set) && set.width == w && set.height == h && views(
                set.frames@,
            ) == frames,
            Err(e) => res matches Err(err) && err == e,
        },
{
    let normalized = normalize(text);
    let all_blocks = split_blocks(normalized.as_slice());
    let ghost bs = lines_view(all_blocks@);
    let mut dims: Option<(u16, u16)> = None;
    let mut frames: Vec<Vec<u8>> = Vec::new();
    let mut i: usize = 0;
    assert(views(frames@) =~= Seq::<Seq<u8>>::empty());
    while i < all_blocks.len()
        invariant
            bs == lines_view(all_blocks@),
            bs == blocks(normalize_newlines(text@)),
            i <= all_blocks@.len(),
            spec_parse_braille(text@) == frames_from(bs, i as int, dims, views(frames@)),
        decreases all_blocks.len() - i,
    {
        assert(all_blocks@[i as int]@ == bs[i as int]);
        assert(bs.len() == all_blocks@.len());
        let lines = split_lines(all_blocks[i].as_slice());
        let ghost ls = lines_view(lines@);
        if lines.len() < 3 || !arrow_in(lines[1].as_slice()) {
            assert(lines.len() >= 3 ==> lines@[1]@ == ls[1]);
            i += 1;
            continue;
        }
        assert(lines@[1]@ == ls[1]);
        let image = &lines.as_slice()[2..lines.len()];
        let ghost img = ls.subrange(2, ls.len() as int);
        assert(lines_view(image@) =~= img);
        let columns = image[0].len();
        assert(image@[0]@ == img[0]);
        assert(ls == block_lines(bs[i as int]));
        assert(ls.len() >= 3 && has_arrow(ls[1]));
        if columns == 0 {
            return Err(BrailleError::InconsistentWidth);
        }
        let mut uniform = true;
        let mut k: usize = 0;
        while k < image.len()
            invariant
                img == lines_view(image@),
                columns == img[0].len(),
                k <= image@.len(),
                uniform == forall|q: int| 0 <= q < k ==> (#[trigger] img[q]).len() == columns,
            decreases image.len() - k,
        {
            assert(image@[k as int]@ == img[k as int]);
            if image[k].len() != columns {
                uniform = false;
            }
            k += 1;
        }
        if !uniform {
            assert(!same_width(img, columns as int));
            return Err(BrailleError::InconsistentWidth);
        }
        assert(same_width(img, columns as int));
        if columns > 32767 {
            return Err(BrailleError::TooWide);
        }
        if image.len() > 16383 {
            return Err(BrailleError::TooTall);
        }
        let width = (columns * 2) as u16;
        let height = (image.len() * 4) as u16;
        let matches = match dims {
            Some((w, h)) => w == width && h == height,
            None => true,
        };
        if !matches {
            return Err(BrailleError::InconsistentDimensions);
        }
        proof {
            let rb = row_bytes_of(width);
            assert forall|r: int, c: int, dy: int, dx: int|
                in_cells(img, r, c) && braille_through(img, r, c) && 0 <= dy < 4 && 0 <= dx < 2
                    && #[trigger] dot_on(img[r][c], dy, dx) implies byte_index(
                    rb,
                    c * 2 + dx,
                    r * 4 + dy,
                ) < rb * height by {
                assert(img[r].len() == columns);
                lemma_byte_index_bound(rb, height as int, c * 2 + dx, r * 4 + dy);
            }
        }
        let frame = match unpack_braille(image, width, height) {
            Ok(frame) => frame,
            Err(codepoint) => return Err(BrailleError::NonBraille(codepoint)),
        };
        let ghost before = views(frames@);
        frames.push(frame);
        assert(views(frames@) =~= before.push(frame@));
        dims = Some((width, height));
        i += 1;
    }
    match dims {
        None => Err(BrailleError::NoFrames),
        Some((width, height)) => Ok(FrameSet { width, height, frames }),
    }
}

/// A timing line is recognised wherever its `-->` stands: `has_arrow`
/// holds exactly when some three characters in a row of the line are
/// `-->`, at any position, and text put in front of the line keeps it.
pub proof fn lemma_arrow_anywhere(l: Seq<char>, front: Seq<char>)
    ensures
        has_arrow(l) <==> exists|i: int|
            0 <= i && i + 3 <= l.len() && #[trigger] l.subrange(i, i + 3) == seq!['-', '-', '>'],
        has_arrow(l) ==> has_arrow(front + l),
{
    if has_arrow(l) {
        let i = choose|i: int|
            0 <= i && i + 3 <= l.len() && #[trigger] l[i] == '-' && l[i + 1] == '-' && l[i + 2] == '>';
        assert(l.subrange(i, i + 3) =~= seq!['-', '-', '>']);
        let j = front.len() + i;
        let fl = front + l;
        assert(fl[j] == l[i] && fl[j + 1] == l[i + 1] && fl[j + 2] == l[i + 2]);
    }
    if exists|i: int| 0 <= i && i + 3 <= l.len() && #[trigger] l.subrange(i, i + 3) == seq![
        '-',
        '-',
        '>',
    ] {
        let i = choose|i: int|
            0 <= i && i + 3 <= l.len() && #[trigger] l.subrange(i, i + 3) == seq!['-', '-', '>'];
        assert(l.subrange(i, i + 3)[0] == l[i]);
        assert(l.subrange(i, i + 3)[1] == l[i + 1]);
        assert(l.subrange(i, i + 3)[2] == l[i + 2]);
    }
}

} // verus!
