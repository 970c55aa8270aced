//! The BAV2 container: a fixed header, zstd-compressed chunks of frame
//! records, and an index that says where each chunk lies.
use vstd::prelude::*;
use vstd::bytes::*;
use crate::codec::{decompress, zstd_decoded, zstd_encoded};
use crate::records::{
    decode_records, frames_result, lemma_decode_records_sizes, spec_decode_records, views,
};

verus! {

/// Size of the fixed header that starts every file.
pub const HEADER_SIZE: usize = 32;
/// Size of one entry of the chunk index.
pub const INDEX_ENTRY_SIZE: usize = 24;
/// The format version that this library reads and writes.
pub const VERSION: u16 = 2;
/// Record kind of a frame stored whole.
pub const KEYFRAME: u8 = 0;
/// Record kind of a frame stored as XOR runs against the previous frame.
pub const DELTA: u8 = 1;

/// What the header says of a movie.
#[derive(Debug, Clone, Copy, PartialEq, Eq)]
pub struct Metadata {
    pub width: u16,
    pub height: u16,
    pub fps: u16,
    pub frame_count: u32,
    pub keyframe_interval: u16,
}

/// Bytes in one packed row of `width` one-bit pixels.
pub open spec fn row_bytes_of(width: u16) -> int {
    (width + 7) / 8
}

/// Bytes in one packed frame.
pub open spec fn frame_size_of(m: Metadata) -> int {
    row_bytes_of(m.width) * m.height
}

/// The largest packed frame any header can describe.
pub open spec fn max_frame_size() -> int {
    8192int * 65535
}

pub proof fn lemma_frame_size_bounds(m: Metadata)
    ensures
        0 <= row_bytes_of(m.width) <= 8192,
        0 <= frame_size_of(m) <= max_frame_size(),
{
    let r = row_bytes_of(m.width);
    let h = m.height as int;
    assert(0 <= r * h <= 8192 * 65535) by (nonlinear_arith)
        requires
            0 <= r <= 8192,
            0 <= h <= 65535,
    ;
}

impl Metadata {
    pub fn row_bytes(self) -> (r: usize)
        ensures
            r == row_bytes_of(self.width),
    {
        (self.width as usize + 7) / 8
    }

    pub fn frame_size(self) -> (r: usize)
        ensures
            r == frame_size_of(self),
    {
        proof {
            lemma_frame_size_bounds(self);
        }
        self.row_bytes() * (self.height as usize)
    }
}

/// Why a movie could not be read or written.
#[derive(Debug)]
pub enum Error {
    Invalid(&'static str),
    Truncated,
    FrameOutOfRange,
    Io(std::io::Error),
}

impl From<std::io::Error> for Error {
    fn from(error: std::io::Error) -> (res: Self) {
        Error::Io(error)
    }
}

impl vstd::std_specs::convert::FromSpecImpl<std::io::Error> for Error {
    open spec fn obeys_from_spec() -> bool {
        true
    }

    open spec fn from_spec(v: std::io::Error) -> Self {
        Error::Io(v)
    }
}

/// The little-endian `u16` at `at`.
pub open spec fn u16_at(b: Seq<u8>, at: int) -> u16 {
    spec_u16_from_le_bytes(b.subrange(at, at + 2))
}

/// The little-endian `u32` at `at`.
pub open spec fn u32_at(b: Seq<u8>, at: int) -> u32 {
    spec_u32_from_le_bytes(b.subrange(at, at + 4))
}

/// The little-endian `u64` at `at`.
pub open spec fn u64_at(b: Seq<u8>, at: int) -> u64 {
    spec_u64_from_le_bytes(b.subrange(at, at + 8))
}

pub(crate) fn read_u16(bytes: &[u8], offset: usize) -> (res: Result<u16, Error>)
    ensures
        offset + 2 <= bytes@.len() ==> res == Ok::<u16, Error>(u16_at(bytes@, offset as int)),
        offset + 2 > bytes@.len() ==> res matches Err(Error::Truncated),
{
    if offset > bytes.len() || bytes.len() - offset < 2 {
        return Err(Error::Truncated);
    }
    Ok(u16_from_le_bytes(&bytes[offset..offset + 2]))
}

pub(crate) fn read_u32(bytes: &[u8], offset: usize) -> (res: Result<u32, Error>)
    ensures
        offset + 4 <= bytes@.len() ==> res == Ok::<u32, Error>(u32_at(bytes@, offset as int)),
        offset + 4 > bytes@.len() ==> res matches Err(Error::Truncated),
{
    if offset > bytes.len() || bytes.len() - offset < 4 {
        return Err(Error::Truncated);
    }
    Ok(u32_from_le_bytes(&bytes[offset..offset + 4]))
}

pub(crate) fn read_u64(bytes: &[u8], offset: usize) -> (res: Result<u64, Error>)
    ensures
        offset + 8 <= bytes@.len() ==> res == Ok::<u64, Error>(u64_at(bytes@, offset as int)),
        offset + 8 > bytes@.len() ==> res matches Err(Error::Truncated),
{
    if offset > bytes.len() || bytes.len() - offset < 8 {
        return Err(Error::Truncated);
    }
    Ok(u64_from_le_bytes(&bytes[offset..offset + 8]))
}

/// The four bytes that start every file: `BAV2`.
pub open spec fn magic() -> Seq<u8> {
    seq![66u8, 65u8, 86u8, 50u8]
}

/// One entry of the chunk index.
#[derive(Debug, Clone, Copy)]
pub struct Chunk {
    pub first_frame: u32,
    pub frame_count: u16,
    pub offset: usize,
    pub compressed_len: usize,
    pub raw_len: usize,
}

/// What a file's header and index say: the metadata and the chunks.
pub struct Layout {
    pub metadata: Metadata,
    pub chunks: Seq<Chunk>,
}

/// The metadata that the header of `b` holds.
pub open spec fn header_metadata(b: Seq<u8>) -> Metadata {
    Metadata {
        width: u16_at(b, 6),
        height: u16_at(b, 8),
        fps: u16_at(b, 10),
        frame_count: u32_at(b, 12),
        keyframe_interval: u16_at(b, 16),
    }
}

/// Reads the index entries from number `i` on, given that the frames before
/// `expected` are covered by the entries read into `acc`; the chunks and the
/// number of frames they cover, or why the index is rejected.
pub open spec fn parse_chunks(
    b: Seq<u8>,
    index_offset: int,
    count: int,
    i: int,
    expected: int,
    acc: Seq<Chunk>,
) -> Result<(Seq<Chunk>, int), Error>
    decreases count - i,
{
    if i >= count {
        Ok((acc, expected))
    } else {
        let at = index_offset + INDEX_ENTRY_SIZE * i;
        let first = u32_at(b, at);
        let frame_count = u16_at(b, at + 4);
        let offset = u64_at(b, at + 8) as int;
        let compressed_len = u32_at(b, at + 16) as int;
        let raw_len = u32_at(b, at + 20) as int;
        if offset > usize::MAX {
            Err(Error::Invalid("chunk offset is too large"))
        } else if offset + compressed_len > usize::MAX {
            Err(Error::Truncated)
        } else if frame_count == 0 || first != expected || offset < HEADER_SIZE || offset
            + compressed_len > index_offset {
            Err(Error::Invalid("invalid chunk index"))
        } else if expected + frame_count > u32::MAX {
            Err(Error::Invalid("frame count overflow"))
        } else {
            parse_chunks(
                b,
                index_offset,
                count,
                i + 1,
                expected + frame_count,
                acc.push(
                    Chunk {
                        first_frame: first,
                        frame_count,
                        offset: offset as usize,
                        compressed_len: compressed_len as usize,
                        raw_len: raw_len as usize,
                    },
                ),
            )
        }
    }
}

/// The layout, once the index has been read, if it covers every frame.
pub open spec fn cover_check(m: Metadata, parsed: Result<(Seq<Chunk>, int), Error>) -> Result<
    Layout,
    Error,
> {
    match parsed {
        Err(e) => Err(e),
        Ok((chunks, covered)) => if covered != m.frame_count {
            Err(Error::Invalid("chunk index does not cover all frames"))
        } else {
            Ok(Layout { metadata: m, chunks })
        },
    }
}

/// What opening the file `b` gives: its layout, or why it is rejected.
pub open spec fn spec_open(b: Seq<u8>) -> Result<Layout, Error> {
    if b.len() < HEADER_SIZE {
        Err(Error::Truncated)
    } else if b.subrange(0, 4) != magic() {
        Err(Error::Invalid("bad magic"))
    } else if u16_at(b, 4) != VERSION {
        Err(Error::Invalid("unsupported version"))
    } else {
        let m = header_metadata(b);
        let chunk_count = u32_at(b, 20) as int;
        let index_offset = u64_at(b, 24) as int;
        let index_size = chunk_count * INDEX_ENTRY_SIZE;
        if index_offset > usize::MAX {
            Err(Error::Invalid("index offset is too large"))
        } else if m.width == 0 || m.height == 0 || m.fps == 0 || m.frame_count == 0
            || m.keyframe_interval == 0 || chunk_count == 0 {
            Err(Error::Invalid("zero-valued metadata"))
        } else if index_size > usize::MAX || index_offset + index_size > usize::MAX {
            Err(Error::Truncated)
        } else if index_offset < HEADER_SIZE || index_offset + index_size > b.len() {
            Err(Error::Truncated)
        } else {
            cover_check(m, parse_chunks(b, index_offset, chunk_count, 0, 0, seq![]))
        }
    }
}

/// The chunk holds frame `index`.
pub open spec fn holds_frame(c: Chunk, index: int) -> bool {
    c.first_frame <= index < c.first_frame + c.frame_count
}

/// Chunks that lie between the header and `limit`, are not empty, follow
/// one another without gap or overlap from frame 0 on, and cover `covered`
/// frames.
pub open spec fn index_consistent(chunks: Seq<Chunk>, covered: int, limit: int) -> bool {
    &&& forall|k: int|
        0 <= k < chunks.len() ==> {
            &&& (#[trigger] chunks[k]).frame_count > 0
            &&& chunks[k].offset >= HEADER_SIZE
            &&& chunks[k].offset + chunks[k].compressed_len <= limit
        }
    &&& forall|j: int, k: int|
        0 <= j < k < chunks.len() ==> #[trigger] chunks[j].first_frame + chunks[j].frame_count
            <= #[trigger] chunks[k].first_frame
    &&& forall|k: int|
        0 <= k < chunks.len() - 1 ==> #[trigger] chunks[k + 1].first_frame == chunks[k].first_frame
            + chunks[k].frame_count
    &&& chunks.len() == 0 ==> covered == 0
    &&& chunks.len() > 0 ==> chunks[0].first_frame == 0 && covered == chunks.last().first_frame
        + chunks.last().frame_count
}

proof fn lemma_parse_chunks_consistent(
    b: Seq<u8>,
    index_offset: int,
    count: int,
    i: int,
    expected: int,
    acc: Seq<Chunk>,
)
    requires
        index_consistent(acc, expected, index_offset),
    ensures
        parse_chunks(b, index_offset, count, i, expected, acc) matches Ok((chunks, covered))
            ==> index_consistent(chunks, covered, index_offset),
    decreases count - i,
{
    if i < count {
        let at = index_offset + INDEX_ENTRY_SIZE * i;
        let first = u32_at(b, at);
        let frame_count = u16_at(b, at + 4);
        let offset = u64_at(b, at + 8) as int;
        let compressed_len = u32_at(b, at + 16) as int;
        let raw_len = u32_at(b, at + 20) as int;
        if offset <= usize::MAX && offset + compressed_len <= usize::MAX && !(frame_count == 0
            || first != expected || offset < HEADER_SIZE || offset + compressed_len > index_offset)
            && expected + frame_count <= u32::MAX {
            let c = Chunk {
                first_frame: first,
                frame_count,
                offset: offset as usize,
                compressed_len: compressed_len as usize,
                raw_len: raw_len as usize,
            };
            let next = acc.push(c);
            assert(index_consistent(next, expected + frame_count, index_offset)) by {
                assert forall|j: int, k: int|
                    0 <= j < k < next.len() implies #[trigger] next[j].first_frame
                    + next[j].frame_count <= #[trigger] next[k].first_frame by {
                    if k == next.len() - 1 {
                        if j < acc.len() - 1 {
                            assert(acc[j].first_frame + acc[j].frame_count <= acc.last().first_frame);
                        }
                    }
                }
                assert forall|k: int| 0 <= k < next.len() - 1 implies #[trigger] next[k
                    + 1].first_frame == next[k].first_frame + next[k].frame_count by {
                    if k < acc.len() - 1 {
                        assert(acc[k + 1].first_frame == acc[k].first_frame + acc[k].frame_count);
                    }
                }
            }
            lemma_parse_chunks_consistent(
                b,
                index_offset,
                count,
                i + 1,
                expected + frame_count,
                next,
            );
        }
    }
}

/// What opening `b` gives, when it succeeds, is a consistent index that
/// lies inside the file and covers the movie.
pub proof fn lemma_open_consistent(b: Seq<u8>)
    ensures
        spec_open(b) matches Ok(layout) ==> {
            &&& index_consistent(layout.chunks, layout.metadata.frame_count as int, b.len() as int)
            &&& index_consistent(
                layout.chunks,
                layout.metadata.frame_count as int,
                u64_at(b, 24) as int,
            )
            &&& u64_at(b, 24) <= b.len()
            &&& layout.metadata.frame_count > 0
            &&& layout.chunks.len() > 0
        },
{
    if b.len() >= HEADER_SIZE && b.subrange(0, 4) == magic() && u16_at(b, 4) == VERSION {
        let index_offset = u64_at(b, 24) as int;
        let chunk_count = u32_at(b, 20) as int;
        lemma_parse_chunks_consistent(b, index_offset, chunk_count, 0, 0, seq![]);
        if let Ok(layout) = spec_open(b) {
            let chunks = layout.chunks;
            assert forall|k: int| 0 <= k < chunks.len() implies {
                &&& (#[trigger] chunks[k]).frame_count > 0
                &&& chunks[k].offset >= HEADER_SIZE
                &&& chunks[k].offset + chunks[k].compressed_len <= b.len()
            } by {}
        }
    }
}

/// The compressed bytes of chunk `c` of file `b`.
pub open spec fn chunk_bytes(b: Seq<u8>, c: Chunk) -> Seq<u8> {
    b.subrange(c.offset as int, c.offset + c.compressed_len)
}

/// The frames of chunk `c` when its bytes decompress to `raw`, or why they
/// cannot be read.
pub open spec fn frames_of_raw(raw: Seq<u8>, c: Chunk, frame_size: int) -> Result<
    Seq<Seq<u8>>,
    Error,
> {
    if raw.len() != c.raw_len {
        Err(Error::Invalid("incorrect uncompressed chunk size"))
    } else {
        spec_decode_records(raw, c.frame_count, frame_size as usize)
    }
}

/// The frames of chunk `c` of file `b`: `None` when its compressed bytes do
/// not decompress, else the frames or why they cannot be read.
pub open spec fn spec_chunk_frames(b: Seq<u8>, c: Chunk, frame_size: int) -> Option<
    Result<Seq<Seq<u8>>, Error>,
> {
    match zstd_decoded(chunk_bytes(b, c)) {
        None => None,
        Some(raw) => Some(frames_of_raw(raw, c, frame_size)),
    }
}

/// Where the bytes of chunk `c` are what zstd made of some records, they
/// decompress to those records.
pub open spec fn chunk_lossless(b: Seq<u8>, c: Chunk) -> bool {
    forall|raw: Seq<u8>, level: i32|
        #[trigger] zstd_encoded(raw, level) == Some(chunk_bytes(b, c)) ==> zstd_decoded(
            chunk_bytes(b, c),
        ) == Some(raw)
}

/// Frame `index` among the frames read from chunk `c`, or why there is none.
pub open spec fn frame_in(frames: Result<Seq<Seq<u8>>, Error>, c: Chunk, index: u32) -> Result<
    Seq<u8>,
    Error,
> {
    match frames {
        Err(e) => Err(e),
        Ok(frames) => {
            let local = index - c.first_frame;
            if local < frames.len() {
                Ok(frames[local])
            } else {
                Err(Error::FrameOutOfRange)
            }
        },
    }
}

/// A chunk that holds frame `index`.
pub open spec fn chunk_of(chunks: Seq<Chunk>, index: int) -> int {
    choose|k: int| 0 <= k < chunks.len() && holds_frame(chunks[k], index)
}

/// The chunk of `layout` that holds frame `index`.
pub open spec fn frame_chunk(layout: Layout, index: u32) -> Chunk {
    layout.chunks[chunk_of(layout.chunks, index as int)]
}

/// Frame `index` of the file `b` with layout `layout`: `None` when its chunk
/// does not decompress, else the frame or why it cannot be read.
pub open spec fn spec_frame(b: Seq<u8>, layout: Layout, index: u32) -> Option<
    Result<Seq<u8>, Error>,
> {
    if index >= layout.metadata.frame_count {
        Some(Err(Error::FrameOutOfRange))
    } else {
        let c = frame_chunk(layout, index);
        match spec_chunk_frames(b, c, frame_size_of(layout.metadata)) {
            None => None,
            Some(r) => Some(frame_in(r, c, index)),
        }
    }
}

/// Some chunk of a consistent index holds each covered frame.
pub(crate) proof fn lemma_some_chunk_holds(chunks: Seq<Chunk>, covered: int, limit: int, index: int)
    requires
        index_consistent(chunks, covered, limit),
        0 <= index < covered,
    ensures
        exists|k: int| 0 <= k < chunks.len() && holds_frame(chunks[k], index),
    decreases chunks.len(),
{
    let n = chunks.len() as int;
    if index >= chunks.last().first_frame {
        assert(holds_frame(chunks[n - 1], index));
    } else {
        let front = chunks.drop_last();
        assert(n > 1);
        let last = n - 2;
        assert(chunks[last + 1].first_frame == chunks[last].first_frame
            + chunks[last].frame_count);
        assert(index_consistent(front, chunks[n - 1].first_frame as int, limit)) by {
            assert forall|j: int, k: int|
                0 <= j < k < front.len() implies #[trigger] front[j].first_frame
                + front[j].frame_count <= #[trigger] front[k].first_frame by {
                assert(chunks[j].first_frame + chunks[j].frame_count <= chunks[k].first_frame);
            }
            assert forall|k: int| 0 <= k < front.len() - 1 implies #[trigger] front[k
                + 1].first_frame == front[k].first_frame + front[k].frame_count by {
                assert(chunks[k + 1].first_frame == chunks[k].first_frame + chunks[k].frame_count);
            }
        }
        lemma_some_chunk_holds(front, chunks[n - 1].first_frame as int, limit, index);
        let k = choose|k: int| 0 <= k < front.len() && holds_frame(front[k], index);
        assert(holds_frame(chunks[k], index));
    }
}

proof fn lemma_parse_chunks_same_index(
    b1: Seq<u8>,
    b2: Seq<u8>,
    index_offset: int,
    count: int,
    i: int,
    expected: int,
    acc: Seq<Chunk>,
)
    requires
        0 <= index_offset,
        0 <= i,
        index_offset + INDEX_ENTRY_SIZE * count <= b1.len(),
        b1.len() == b2.len(),
        forall|j: int| index_offset <= j < index_offset + INDEX_ENTRY_SIZE * count ==> b1[j] == b2[j],
    ensures
        parse_chunks(b1, index_offset, count, i, expected, acc) == parse_chunks(
            b2,
            index_offset,
            count,
            i,
            expected,
            acc,
        ),
    decreases count - i,
{
    if i < count {
        let at = index_offset + INDEX_ENTRY_SIZE * i;
        assert(at + INDEX_ENTRY_SIZE <= index_offset + INDEX_ENTRY_SIZE * count) by (nonlinear_arith)
            requires
                i < count,
                at == index_offset + INDEX_ENTRY_SIZE * i,
        ;
        assert(b1.subrange(at, at + 4) =~= b2.subrange(at, at + 4));
        assert(b1.subrange(at + 4, at + 6) =~= b2.subrange(at + 4, at + 6));
        assert(b1.subrange(at + 8, at + 16) =~= b2.subrange(at + 8, at + 16));
        assert(b1.subrange(at + 16, at + 20) =~= b2.subrange(at + 16, at + 20));
        assert(b1.subrange(at + 20, at + 24) =~= b2.subrange(at + 20, at + 24));
        let first = u32_at(b1, at);
        let frame_count = u16_at(b1, at + 4);
        let offset = u64_at(b1, at + 8) as int;
        let compressed_len = u32_at(b1, at + 16) as int;
        let raw_len = u32_at(b1, at + 20) as int;
        lemma_parse_chunks_same_index(
            b1,
            b2,
            index_offset,
            count,
            i + 1,
            expected + frame_count,
            acc.push(
                Chunk {
                    first_frame: first,
                    frame_count,
                    offset: offset as usize,
                    compressed_len: compressed_len as usize,
                    raw_len: raw_len as usize,
                },
            ),
        );
    }
}

/// Reading a frame looks at the header, the index and the bytes of the one
/// chunk that holds the frame, nothing else: two files that differ only in
/// bytes between the header and the index, outside that chunk (such as the
/// bytes of other chunks), open to the same layout and give the same frame.
pub proof fn lemma_frame_reads_only_its_chunk(b1: Seq<u8>, b2: Seq<u8>, layout: Layout, index: u32)
    requires
        spec_open(b1) == Ok::<Layout, Error>(layout),
        b1.len() == b2.len(),
        forall|j: int|
            0 <= j < b1.len() && b1[j] != b2[j] ==> HEADER_SIZE <= j < u64_at(b1, 24) && !(
            frame_chunk(layout, index).offset <= j < frame_chunk(layout, index).offset + frame_chunk(
                layout,
                index,
            ).compressed_len),
    ensures
        spec_open(b2) == Ok::<Layout, Error>(layout),
        spec_frame(b2, layout, index) == spec_frame(b1, layout, index),
{
    assert(b1.subrange(0, 4) =~= b2.subrange(0, 4));
    assert(b1.subrange(4, 6) =~= b2.subrange(4, 6));
    assert(b1.subrange(6, 8) =~= b2.subrange(6, 8));
    assert(b1.subrange(8, 10) =~= b2.subrange(8, 10));
    assert(b1.subrange(10, 12) =~= b2.subrange(10, 12));
    assert(b1.subrange(12, 16) =~= b2.subrange(12, 16));
    assert(b1.subrange(16, 18) =~= b2.subrange(16, 18));
    assert(b1.subrange(20, 24) =~= b2.subrange(20, 24));
    assert(b1.subrange(24, 32) =~= b2.subrange(24, 32));
    let index_offset = u64_at(b1, 24) as int;
    let chunk_count = u32_at(b1, 20) as int;
    lemma_parse_chunks_same_index(b1, b2, index_offset, chunk_count, 0, 0, seq![]);
    assert(spec_open(b2) == spec_open(b1));
    if index < layout.metadata.frame_count {
        lemma_open_consistent(b1);
        lemma_some_chunk_holds(
            layout.chunks,
            layout.metadata.frame_count as int,
            b1.len() as int,
            index as int,
        );
        let c = frame_chunk(layout, index);
        assert(c.offset + c.compressed_len <= b1.len());
        assert(chunk_bytes(b1, c) =~= chunk_bytes(b2, c));
    }
}

/// A seek decodes only the chunk that holds the frame: two files that differ
/// only inside the compressed bytes of other chunks (and not in the bytes of
/// the chunk that holds frame `index`) open to the same layout and give the
/// same frame `index`.
pub proof fn lemma_seek_reads_one_chunk(b1: Seq<u8>, b2: Seq<u8>, layout: Layout, index: u32)
    requires
        spec_open(b1) == Ok::<Layout, Error>(layout),
        b1.len() == b2.len(),
        forall|j: int|
            0 <= j < b1.len() && b1[j] != b2[j] ==> (exists|k: int|
                0 <= k < layout.chunks.len() && #[trigger] layout.chunks[k].offset <= j
                    < layout.chunks[k].offset + layout.chunks[k].compressed_len) && !(frame_chunk(
                layout,
                index,
            ).offset <= j < frame_chunk(layout, index).offset + frame_chunk(
                layout,
                index,
            ).compressed_len),
    ensures
        spec_open(b2) == Ok::<Layout, Error>(layout),
        spec_frame(b2, layout, index) == spec_frame(b1, layout, index),
{
    lemma_open_consistent(b1);
    assert forall|j: int| 0 <= j < b1.len() && b1[j] != b2[j] implies HEADER_SIZE <= j < u64_at(
        b1,
        24,
    ) by {
        let k = choose|k: int|
            0 <= k < layout.chunks.len() && #[trigger] layout.chunks[k].offset <= j
                < layout.chunks[k].offset + layout.chunks[k].compressed_len;
        assert(layout.chunks[k].offset >= HEADER_SIZE);
    }
    lemma_frame_reads_only_its_chunk(b1, b2, layout, index);
}

/// Movies opened from equal bytes have the same layout, and each frame of
/// one is that frame of the other, whatever was read from them before:
/// `open` fixes the layout from the bytes alone, and `frame` fixes each
/// result from the bytes and the layout alone.  A frame that reads has the
/// frame size of the metadata.
pub proof fn lemma_equal_bytes_equal_frames(b1: Seq<u8>, b2: Seq<u8>, index: u32)
    requires
        b1 == b2,
    ensures
        spec_open(b1) == spec_open(b2),
        spec_open(b1) matches Ok(layout) ==> {
            &&& spec_frame(b1, layout, index) == spec_frame(b2, layout, index)
            &&& spec_frame(b1, layout, index) matches Some(Ok(f)) ==> f.len() == frame_size_of(
                layout.metadata,
            )
        },
{
    if let Ok(layout) = spec_open(b1) {
        if index < layout.metadata.frame_count {
            lemma_open_consistent(b1);
            lemma_some_chunk_holds(
                layout.chunks,
                layout.metadata.frame_count as int,
                b1.len() as int,
                index as int,
            );
            let c = frame_chunk(layout, index);
            assert(holds_frame(c, index as int));
            lemma_frame_size_bounds(layout.metadata);
            if let Some(raw) = zstd_decoded(chunk_bytes(b1, c)) {
                let size = frame_size_of(layout.metadata) as usize;
                assert(size == frame_size_of(layout.metadata));
                lemma_decode_records_sizes(raw, c.frame_count, size);
                if raw.len() == c.raw_len {
                    if let Ok(fs) = spec_decode_records(raw, c.frame_count, size) {
                        let local = index - c.first_frame;
                        if 0 <= local < fs.len() {
                            assert(fs[local].len() == size);
                        }
                    }
                }
            }
        }
    }
}

/// The contents of a frame result.
pub open spec fn frame_result(res: Result<&[u8], Error>) -> Result<Seq<u8>, Error> {
    match res {
        Ok(frame) => Ok(frame@),
        Err(e) => Err(e),
    }
}

/// An opened movie: its bytes, what its header and index say, and the
/// frames of the chunk that was decoded last.
pub struct Movie {
    bytes: Vec<u8>,
    metadata: Metadata,
    chunks: Vec<Chunk>,
    cache: Option<(usize, Vec<Vec<u8>>)>,
}

impl Movie {
    /// The bytes the movie was opened from.
    pub closed spec fn source(&self) -> Seq<u8> {
        self.bytes@
    }

    /// What the header and index say.
    pub closed spec fn layout(&self) -> Layout {
        Layout { metadata: self.metadata, chunks: self.chunks@ }
    }

    /// The layout is what opening the bytes gives, and the cached frames are
    /// those of the cached chunk.
    #[verifier::type_invariant]
    spec fn wf(&self) -> bool {
        &&& spec_open(self.bytes@) == Ok::<Layout, Error>(self.layout())
        &&& match self.cache {
            None => true,
            Some((k, frames)) => {
                &&& k < self.chunks@.len()
                &&& chunk_lossless(self.bytes@, self.chunks@[k as int])
                &&& spec_chunk_frames(
                    self.bytes@,
                    self.chunks@[k as int],
                    frame_size_of(self.metadata),
                ) == Some(Ok::<Seq<Seq<u8>>, Error>(views(frames@)))
            },
        }
    }

    /// Reads the header and the chunk index of a BAV2 file.
    pub fn open(bytes: Vec<u8>) -> (res: Result<Self, Error>)
        ensures
            match spec_open(bytes@) {
                Ok(layout) => res matches Ok(movie) && movie.source() == bytes@ && movie.layout()
                    == layout,
                Err(e) => res matches Err(err) && err == e,
            },
    {
        let ghost b = bytes@;
        if bytes.len() < HEADER_SIZE {
            return Err(Error::Truncated);
        }
        if bytes[0] != 66 || bytes[1] != 65 || bytes[2] != 86 || bytes[3] != 50 {
            assert(b.subrange(0, 4) != magic()) by {
                if b.subrange(0, 4) == magic() {
                    assert(b[0] == b.subrange(0, 4)[0]);
                    assert(b[1] == b.subrange(0, 4)[1]);
                    assert(b[2] == b.subrange(0, 4)[2]);
                    assert(b[3] == b.subrange(0, 4)[3]);
                }
            }
            return Err(Error::Invalid("bad magic"));
        }
        assert(b.subrange(0, 4) =~= magic());
        let version = match read_u16(bytes.as_slice(), 4) {
            Ok(v) => v,
            Err(e) => return Err(e),
        };
        if version != VERSION {
            return Err(Error::Invalid("unsupported version"));
        }
        let width = match read_u16(bytes.as_slice(), 6) {
            Ok(v) => v,
            Err(e) => return Err(e),
        };
        let height = match read_u16(bytes.as_slice(), 8) {
            Ok(v) => v,
            Err(e) => return Err(e),
        };
        let fps = match read_u16(bytes.as_slice(), 10) {
            Ok(v) => v,
            Err(e) => return Err(e),
        };
        let frame_count = match read_u32(bytes.as_slice(), 12) {
            Ok(v) => v,
            Err(e) => return Err(e),
        };
        let keyframe_interval = match read_u16(bytes.as_slice(), 16) {
            Ok(v) => v,
            Err(e) => return Err(e),
        };
        let metadata = Metadata { width, height, fps, frame_count, keyframe_interval };
        let chunk_count = match read_u32(bytes.as_slice(), 20) {
            Ok(v) => v as usize,
            Err(e) => return Err(e),
        };
        let index_offset64 = match read_u64(bytes.as_slice(), 24) {
            Ok(v) => v,
            Err(e) => return Err(e),
        };
        if index_offset64 > usize::MAX as u64 {
            return Err(Error::Invalid("index offset is too large"));
        }
        let index_offset = index_offset64 as usize;
        if metadata.width == 0 || metadata.height == 0 || metadata.fps == 0
            || metadata.frame_count == 0 || metadata.keyframe_interval == 0 || chunk_count == 0 {
            return Err(Error::Invalid("zero-valued metadata"));
        }
        let index_size = match chunk_count.checked_mul(INDEX_ENTRY_SIZE) {
            Some(v) => v,
            None => return Err(Error::Truncated),
        };
        let index_end = match index_offset.checked_add(index_size) {
            Some(v) => v,
            None => return Err(Error::Truncated),
        };
        if index_offset < HEADER_SIZE || index_end > bytes.len() {
            return Err(Error::Truncated);
        }
        let ghost target = parse_chunks(
            b,
            index_offset as int,
            chunk_count as int,
            0,
            0,
            seq![],
        );
        assert(metadata == header_metadata(b));
        assert(spec_open(b) == cover_check(metadata, target));
        let mut chunks: Vec<Chunk> = Vec::with_capacity(chunk_count);
        let mut expected: u32 = 0;
        let mut index: usize = 0;
        while index < chunk_count
            invariant
                b == bytes@,
                index <= chunk_count,
                index_offset + chunk_count * INDEX_ENTRY_SIZE <= bytes.len(),
                bytes@.len() == bytes.len(),
                spec_open(b) == cover_check(metadata, target),
                target == parse_chunks(
                    b,
                    index_offset as int,
                    chunk_count as int,
                    index as int,
                    expected as int,
                    chunks@,
                ),
            decreases chunk_count - index,
        {
            let cursor = index_offset + index * INDEX_ENTRY_SIZE;
            let first_frame = match read_u32(bytes.as_slice(), cursor) {
                Ok(v) => v,
                Err(e) => return Err(e),
            };
            let count = match read_u16(bytes.as_slice(), cursor + 4) {
                Ok(v) => v,
                Err(e) => return Err(e),
            };
            let offset64 = match read_u64(bytes.as_slice(), cursor + 8) {
                Ok(v) => v,
                Err(e) => return Err(e),
            };
            if offset64 > usize::MAX as u64 {
                return Err(Error::Invalid("chunk offset is too large"));
            }
            let offset = offset64 as usize;
            let compressed_len = match read_u32(bytes.as_slice(), cursor + 16) {
                Ok(v) => v as usize,
                Err(e) => return Err(e),
            };
            let raw_len = match read_u32(bytes.as_slice(), cursor + 20) {
                Ok(v) => v as usize,
                Err(e) => return Err(e),
            };
            let chunk_end = match offset.checked_add(compressed_len) {
                Some(v) => v,
                None => return Err(Error::Truncated),
            };
            if count == 0 || first_frame != expected || offset < HEADER_SIZE || chunk_end
                > index_offset {
                return Err(Error::Invalid("invalid chunk index"));
            }
            expected = match expected.checked_add(count as u32) {
                Some(v) => v,
                None => return Err(Error::Invalid("frame count overflow")),
            };
            chunks.push(
                Chunk { first_frame, frame_count: count, offset, compressed_len, raw_len },
            );
            index += 1;
        }
        if expected != metadata.frame_count {
            return Err(Error::Invalid("chunk index does not cover all frames"));
        }
        Ok(Movie { bytes, metadata, chunks, cache: None })
    }

    /// Decodes chunk `index` whole.
    fn decode_chunk(&self, index: usize) -> (res: Result<Vec<Vec<u8>>, Error>)
        requires
            self.wf(),
            index < self.chunks@.len(),
        ensures
            match spec_chunk_frames(
                self.bytes@,
                self.chunks@[index as int],
                frame_size_of(self.metadata),
            ) {
                None => res matches Err(Error::Io(_)),
                Some(r) => frames_result(res) == r,
            },
            chunk_lossless(self.bytes@, self.chunks@[index as int]),
    {
        proof {
            lemma_open_consistent(self.bytes@);
        }
        let chunk = self.chunks[index];
        let length = self.bytes.len();
        assert(chunk.offset + chunk.compressed_len <= length);
        let compressed = &self.bytes.as_slice()[chunk.offset..chunk.offset + chunk.compressed_len];
        assert(compressed@ == chunk_bytes(self.bytes@, chunk));
        let raw = match decompress(compressed) {
            Ok(raw) => raw,
            Err(e) => return Err(Error::Io(e)),
        };
        if raw.len() != chunk.raw_len {
            return Err(Error::Invalid("incorrect uncompressed chunk size"));
        }
        decode_records(raw.as_slice(), chunk.frame_count, self.metadata.frame_size())
    }

    /// The position of the chunk that holds frame `index`: one before the
    /// first chunk that starts after it.
    fn chunk_containing(&self, index: u32) -> (k: usize)
        requires
            self.wf(),
            index < self.metadata.frame_count,
        ensures
            k < self.chunks@.len(),
            holds_frame(self.chunks@[k as int], index as int),
    {
        proof {
            lemma_open_consistent(self.bytes@);
        }
        let ghost chunks = self.chunks@;
        let mut low: usize = 0;
        let mut high: usize = self.chunks.len();
        while low < high
            invariant
                chunks == self.chunks@,
                index_consistent(chunks, self.metadata.frame_count as int, self.bytes@.len() as int),
                high <= chunks.len(),
                low <= high,
                forall|j: int| 0 <= j < low ==> (#[trigger] chunks[j]).first_frame <= index,
                forall|j: int| high <= j < chunks.len() ==> (#[trigger] chunks[j]).first_frame > index,
            decreases high - low,
        {
            let middle = low + (high - low) / 2;
            if self.chunks[middle].first_frame <= index {
                assert forall|j: int| 0 <= j < middle + 1 implies (#[trigger] chunks[j]).first_frame
                    <= index by {
                    if j < middle {
                        assert(chunks[j].first_frame + chunks[j].frame_count
                            <= chunks[middle as int].first_frame);
                    }
                }
                low = middle + 1;
            } else {
                assert forall|j: int| middle <= j < chunks.len() implies (
                #[trigger] chunks[j]).first_frame > index by {
                    if j > middle {
                        assert(chunks[middle as int].first_frame + chunks[middle as int].frame_count
                            <= chunks[j].first_frame);
                    }
                }
                high = middle;
            }
        }
        assert(chunks[0].first_frame == 0);
        let k = if low == 0 {
            0
        } else {
            low - 1
        };
        proof {
            if k + 1 < chunks.len() {
                assert(chunks[k + 1].first_frame == chunks[k as int].first_frame
                    + chunks[k as int].frame_count);
            }
        }
        k
    }

    /// Frame `index`, decoding its chunk unless it is the one decoded last.
    pub fn frame(&mut self, index: u32) -> (res: Result<&[u8], Error>)
        ensures
            final(self).source() == old(self).source(),
            final(self).layout() == old(self).layout(),
            match spec_frame(old(self).source(), old(self).layout(), index) {
                None => res matches Err(Error::Io(_)),
                Some(r) => frame_result(res) == r,
            },
            res matches Ok(f) ==> f@.len() == frame_size_of(old(self).layout().metadata),
            index < old(self).layout().metadata.frame_count ==> chunk_lossless(
                old(self).source(),
                frame_chunk(old(self).layout(), index),
            ),
            forall|raw: Seq<u8>, level: i32|
                index < old(self).layout().metadata.frame_count && #[trigger] zstd_encoded(raw, level)
                    == Some(chunk_bytes(old(self).source(), frame_chunk(old(self).layout(), index)))
                    ==> frame_result(res) == frame_in(
                    frames_of_raw(
                        raw,
                        frame_chunk(old(self).layout(), index),
                        frame_size_of(old(self).layout().metadata),
                    ),
                    frame_chunk(old(self).layout(), index),
                    index,
                ),
    {
        proof {
            use_type_invariant(&*self);
        }
        if index >= self.metadata.frame_count {
            return Err(Error::FrameOutOfRange);
        }
        let chunk_index = self.chunk_containing(index);
        proof {
            lemma_open_consistent(self.bytes@);
            let chunks = self.chunks@;
            let k = chunk_of(chunks, index as int);
            assert(holds_frame(chunks[chunk_index as int], index as int));
            if k != chunk_index as int {
                if k < chunk_index {
                    assert(chunks[k].first_frame + chunks[k].frame_count
                        <= chunks[chunk_index as int].first_frame);
                } else {
                    assert(chunks[chunk_index as int].first_frame
                        + chunks[chunk_index as int].frame_count <= chunks[k].first_frame);
                }
            }
        }
        let hit = match &self.cache {
            Some((cached, _)) => *cached == chunk_index,
            None => false,
        };
        if !hit {
            let frames = match self.decode_chunk(chunk_index) {
                Ok(frames) => frames,
                Err(e) => return Err(e),
            };
            self.cache = Some((chunk_index, frames));
        }
        let chunk = self.chunks[chunk_index];
        let local = (index - chunk.first_frame) as usize;
        proof {
            use_type_invariant(&*self);
            lemma_frame_size_bounds(self.metadata);
            let raw = zstd_decoded(chunk_bytes(self.bytes@, chunk))->Some_0;
            lemma_decode_records_sizes(raw, chunk.frame_count, frame_size_of(self.metadata) as usize);
        }
        match &self.cache {
            Some((_, frames)) => if local < frames.len() {
                assert(views(frames@)[local as int] == frames@[local as int]@);
                Ok(frames[local].as_slice())
            } else {
                Err(Error::FrameOutOfRange)
            },
            None => Err(Error::FrameOutOfRange),
        }
    }

    /// The metadata that the header holds.
    pub fn metadata(&self) -> (m: Metadata)
        ensures
            m == self.layout().metadata,
    {
        self.metadata
    }
}

} // verus!
