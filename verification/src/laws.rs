//! What the format promises as a whole: a file that `encode` wrote opens
//! again, says the same metadata, and gives back every frame.
use vstd::prelude::*;
use vstd::bytes::*;
use crate::codec::{zstd_decoded, zstd_encoded};
use crate::format::{
    chunk_bytes, chunk_lossless, chunk_of, frame_chunk, frame_in, frame_size_of, frames_of_raw,
    header_metadata, holds_frame, index_consistent, lemma_frame_size_bounds, lemma_open_consistent,
    lemma_some_chunk_holds,
    magic, parse_chunks, spec_frame, spec_open, u16_at, u32_at, u64_at, Chunk, Error, Layout,
    Metadata, HEADER_SIZE, INDEX_ENTRY_SIZE, VERSION,
};
use crate::records::{lemma_records_round_trip_in_movie, spec_encode_records};
use crate::writer::{
    all_sized, chunk_end, encode_chunks, header_bytes, index_bytes, index_entry, indexed_chunk,
    movie_metadata, spec_encode,
    COMPRESSION_LEVEL,
};

verus! {

/// The chunk that encoding makes for frame `i` (the frames from the
/// multiple of `interval` at or below `i` on) has records, and a compressed
/// form, short enough for the 32-bit length fields of the index.
pub open spec fn chunk_fits_at(frames: Seq<Seq<u8>>, interval: int, i: int) -> bool {
    let start = (i / interval) * interval;
    let raw = spec_encode_records(
        frames.subrange(start, chunk_end(frames.len() as int, start, interval)),
    );
    &&& raw.len() <= u32::MAX
    &&& zstd_encoded(raw, COMPRESSION_LEVEL) matches Some(c) ==> c.len() <= u32::MAX
}

/// A length keeps at most its value when cut to 32 bits, and all of it when
/// it fits.
proof fn lemma_u32_cut(x: usize)
    ensures
        (x as u32) as usize <= x,
        x <= u32::MAX ==> (x as u32) as usize == x,
{
    assert((x as u32) as usize <= x) by (bit_vector);
    assert(x <= 0xffff_ffffusize ==> (x as u32) as usize == x) by (bit_vector);
}

/// The frames that chunk `c` holds.
pub open spec fn chunk_group(frames: Seq<Seq<u8>>, c: Chunk) -> Seq<Seq<u8>> {
    frames.subrange(c.first_frame as int, c.first_frame + c.frame_count)
}

/// Chunk `c` of a file whose body is `body` holds, compressed, the records
/// of its frames.
pub open spec fn chunk_matches(frames: Seq<Seq<u8>>, body: Seq<u8>, c: Chunk) -> bool {
    let raw = spec_encode_records(chunk_group(frames, c));
    &&& c.first_frame + c.frame_count <= frames.len()
    &&& c.raw_len == raw.len() as usize
    &&& zstd_encoded(raw, COMPRESSION_LEVEL) == Some(
        body.subrange(c.offset as int, c.offset + c.compressed_len),
    )
}

proof fn lemma_encode_chunks_grows(
    frames: Seq<Seq<u8>>,
    interval: int,
    start: int,
    body: Seq<u8>,
    chunks: Seq<Chunk>,
)
    ensures
        encode_chunks(frames, interval, start, body, chunks) matches Some((b, c)) ==> {
            &&& body.len() <= b.len()
            &&& b.subrange(0, body.len() as int) == body
        },
    decreases frames.len() - start,
{
    if !(start >= frames.len() || interval <= 0) {
        let end = chunk_end(frames.len() as int, start, interval);
        let raw = spec_encode_records(frames.subrange(start, end));
        if let Some(compressed) = zstd_encoded(raw, COMPRESSION_LEVEL) {
            let next_chunk = Chunk {
                first_frame: start as u32,
                frame_count: (end - start) as u16,
                offset: body.len() as usize,
                compressed_len: compressed.len() as usize,
                raw_len: raw.len() as usize,
            };
            lemma_encode_chunks_grows(
                frames,
                interval,
                end,
                body + compressed,
                chunks.push(next_chunk),
            );
            if let Some((b, c)) = encode_chunks(frames, interval, start, body, chunks) {
                assert(b.subrange(0, body.len() as int) =~= b.subrange(
                    0,
                    (body + compressed).len() as int,
                ).subrange(0, body.len() as int));
                assert((body + compressed).subrange(0, body.len() as int) =~= body);
            }
        }
    } else {
        assert(body.subrange(0, body.len() as int) =~= body);
    }
}

proof fn lemma_encode_chunks(
    frames: Seq<Seq<u8>>,
    interval: int,
    start: int,
    body: Seq<u8>,
    chunks: Seq<Chunk>,
    final_body: Seq<u8>,
    final_chunks: Seq<Chunk>,
)
    requires
        encode_chunks(frames, interval, start, body, chunks) == Some((final_body, final_chunks)),
        final_body.len() <= usize::MAX,
        HEADER_SIZE <= body.len(),
        1 <= interval <= 65535,
        frames.len() <= u32::MAX,
        0 <= start <= frames.len(),
        chunks.len() <= start,
        index_consistent(chunks, start, body.len() as int),
        forall|k: int| 0 <= k < chunks.len() ==> chunk_matches(frames, final_body, #[trigger] chunks[k]),
    ensures
        index_consistent(final_chunks, frames.len() as int, final_body.len() as int),
        final_chunks.len() <= frames.len(),
        forall|k: int|
            0 <= k < final_chunks.len() ==> chunk_matches(frames, final_body, #[trigger] final_chunks[k]),
    decreases frames.len() - start,
{
    if start >= frames.len() {
        assert forall|k: int| 0 <= k < chunks.len() implies {
            &&& (#[trigger] chunks[k]).frame_count > 0
            &&& chunks[k].offset >= HEADER_SIZE
            &&& chunks[k].offset + chunks[k].compressed_len <= final_body.len()
        } by {}
    } else {
        let n = frames.len() as int;
        let end = chunk_end(n, start, interval);
        let raw = spec_encode_records(frames.subrange(start, end));
        let compressed = zstd_encoded(raw, COMPRESSION_LEVEL)->Some_0;
        let next_body = body + compressed;
        let c = Chunk {
            first_frame: start as u32,
            frame_count: (end - start) as u16,
            offset: body.len() as usize,
            compressed_len: compressed.len() as usize,
            raw_len: raw.len() as usize,
        };
        let next = chunks.push(c);
        lemma_encode_chunks_grows(frames, interval, end, next_body, next);
        assert(final_body.subrange(0, next_body.len() as int) == next_body);
        assert(c.offset == body.len());
        assert(c.compressed_len == compressed.len());
        assert(c.raw_len == raw.len() as usize);
        assert(c.first_frame == start);
        assert(c.frame_count == end - start);
        assert(chunk_group(frames, c) == frames.subrange(start, end));
        assert(final_body.subrange(c.offset as int, c.offset + c.compressed_len) =~= compressed)
            by {
            assert forall|j: int| 0 <= j < compressed.len() implies final_body[body.len() + j]
                == compressed[j] by {
                assert(final_body.subrange(0, next_body.len() as int)[body.len() + j]
                    == next_body[body.len() + j]);
            }
        }
        assert(chunk_matches(frames, final_body, c));
        assert forall|k: int| 0 <= k < next.len() implies chunk_matches(
            frames,
            final_body,
            #[trigger] next[k],
        ) by {
            if k < chunks.len() {
                assert(next[k] == chunks[k]);
            }
        }
        assert(index_consistent(next, end, next_body.len() as int)) by {
            assert forall|k: int| 0 <= k < next.len() implies {
                &&& (#[trigger] next[k]).frame_count > 0
                &&& next[k].offset >= HEADER_SIZE
                &&& next[k].offset + next[k].compressed_len <= next_body.len()
            } by {
                if k < chunks.len() {
                    assert(next[k] == chunks[k]);
                }
            }
            assert forall|j: int, k: int|
                0 <= j < k < next.len() implies #[trigger] next[j].first_frame
                + next[j].frame_count <= #[trigger] next[k].first_frame by {
                if k == next.len() - 1 {
                    if j < chunks.len() - 1 {
                        assert(chunks[j].first_frame + chunks[j].frame_count
                            <= chunks.last().first_frame);
                    }
                }
            }
            assert forall|k: int| 0 <= k < next.len() - 1 implies #[trigger] next[k
                + 1].first_frame == next[k].first_frame + next[k].frame_count by {
                if k < chunks.len() - 1 {
                    assert(chunks[k + 1].first_frame == chunks[k].first_frame
                        + chunks[k].frame_count);
                }
            }
        }
        lemma_encode_chunks(frames, interval, end, next_body, next, final_body, final_chunks);
    }
}

proof fn lemma_le_lengths()
    ensures
        forall|x: u16| #[trigger] spec_u16_to_le_bytes(x).len() == 2,
        forall|x: u32| #[trigger] spec_u32_to_le_bytes(x).len() == 4,
        forall|x: u64| #[trigger] spec_u64_to_le_bytes(x).len() == 8,
        forall|x: u16| spec_u16_from_le_bytes(#[trigger] spec_u16_to_le_bytes(x)) == x,
        forall|x: u32| spec_u32_from_le_bytes(#[trigger] spec_u32_to_le_bytes(x)) == x,
        forall|x: u64| spec_u64_from_le_bytes(#[trigger] spec_u64_to_le_bytes(x)) == x,
{
    lemma_auto_spec_u16_to_from_le_bytes();
    lemma_auto_spec_u32_to_from_le_bytes();
    lemma_auto_spec_u64_to_from_le_bytes();
    assert forall|x: u16| spec_u16_from_le_bytes(#[trigger] spec_u16_to_le_bytes(x)) == x by {
        assert(spec_u16_to_le_bytes(x).len() == 2);
    }
    assert forall|x: u32| spec_u32_from_le_bytes(#[trigger] spec_u32_to_le_bytes(x)) == x by {
        assert(spec_u32_to_le_bytes(x).len() == 4);
    }
    assert forall|x: u64| spec_u64_from_le_bytes(#[trigger] spec_u64_to_le_bytes(x)) == x by {
        assert(spec_u64_to_le_bytes(x).len() == 8);
    }
}

proof fn lemma_index_bytes(chunks: Seq<Chunk>)
    ensures
        index_bytes(chunks).len() == INDEX_ENTRY_SIZE * chunks.len(),
        forall|k: int|
            0 <= k < chunks.len() ==> index_bytes(chunks).subrange(
                INDEX_ENTRY_SIZE * k,
                INDEX_ENTRY_SIZE * k + INDEX_ENTRY_SIZE,
            ) == index_entry(#[trigger] chunks[k]),
    decreases chunks.len(),
{
    lemma_le_lengths();
    if chunks.len() > 0 {
        let front = chunks.drop_last();
        lemma_index_bytes(front);
        let prev = index_bytes(front);
        let e = index_entry(chunks.last());
        assert(e.len() == INDEX_ENTRY_SIZE);
        assert(index_bytes(chunks) == prev + e);
        assert forall|k: int| 0 <= k < chunks.len() implies index_bytes(chunks).subrange(
            INDEX_ENTRY_SIZE * k,
            INDEX_ENTRY_SIZE * k + INDEX_ENTRY_SIZE,
        ) == index_entry(#[trigger] chunks[k]) by {
            if k < front.len() {
                assert(front[k] == chunks[k]);
                assert((prev + e).subrange(
                    INDEX_ENTRY_SIZE * k,
                    INDEX_ENTRY_SIZE * k + INDEX_ENTRY_SIZE,
                ) =~= prev.subrange(INDEX_ENTRY_SIZE * k, INDEX_ENTRY_SIZE * k + INDEX_ENTRY_SIZE));
            } else {
                assert((prev + e).subrange(
                    INDEX_ENTRY_SIZE * k,
                    INDEX_ENTRY_SIZE * k + INDEX_ENTRY_SIZE,
                ) =~= e);
            }
        }
    }
}

proof fn lemma_header_fields(m: Metadata, count: int, index_offset: int, rest: Seq<u8>)
    requires
        0 <= count <= u32::MAX,
        0 <= index_offset <= u64::MAX,
    ensures
        header_bytes(m, count, index_offset).len() == HEADER_SIZE,
        ({
            let b = header_bytes(m, count, index_offset) + rest;
            &&& b.subrange(0, 4) == magic()
            &&& u16_at(b, 4) == VERSION
            &&& header_metadata(b) == m
            &&& u32_at(b, 20) == count
            &&& u64_at(b, 24) == index_offset
        }),
{
    lemma_le_lengths();
    let h = header_bytes(m, count, index_offset);
    let b = h + rest;
    assert(h.len() == HEADER_SIZE);
    assert(b.subrange(0, 4) =~= magic());
    assert(b.subrange(4, 6) =~= spec_u16_to_le_bytes(VERSION));
    assert(b.subrange(6, 8) =~= spec_u16_to_le_bytes(m.width));
    assert(b.subrange(8, 10) =~= spec_u16_to_le_bytes(m.height));
    assert(b.subrange(10, 12) =~= spec_u16_to_le_bytes(m.fps));
    assert(b.subrange(12, 16) =~= spec_u32_to_le_bytes(m.frame_count));
    assert(b.subrange(16, 18) =~= spec_u16_to_le_bytes(m.keyframe_interval));
    assert(b.subrange(20, 24) =~= spec_u32_to_le_bytes(count as u32));
    assert(b.subrange(24, 32) =~= spec_u64_to_le_bytes(index_offset as u64));
    assert(header_metadata(b) == m);
}

/// The chunks that an index written for `chunks` describes.
pub open spec fn indexed_chunks(chunks: Seq<Chunk>) -> Seq<Chunk> {
    chunks.map_values(|c: Chunk| indexed_chunk(c))
}

#[verifier::rlimit(50)]
proof fn lemma_parse_encoded(b: Seq<u8>, index_offset: int, chunks: Seq<Chunk>, covered: int, i: int)
    requires
        0 <= index_offset,
        index_offset + INDEX_ENTRY_SIZE * chunks.len() <= b.len() <= usize::MAX,
        b.subrange(index_offset, index_offset + INDEX_ENTRY_SIZE * chunks.len()) == index_bytes(
            chunks,
        ),
        index_consistent(chunks, covered, index_offset),
        covered <= u32::MAX,
        0 <= i <= chunks.len(),
    ensures
        parse_chunks(
            b,
            index_offset,
            chunks.len() as int,
            i,
            if i < chunks.len() {
                chunks[i].first_frame as int
            } else {
                covered
            },
            indexed_chunks(chunks).take(i),
        ) == Ok::<(Seq<Chunk>, int), Error>((indexed_chunks(chunks), covered)),
    decreases chunks.len() - i,
{
    let n = chunks.len() as int;
    let stored = indexed_chunks(chunks);
    if i == n {
        assert(stored.take(i) =~= stored);
    } else {
        lemma_le_lengths();
        lemma_index_bytes(chunks);
        let c = chunks[i];
        let at = index_offset + INDEX_ENTRY_SIZE * i;
        let entry = index_entry(c);
        let idx = index_bytes(chunks);
        assert(idx.subrange(INDEX_ENTRY_SIZE * i, INDEX_ENTRY_SIZE * i + INDEX_ENTRY_SIZE) == entry);
        assert forall|j: int| 0 <= j < INDEX_ENTRY_SIZE implies b[at + j] == entry[j] by {
            assert(b.subrange(index_offset, index_offset + INDEX_ENTRY_SIZE * n)[INDEX_ENTRY_SIZE
                * i + j] == b[at + j]);
            assert(idx.subrange(INDEX_ENTRY_SIZE * i, INDEX_ENTRY_SIZE * i + INDEX_ENTRY_SIZE)[j]
                == idx[INDEX_ENTRY_SIZE * i + j]);
        }
        assert(entry.subrange(0, 4) =~= spec_u32_to_le_bytes(c.first_frame));
        assert(entry.subrange(4, 6) =~= spec_u16_to_le_bytes(c.frame_count));
        assert(entry.subrange(8, 16) =~= spec_u64_to_le_bytes(c.offset as u64));
        assert(entry.subrange(16, 20) =~= spec_u32_to_le_bytes(c.compressed_len as u32));
        assert(entry.subrange(20, 24) =~= spec_u32_to_le_bytes(c.raw_len as u32));
        assert(b.subrange(at, at + 4) =~= spec_u32_to_le_bytes(c.first_frame));
        assert(b.subrange(at + 4, at + 6) =~= spec_u16_to_le_bytes(c.frame_count));
        assert(b.subrange(at + 8, at + 16) =~= spec_u64_to_le_bytes(c.offset as u64));
        assert(b.subrange(at + 16, at + 20) =~= spec_u32_to_le_bytes(c.compressed_len as u32));
        assert(b.subrange(at + 20, at + 24) =~= spec_u32_to_le_bytes(c.raw_len as u32));
        assert(u32_at(b, at) == c.first_frame);
        assert(u16_at(b, at + 4) == c.frame_count);
        assert(u64_at(b, at + 8) == c.offset);
        assert(u32_at(b, at + 16) == c.compressed_len as u32);
        assert(u32_at(b, at + 20) == c.raw_len as u32);
        lemma_u32_cut(c.compressed_len);
        let sc = indexed_chunk(c);
        assert(stored[i] == sc);
        let expected = if i < n {
            chunks[i].first_frame as int
        } else {
            covered
        };
        let next_expected = if i + 1 < n {
            chunks[i + 1].first_frame as int
        } else {
            covered
        };
        assert(expected + c.frame_count == next_expected);
        assert(c.offset + c.compressed_len <= index_offset);
        assert(sc.offset + sc.compressed_len <= index_offset);
        if i > 0 {
            assert(chunks[0].first_frame + chunks[0].frame_count <= c.first_frame);
        }
        assert(next_expected <= covered) by {
            if i + 1 < n {
                assert(chunks[i + 1].first_frame + chunks[i + 1].frame_count <= chunks.last().first_frame
                    + chunks.last().frame_count) by {
                    if i + 1 < n - 1 {
                        assert(chunks[i + 1].first_frame + chunks[i + 1].frame_count
                            <= chunks[n - 1].first_frame);
                    }
                }
            }
        }
        assert(stored.take(i).push(
            Chunk {
                first_frame: c.first_frame,
                frame_count: c.frame_count,
                offset: c.offset,
                compressed_len: (c.compressed_len as u32) as usize,
                raw_len: (c.raw_len as u32) as usize,
            },
        ) =~= stored.take(i + 1));
        lemma_parse_encoded(b, index_offset, chunks, covered, i + 1);
    }
}

/// The body and the chunks that encoding writes for `frames`.
spec fn encoded_body(m: Metadata, frames: Seq<Seq<u8>>) -> Option<(Seq<u8>, Seq<Chunk>)> {
    encode_chunks(
        frames,
        m.keyframe_interval as int,
        0,
        Seq::new(HEADER_SIZE as nat, |i: int| 0u8),
        seq![],
    )
}

proof fn lemma_open_of_encoded(m: Metadata, frames: Seq<Seq<u8>>, bytes: Seq<u8>)
    requires
        spec_encode(m, frames) == Some(Ok::<Seq<u8>, Error>(bytes)),
        bytes.len() <= usize::MAX,
        m.width > 0,
        m.height > 0,
        m.fps > 0,
        m.frame_count > 0,
        m.keyframe_interval > 0,
    ensures
        encoded_body(m, frames) is Some,
        spec_open(bytes) == Ok::<Layout, Error>(
            (Layout { metadata: m, chunks: indexed_chunks(encoded_body(m, frames)->Some_0.1) }),
        ),
        frames.len() == m.frame_count,
        all_sized(frames, frame_size_of(m)),
        index_consistent(
            encoded_body(m, frames)->Some_0.1,
            frames.len() as int,
            encoded_body(m, frames)->Some_0.0.len() as int,
        ),
        forall|k: int|
            0 <= k < encoded_body(m, frames)->Some_0.1.len() ==> chunk_matches(
                frames,
                encoded_body(m, frames)->Some_0.0,
                #[trigger] encoded_body(m, frames)->Some_0.1[k],
            ),
        forall|j: int|
            HEADER_SIZE <= j < encoded_body(m, frames)->Some_0.0.len() ==> #[trigger] bytes[j]
                == encoded_body(m, frames)->Some_0.0[j],
{
    lemma_le_lengths();
    let n = frames.len() as int;
    let interval = m.keyframe_interval as int;
    let frame_size = frame_size_of(m);
    lemma_frame_size_bounds(m);
    assert(n == m.frame_count);
    assert(all_sized(frames, frame_size));
    let zeros = Seq::new(HEADER_SIZE as nat, |i: int| 0u8);
    let encoded = encode_chunks(frames, interval, 0, zeros, seq![]);
    let body = encoded->Some_0.0;
    let chunks = encoded->Some_0.1;
    let header = header_bytes(m, chunks.len() as int, body.len() as int);
    let index = index_bytes(chunks);
    assert(bytes == header + body.subrange(HEADER_SIZE as int, body.len() as int) + index);
    lemma_encode_chunks_grows(frames, interval, 0, zeros, seq![]);
    lemma_index_bytes(chunks);
    assert(index.len() == INDEX_ENTRY_SIZE * chunks.len());
    lemma_header_fields(m, 0, 0, seq![]);
    assert(header.len() == HEADER_SIZE);
    assert(bytes.len() == body.len() + INDEX_ENTRY_SIZE * chunks.len());
    assert(index_consistent(Seq::<Chunk>::empty(), 0, zeros.len() as int));
    lemma_encode_chunks(frames, interval, 0, zeros, seq![], body, chunks);
    assert(chunks.len() > 0);
    let rest = body.subrange(HEADER_SIZE as int, body.len() as int) + index;
    assert(bytes =~= header + rest);
    lemma_header_fields(m, chunks.len() as int, body.len() as int, rest);
    assert(bytes.subrange(body.len() as int, body.len() + INDEX_ENTRY_SIZE * chunks.len())
        =~= index);
    lemma_parse_encoded(bytes, body.len() as int, chunks, n, 0);
    assert(indexed_chunks(chunks).take(0) =~= Seq::<Chunk>::empty());
    assert(chunks[0].first_frame == 0);
    assert(parse_chunks(bytes, body.len() as int, chunks.len() as int, 0, 0, seq![]) == Ok::<
        (Seq<Chunk>, int),
        Error,
    >((indexed_chunks(chunks), n)));
    let layout = Layout { metadata: m, chunks: indexed_chunks(chunks) };
    assert(spec_open(bytes) == Ok::<Layout, Error>(layout));
    assert forall|j: int| HEADER_SIZE <= j < body.len() implies #[trigger] bytes[j] == body[j] by {
        assert(bytes[j] == rest[j - HEADER_SIZE]);
    }
}

/// Frame `i` of a file that `encode` wrote from `frames`: the bytes of the
/// chunk that holds it are what zstd made of the records of that chunk's
/// frames, and reading frame `i` from those records gives `frames[i]`.
pub open spec fn encoded_frame_at(bytes: Seq<u8>, layout: Layout, frames: Seq<Seq<u8>>, i: u32) -> bool {
    let c = frame_chunk(layout, i);
    let raw = spec_encode_records(chunk_group(frames, c));
    &&& zstd_encoded(raw, COMPRESSION_LEVEL) == Some(chunk_bytes(bytes, c))
    &&& frame_in(frames_of_raw(raw, c, frame_size_of(layout.metadata)), c, i) == Ok::<
        Seq<u8>,
        Error,
    >(frames[i as int])
}

/// A file that `encode` wrote opens again and its header gives back the
/// metadata, wherever no field of the metadata is zero.  Each frame whose
/// chunk fits the index's 32-bit length fields reads back as the frame
/// encoded there: the chunk that holds it is zstd's compression of records
/// that read back as that frame, so wherever zstd gives back what it
/// compressed (as `Movie::frame` learns for each chunk it decompresses) the
/// frame read is the frame written.  Other chunks need not fit.
pub proof fn lemma_encode_then_open(m: Metadata, frames: Seq<Seq<u8>>, bytes: Seq<u8>)
    requires
        spec_encode(m, frames) == Some(Ok::<Seq<u8>, Error>(bytes)),
        bytes.len() <= usize::MAX,
        m.width > 0,
        m.height > 0,
        m.fps > 0,
        m.frame_count > 0,
        m.keyframe_interval > 0,
    ensures
        match spec_open(bytes) {
            Ok(layout) => {
                &&& layout.metadata == m
                &&& forall|i: u32|
                    i < m.frame_count && chunk_fits_at(frames, m.keyframe_interval as int, i as int)
                        ==> #[trigger] encoded_frame_at(bytes, layout, frames, i)
                &&& forall|i: u32|
                    i < m.frame_count && chunk_fits_at(frames, m.keyframe_interval as int, i as int)
                        && chunk_lossless(bytes, frame_chunk(layout, i)) ==> #[trigger] spec_frame(
                        bytes,
                        layout,
                        i,
                    ) == Some(Ok::<Seq<u8>, Error>(frames[i as int]))
            },
            Err(_) => false,
        },
{
    lemma_open_of_encoded(m, frames, bytes);
    lemma_le_lengths();
    let frame_size = frame_size_of(m);
    lemma_frame_size_bounds(m);
    let n = frames.len() as int;
    let interval = m.keyframe_interval as int;
    let body = encoded_body(m, frames)->Some_0.0;
    let chunks = encoded_body(m, frames)->Some_0.1;
    let layout = Layout { metadata: m, chunks: indexed_chunks(chunks) };
    lemma_chunk_starts(
        frames,
        interval,
        0,
        Seq::new(HEADER_SIZE as nat, |i: int| 0u8),
        seq![],
        body,
        chunks,
    );
    assert forall|i: u32| i < m.frame_count && chunk_fits_at(frames, interval, i as int) implies
        #[trigger] encoded_frame_at(bytes, layout, frames, i) && (chunk_lossless(
        bytes,
        frame_chunk(layout, i),
    ) ==> spec_frame(bytes, layout, i) == Some(Ok::<Seq<u8>, Error>(frames[i as int]))) by {
        lemma_some_chunk_holds(chunks, n, body.len() as int, i as int);
        let kk = choose|k: int| 0 <= k < chunks.len() && holds_frame(chunks[k], i as int);
        assert(holds_frame(layout.chunks[kk], i as int));
        let k = chunk_of(layout.chunks, i as int);
        assert(0 <= k < chunks.len() && holds_frame(layout.chunks[k], i as int));
        let c = chunks[k];
        assert(layout.chunks[k] == indexed_chunk(c));
        assert(holds_frame(c, i as int));
        assert(c.first_frame == k * interval && c.frame_count <= interval);
        assert((i as int) / interval == k) by (nonlinear_arith)
            requires
                interval > 0,
                k * interval <= i < k * interval + interval,
        ;
        let start = k * interval;
        let end = chunk_end(n, start, interval);
        assert(chunk_group(frames, c) =~= frames.subrange(start, end));
        assert(chunk_matches(frames, body, c));
        let group = chunk_group(frames, c);
        let raw = spec_encode_records(group);
        let compressed = body.subrange(c.offset as int, c.offset + c.compressed_len);
        assert(compressed.len() == c.compressed_len);
        assert(c.compressed_len <= u32::MAX);
        assert(raw.len() <= u32::MAX);
        assert(c.raw_len == raw.len());
        lemma_u32_cut(c.compressed_len);
        lemma_u32_cut(c.raw_len);
        assert(indexed_chunk(c) == c);
        assert(frame_chunk(layout, i) == c);
        assert(chunk_bytes(bytes, c) =~= compressed);
        assert(zstd_encoded(raw, COMPRESSION_LEVEL) == Some(chunk_bytes(bytes, c)));
        assert forall|j: int| 0 <= j < group.len() implies (#[trigger] group[j]).len()
            == frame_size by {
            assert(group[j] == frames[c.first_frame + j]);
        }
        lemma_records_round_trip_in_movie(group, frame_size as usize);
        assert(frames_of_raw(raw, c, frame_size) == Ok::<Seq<Seq<u8>>, Error>(group));
        assert(group[i - c.first_frame] == frames[i as int]);
        if chunk_lossless(bytes, c) {
            assert(zstd_decoded(chunk_bytes(bytes, c)) == Some(raw));
        }
    }
    assert forall|i: u32|
        i < m.frame_count && chunk_fits_at(frames, interval, i as int) && chunk_lossless(
            bytes,
            frame_chunk(layout, i),
        ) implies #[trigger] spec_frame(bytes, layout, i) == Some(
        Ok::<Seq<u8>, Error>(frames[i as int]),
    ) by {
        assert(encoded_frame_at(bytes, layout, frames, i));
    }
}

proof fn lemma_encode_chunks_count(
    frames: Seq<Seq<u8>>,
    interval: int,
    start: int,
    body: Seq<u8>,
    chunks: Seq<Chunk>,
)
    requires
        1 <= interval,
        0 <= start,
    ensures
        encode_chunks(frames, interval, start, body, chunks) matches Some((b, c)) ==> c.len()
            <= chunks.len() + (if start < frames.len() {
            frames.len() - start
        } else {
            0
        }),
    decreases frames.len() - start,
{
    if start < frames.len() {
        let end = chunk_end(frames.len() as int, start, interval);
        let raw = spec_encode_records(frames.subrange(start, end));
        if let Some(compressed) = zstd_encoded(raw, COMPRESSION_LEVEL) {
            let next_chunk = Chunk {
                first_frame: start as u32,
                frame_count: (end - start) as u16,
                offset: body.len() as usize,
                compressed_len: compressed.len() as usize,
                raw_len: raw.len() as usize,
            };
            lemma_encode_chunks_count(frames, interval, end, body + compressed, chunks.push(next_chunk));
        }
    }
}

/// A file that `encode` wrote with a zero width, height, frame rate or
/// frame count does not open: it is rejected as `zero-valued metadata`.
/// With the round trip above, such a file opens again exactly when none of
/// these is zero.
pub proof fn lemma_encode_zero_metadata_rejected(m: Metadata, frames: Seq<Seq<u8>>, bytes: Seq<u8>)
    requires
        spec_encode(m, frames) == Some(Ok::<Seq<u8>, Error>(bytes)),
        bytes.len() <= usize::MAX,
        m.keyframe_interval > 0,
        m.width == 0 || m.height == 0 || m.fps == 0 || m.frame_count == 0,
    ensures
        spec_open(bytes) == Err::<Layout, Error>(Error::Invalid("zero-valued metadata")),
{
    lemma_le_lengths();
    let zeros = Seq::new(HEADER_SIZE as nat, |i: int| 0u8);
    assert(frames.len() == m.frame_count);
    let encoded = encode_chunks(frames, m.keyframe_interval as int, 0, zeros, seq![]);
    assert(encoded == encoded_body(m, frames));
    let body = encoded->Some_0.0;
    let chunks = encoded->Some_0.1;
    lemma_encode_chunks_grows(frames, m.keyframe_interval as int, 0, zeros, seq![]);
    lemma_encode_chunks_count(frames, m.keyframe_interval as int, 0, zeros, seq![]);
    let index = index_bytes(chunks);
    lemma_index_bytes(chunks);
    let rest = body.subrange(HEADER_SIZE as int, body.len() as int) + index;
    let header = header_bytes(m, chunks.len() as int, body.len() as int);
    assert(bytes =~= header + rest);
    lemma_header_fields(m, chunks.len() as int, body.len() as int, rest);
    assert(bytes.len() == body.len() + index.len());
}

proof fn lemma_chunk_starts(
    frames: Seq<Seq<u8>>,
    interval: int,
    start: int,
    body: Seq<u8>,
    chunks: Seq<Chunk>,
    final_body: Seq<u8>,
    final_chunks: Seq<Chunk>,
)
    requires
        encode_chunks(frames, interval, start, body, chunks) == Some((final_body, final_chunks)),
        1 <= interval <= 65535,
        frames.len() <= u32::MAX,
        0 <= start,
        start == chunks.len() * interval || start >= frames.len(),
        forall|k: int|
            0 <= k < chunks.len() ==> (#[trigger] chunks[k]).first_frame == k * interval
                && chunks[k].frame_count <= interval && chunks[k].first_frame + chunks[k].frame_count
                == chunk_end(frames.len() as int, k * interval, interval),
    ensures
        forall|k: int|
            0 <= k < final_chunks.len() ==> (#[trigger] final_chunks[k]).first_frame == k * interval
                && final_chunks[k].frame_count <= interval && final_chunks[k].first_frame
                + final_chunks[k].frame_count == chunk_end(frames.len() as int, k * interval, interval),
    decreases frames.len() - start,
{
    if start < frames.len() {
        let n = frames.len() as int;
        let end = chunk_end(n, start, interval);
        let raw = spec_encode_records(frames.subrange(start, end));
        let compressed = zstd_encoded(raw, COMPRESSION_LEVEL)->Some_0;
        let c = Chunk {
            first_frame: start as u32,
            frame_count: (end - start) as u16,
            offset: body.len() as usize,
            compressed_len: compressed.len() as usize,
            raw_len: raw.len() as usize,
        };
        let next = chunks.push(c);
        assert(c.first_frame == chunks.len() * interval);
        assert forall|k: int| 0 <= k < next.len() implies (#[trigger] next[k]).first_frame == k
            * interval && next[k].frame_count <= interval && next[k].first_frame + next[k].frame_count
            == chunk_end(frames.len() as int, k * interval, interval) by {
            if k < chunks.len() {
                assert(next[k] == chunks[k]);
            }
        }
        assert(end == next.len() * interval || end >= n) by (nonlinear_arith)
            requires
                start == chunks.len() * interval,
                next.len() == chunks.len() + 1,
                end == start + interval || end == n,
        ;
        lemma_chunk_starts(frames, interval, end, body + compressed, next, final_body, final_chunks);
    }
}

/// Encoding starts a chunk, and with it a keyframe, at every multiple of
/// the keyframe interval: chunk `k` starts at frame `k * interval` and
/// holds at most `interval` frames, so a seek decodes at most that many.
pub proof fn lemma_keyframe_every_interval(m: Metadata, frames: Seq<Seq<u8>>, bytes: Seq<u8>)
    requires
        spec_encode(m, frames) == Some(Ok::<Seq<u8>, Error>(bytes)),
        bytes.len() <= usize::MAX,
        m.width > 0,
        m.height > 0,
        m.fps > 0,
        m.frame_count > 0,
        m.keyframe_interval > 0,
    ensures
        match spec_open(bytes) {
            Ok(layout) => forall|k: int|
                0 <= k < layout.chunks.len() ==> (#[trigger] layout.chunks[k]).first_frame == k
                    * m.keyframe_interval && layout.chunks[k].frame_count <= m.keyframe_interval,
            Err(_) => false,
        },
{
    lemma_open_of_encoded(m, frames, bytes);
    let encoded = encoded_body(m, frames);
    lemma_chunk_starts(
        frames,
        m.keyframe_interval as int,
        0,
        Seq::new(HEADER_SIZE as nat, |i: int| 0u8),
        seq![],
        encoded->Some_0.0,
        encoded->Some_0.1,
    );
    let chunks = encoded->Some_0.1;
    assert forall|k: int| 0 <= k < chunks.len() implies #[trigger] indexed_chunks(chunks)[k]
        == indexed_chunk(chunks[k]) by {}
}

/// A movie written at `fps` frames a second (as `encode_movie` writes it)
/// says `fps` as its frame rate and as its keyframe interval, and every
/// one-second boundary is a keyframe: chunk `k` starts at frame `k * fps`
/// and holds at most one second of frames, and there is one chunk for each
/// second the movie lasts, begun or whole, so every frame `k * fps` of the
/// movie starts a chunk.
pub proof fn lemma_keyframe_every_second(
    width: u16,
    height: u16,
    fps: u16,
    frames: Seq<Seq<u8>>,
    bytes: Seq<u8>,
)
    requires
        spec_encode(movie_metadata(width, height, fps, frames.len() as int), frames) == Some(
            Ok::<Seq<u8>, Error>(bytes),
        ),
        bytes.len() <= usize::MAX,
        width > 0,
        height > 0,
        fps > 0,
        0 < frames.len() <= u32::MAX,
    ensures
        match spec_open(bytes) {
            Ok(layout) => {
                &&& layout.metadata.fps == fps
                &&& layout.metadata.keyframe_interval == fps
                &&& layout.metadata.frame_count == frames.len()
                &&& forall|k: int|
                    0 <= k < layout.chunks.len() ==> (#[trigger] layout.chunks[k]).first_frame == k
                        * fps && layout.chunks[k].frame_count <= fps
                &&& (layout.chunks.len() - 1) * fps < frames.len() <= layout.chunks.len() * fps
            },
            Err(_) => false,
        },
{
    let m = movie_metadata(width, height, fps, frames.len() as int);
    assert(m.frame_count == frames.len());
    lemma_encode_then_open(m, frames, bytes);
    lemma_keyframe_every_interval(m, frames, bytes);
    lemma_open_consistent(bytes);
    let f = fps as int;
    if let Ok(layout) = spec_open(bytes) {
        let n = layout.chunks.len() as int;
        let last = layout.chunks[n - 1];
        assert(last.first_frame == (n - 1) * f && last.frame_count <= f);
        assert(last.first_frame + last.frame_count == frames.len());
        assert(last.frame_count > 0);
        assert(frames.len() <= n * f) by (nonlinear_arith)
            requires
                last.first_frame == (n - 1) * f,
                last.frame_count <= f,
                last.first_frame + last.frame_count == frames.len(),
        ;
    }
}

} // verus!
