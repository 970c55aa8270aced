//! Writing a BAV2 file: chunks of records, each compressed, then the index,
//! then the header in front.
use vstd::prelude::*;
use vstd::bytes::*;
use crate::codec::{compress, zstd_encoded};
use crate::format::{
    frame_size_of, magic, Chunk, Error, Metadata, HEADER_SIZE, VERSION,
};
use crate::records::{encode_records, spec_encode_records, views};

verus! {

/// The zstd level that chunks are compressed at.
pub const COMPRESSION_LEVEL: i32 = 12;

/// Where the chunk that starts at frame `start` ends: after `interval`
/// frames, or at the end of the movie.
pub open spec fn chunk_end(n: int, start: int, interval: int) -> int {
    if start + interval < n {
        start + interval
    } else {
        n
    }
}

/// Compresses the chunks from frame `start` on and appends them to `body`,
/// recording each in `chunks`; `None` when the compressor fails.
pub open spec fn encode_chunks(
    frames: Seq<Seq<u8>>,
    interval: int,
    start: int,
    body: Seq<u8>,
    chunks: Seq<Chunk>,
) -> Option<(Seq<u8>, Seq<Chunk>)>
    decreases frames.len() - start,
{
    if start >= frames.len() || interval <= 0 {
        Some((body, chunks))
    } else {
        let end = chunk_end(frames.len() as int, start, interval);
        let raw = spec_encode_records(frames.subrange(start, end));
        match zstd_encoded(raw, COMPRESSION_LEVEL) {
            None => None,
            Some(compressed) => encode_chunks(
                frames,
                interval,
                end,
                body + compressed,
                chunks.push(
                    Chunk {
                        first_frame: start as u32,
                        frame_count: (end - start) as u16,
                        offset: body.len() as usize,
                        compressed_len: compressed.len() as usize,
                        raw_len: raw.len() as usize,
                    },
                ),
            ),
        }
    }
}

/// The index entry of one chunk.
pub open spec fn index_entry(c: Chunk) -> Seq<u8> {
    spec_u32_to_le_bytes(c.first_frame) + spec_u16_to_le_bytes(c.frame_count)
        + spec_u16_to_le_bytes(0) + spec_u64_to_le_bytes(c.offset as u64) + spec_u32_to_le_bytes(
        c.compressed_len as u32,
    ) + spec_u32_to_le_bytes(c.raw_len as u32)
}

/// The chunk that an index entry written for `c` describes: its two
/// lengths are written as 32-bit fields, so only their low 32 bits remain.
pub open spec fn indexed_chunk(c: Chunk) -> Chunk {
    Chunk {
        first_frame: c.first_frame,
        frame_count: c.frame_count,
        offset: c.offset,
        compressed_len: (c.compressed_len as u32) as usize,
        raw_len: (c.raw_len as u32) as usize,
    }
}

/// The index entries of a list of chunks, one after the other.
pub open spec fn index_bytes(chunks: Seq<Chunk>) -> Seq<u8>
    decreases chunks.len(),
{
    if chunks.len() == 0 {
        seq![]
    } else {
        index_bytes(chunks.drop_last()) + index_entry(chunks.last())
    }
}

/// The header of a file with `chunk_count` chunks whose index starts at
/// `index_offset`.
pub open spec fn header_bytes(m: Metadata, chunk_count: int, index_offset: int) -> Seq<u8> {
    magic() + spec_u16_to_le_bytes(VERSION) + spec_u16_to_le_bytes(m.width)
        + spec_u16_to_le_bytes(m.height) + spec_u16_to_le_bytes(m.fps) + spec_u32_to_le_bytes(
        m.frame_count,
    ) + spec_u16_to_le_bytes(m.keyframe_interval) + seq![0u8, 0u8] + spec_u32_to_le_bytes(
        chunk_count as u32,
    ) + spec_u64_to_le_bytes(index_offset as u64)
}

/// Every frame has `size` bytes.
pub open spec fn all_sized(frames: Seq<Seq<u8>>, size: int) -> bool {
    forall|i: int| 0 <= i < frames.len() ==> (#[trigger] frames[i]).len() == size
}

/// What encoding `frames` with `m` gives: `None` when the compressor fails,
/// else the file or why the frames do not fit the metadata.
pub open spec fn spec_encode(m: Metadata, frames: Seq<Seq<u8>>) -> Option<Result<Seq<u8>, Error>> {
    if frames.len() != m.frame_count {
        Some(Err(Error::Invalid("frame count does not match metadata")))
    } else if !all_sized(frames, frame_size_of(m)) {
        Some(Err(Error::Invalid("incorrect frame size")))
    } else {
        assemble(
            m,
            encode_chunks(
                frames,
                m.keyframe_interval as int,
                0,
                Seq::new(HEADER_SIZE as nat, |i: int| 0u8),
                seq![],
            ),
        )
    }
}

/// The file made of the compressed chunks: the header, the chunks, the index.
pub open spec fn assemble(m: Metadata, encoded: Option<(Seq<u8>, Seq<Chunk>)>) -> Option<
    Result<Seq<u8>, Error>,
> {
    match encoded {
        None => None,
        Some((body, chunks)) => Some(
            Ok(
                header_bytes(m, chunks.len() as int, body.len() as int) + body.subrange(
                    HEADER_SIZE as int,
                    body.len() as int,
                ) + index_bytes(chunks),
            ),
        ),
    }
}

/// The contents of an encoding result.
pub open spec fn bytes_result(res: Result<Vec<u8>, Error>) -> Result<Seq<u8>, Error> {
    match res {
        Ok(bytes) => Ok(bytes@),
        Err(e) => Err(e),
    }
}

fn put_bytes(output: &mut Vec<u8>, at: usize, src: &[u8])
    requires
        at + src@.len() <= old(output)@.len(),
    ensures
        final(output)@ == old(output)@.subrange(0, at as int) + src@ + old(output)@.subrange(
            at + src@.len(),
            old(output)@.len() as int,
        ),
{
    let ghost before = old(output)@;
    let mut i: usize = 0;
    while i < src.len()
        invariant
            at + src@.len() <= before.len(),
            before.len() == output.len(),
            i <= src@.len(),
            output@.len() == before.len(),
            forall|j: int| 0 <= j < at ==> output@[j] == before[j],
            forall|j: int| 0 <= j < i ==> output@[at + j] == src@[j],
            forall|j: int| at + i <= j < before.len() ==> output@[j] == before[j],
        decreases src.len() - i,
    {
        output.set(at + i, src[i]);
        i += 1;
    }
    assert(output@ =~= before.subrange(0, at as int) + src@ + before.subrange(
        at + src@.len(),
        before.len() as int,
    ));
}

/// Writes a BAV2 file: the frames in chunks of `keyframe_interval`, each
/// chunk's records compressed, then the index, then the header.
pub fn encode(metadata: Metadata, frames: &[Vec<u8>]) -> (res: Result<Vec<u8>, Error>)
    requires
        (frames@.len() == metadata.frame_count && all_sized(
            views(frames@),
            frame_size_of(metadata),
        )) ==> metadata.keyframe_interval > 0,
    ensures
        match spec_encode(metadata, views(frames@)) {
            None => res matches Err(Error::Io(_)),
            Some(r) => bytes_result(res) == r,
        },
{
    let ghost all = views(frames@);
    if frames.len() != metadata.frame_count as usize {
        return Err(Error::Invalid("frame count does not match metadata"));
    }
    let frame_size = metadata.frame_size();
    let mut checked: usize = 0;
    while checked < frames.len()
        invariant
            checked <= frames@.len(),
            all == views(frames@),
            all.len() == metadata.frame_count,
            frame_size == frame_size_of(metadata),
            forall|i: int| 0 <= i < checked ==> (#[trigger] all[i]).len() == frame_size,
        decreases frames.len() - checked,
    {
        if frames[checked].len() != frame_size {
            assert(all[checked as int] == frames@[checked as int]@);
            assert(all[checked as int].len() != frame_size_of(metadata));
            assert(!all_sized(all, frame_size_of(metadata)));
            return Err(Error::Invalid("incorrect frame size"));
        }
        checked += 1;
    }
    assert(all_sized(all, frame_size as int));
    let interval = metadata.keyframe_interval as usize;
    let mut output: Vec<u8> = vec![0u8; HEADER_SIZE];
    let mut chunks: Vec<Chunk> = Vec::new();
    let ghost target = encode_chunks(all, interval as int, 0, output@, seq![]);
    assert(output@ =~= Seq::new(HEADER_SIZE as nat, |i: int| 0u8));
    assert(spec_encode(metadata, all) == assemble(metadata, target));
    let mut start: usize = 0;
    while start < frames.len()
        invariant
            all == views(frames@),
            all.len() == metadata.frame_count,
            all_sized(all, frame_size as int),
            frame_size == frame_size_of(metadata),
            interval == metadata.keyframe_interval,
            interval > 0,
            start <= frames@.len(),
            HEADER_SIZE <= output@.len(),
            target == encode_chunks(all, interval as int, start as int, output@, chunks@),
            spec_encode(metadata, all) == assemble(metadata, target),
        decreases frames.len() - start,
    {
        let end = if frames.len() - start > interval {
            start + interval
        } else {
            frames.len()
        };
        let group = &frames[start..end];
        assert(group@ =~= frames@.subrange(start as int, end as int));
        assert(views(group@) =~= all.subrange(start as int, end as int));
        assert forall|i: int| 1 <= i < group@.len() implies (#[trigger] group@[i])@.len()
            <= group@[i - 1]@.len() by {
            assert(group@[i]@ == all[start + i]);
            assert(group@[i - 1]@ == all[start + i - 1]);
        }
        let raw = encode_records(group);
        let compressed = match compress(raw.as_slice(), COMPRESSION_LEVEL) {
            Ok(c) => c,
            Err(e) => return Err(Error::Io(e)),
        };
        let offset = output.len();
        let ghost old_output = output@;
        let ghost old_chunks = chunks@;
        output.extend_from_slice(compressed.as_slice());
        let chunk = Chunk {
            first_frame: start as u32,
            frame_count: (end - start) as u16,
            offset,
            compressed_len: compressed.len(),
            raw_len: raw.len(),
        };
        chunks.push(chunk);
        proof {
            assert(chunk_end(all.len() as int, start as int, interval as int) == end);
            assert(raw@ == spec_encode_records(all.subrange(start as int, end as int)));
            assert(encode_chunks(all, interval as int, start as int, old_output, old_chunks)
                == encode_chunks(
                all,
                interval as int,
                end as int,
                old_output + compressed@,
                old_chunks.push(chunk),
            ));
            assert(output@ =~= old_output + compressed@);
        }
        start = end;
    }
    let index_offset = output.len();
    let ghost body = output@;
    let mut k: usize = 0;
    while k < chunks.len()
        invariant
            k <= chunks@.len(),
            body.len() == index_offset,
            output@ == body + index_bytes(chunks@.take(k as int)),
        decreases chunks.len() - k,
    {
        let chunk = chunks[k];
        output.extend_from_slice(u32_to_le_bytes(chunk.first_frame).as_slice());
        output.extend_from_slice(u16_to_le_bytes(chunk.frame_count).as_slice());
        output.extend_from_slice(u16_to_le_bytes(0).as_slice());
        output.extend_from_slice(u64_to_le_bytes(chunk.offset as u64).as_slice());
        output.extend_from_slice(u32_to_le_bytes(chunk.compressed_len as u32).as_slice());
        output.extend_from_slice(u32_to_le_bytes(chunk.raw_len as u32).as_slice());
        proof {
            let next = chunks@.take(k + 1);
            assert(next.drop_last() =~= chunks@.take(k as int));
            assert(next.last() == chunk);
            assert(output@ =~= body + index_bytes(next));
        }
        k += 1;
    }
    assert(chunks@.take(k as int) =~= chunks@);
    let mut header: Vec<u8> = Vec::new();
    header.push(66);
    header.push(65);
    header.push(86);
    header.push(50);
    header.extend_from_slice(u16_to_le_bytes(VERSION).as_slice());
    header.extend_from_slice(u16_to_le_bytes(metadata.width).as_slice());
    header.extend_from_slice(u16_to_le_bytes(metadata.height).as_slice());
    header.extend_from_slice(u16_to_le_bytes(metadata.fps).as_slice());
    header.extend_from_slice(u32_to_le_bytes(metadata.frame_count).as_slice());
    header.extend_from_slice(u16_to_le_bytes(metadata.keyframe_interval).as_slice());
    header.push(0);
    header.push(0);
    header.extend_from_slice(u32_to_le_bytes(chunks.len() as u32).as_slice());
    header.extend_from_slice(u64_to_le_bytes(index_offset as u64).as_slice());
    let ghost expected_header = header_bytes(metadata, chunks@.len() as int, index_offset as int);
    assert(header@ =~= expected_header);
    proof {
        lemma_auto_spec_u16_to_from_le_bytes();
        lemma_auto_spec_u32_to_from_le_bytes();
        lemma_auto_spec_u64_to_from_le_bytes();
    }
    assert(header@.len() == HEADER_SIZE);
    let ghost whole = output@;
    put_bytes(&mut output, 0, header.as_slice());
    assert(output@ =~= expected_header + body.subrange(HEADER_SIZE as int, body.len() as int)
        + index_bytes(chunks@));
    Ok(output)
}

/// The metadata of a movie of `count` frames of `width` by `height` pixels
/// at `fps` frames a second with a keyframe at each second: the keyframe
/// interval is the frame rate, and the count is kept to 32 bits.
pub open spec fn movie_metadata(width: u16, height: u16, fps: u16, count: int) -> Metadata {
    Metadata { width, height, fps, frame_count: count as u32, keyframe_interval: fps }
}

/// Writes a movie of `frames` at `fps` frames a second with a keyframe at
/// every second: `encode` with the metadata that `movie_metadata` gives.
pub fn encode_movie(width: u16, height: u16, fps: u16, frames: &[Vec<u8>]) -> (res: Result<
    Vec<u8>,
    Error,
>)
    requires
        (frames@.len() == frames@.len() as u32 && all_sized(
            views(frames@),
            frame_size_of(movie_metadata(width, height, fps, frames@.len() as int)),
        )) ==> fps > 0,
    ensures
        match spec_encode(movie_metadata(width, height, fps, frames@.len() as int), views(frames@)) {
            None => res matches Err(Error::Io(_)),
            Some(r) => bytes_result(res) == r,
        },
{
    let metadata = Metadata {
        width,
        height,
        fps,
        frame_count: frames.len() as u32,
        keyframe_interval: fps,
    };
    encode(metadata, frames)
}

} // verus!
