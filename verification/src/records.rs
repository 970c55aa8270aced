//! Frame records: the raw, uncompressed content of one chunk.
use vstd::prelude::*;
use vstd::bytes::*;
use crate::delta::{
    apply_delta, encode_delta, lemma_apply_runs_len, lemma_delta_round_trip, spec_apply_delta,
    spec_encode_delta,
};
use crate::format::{Error, read_u32, u32_at, max_frame_size, DELTA, KEYFRAME};

verus! {

/// The contents of a list of byte vectors.
pub open spec fn views(frames: Seq<Vec<u8>>) -> Seq<Seq<u8>> {
    frames.map_values(|f: Vec<u8>| f@)
}

/// One record: its kind, the length of its payload, and the payload.
pub open spec fn record(kind: u8, payload: Seq<u8>) -> Seq<u8> {
    seq![kind] + spec_u32_to_le_bytes(payload.len() as u32) + payload
}

/// The record of frame `i`: the first frame whole, each later one as the
/// delta from the frame before it.
pub open spec fn frame_record(frames: Seq<Seq<u8>>, i: int) -> Seq<u8> {
    if i == 0 {
        record(KEYFRAME, frames[0])
    } else {
        record(DELTA, spec_encode_delta(frames[i - 1], frames[i]))
    }
}

/// The records of a list of frames, one after the other.
pub open spec fn spec_encode_records(frames: Seq<Seq<u8>>) -> Seq<u8>
    decreases frames.len(),
{
    if frames.len() == 0 {
        seq![]
    } else {
        spec_encode_records(frames.drop_last()) + frame_record(frames, frames.len() - 1)
    }
}

/// Reads the records from number `index` on, which start at `cursor`, after
/// the frames already read; the whole list of frames, or why it fails.
pub open spec fn decode_records_from(
    raw: Seq<u8>,
    count: int,
    frame_size: int,
    index: int,
    cursor: int,
    frames: Seq<Seq<u8>>,
) -> Result<Seq<Seq<u8>>, Error>
    decreases count - index,
{
    if index >= count {
        Ok(frames)
    } else if cursor < 0 || cursor + 5 > raw.len() {
        Err(Error::Truncated)
    } else {
        let kind = raw[cursor];
        let start = cursor + 5;
        let end = start + u32_at(raw, cursor + 1);
        if end > raw.len() {
            Err(Error::Truncated)
        } else {
            let payload = raw.subrange(start, end);
            if index == 0 {
                if kind != KEYFRAME || payload.len() != frame_size {
                    Err(Error::Invalid("chunk does not start with a keyframe"))
                } else {
                    decode_records_from(raw, count, frame_size, index + 1, end, frames.push(payload))
                }
            } else if kind != DELTA {
                Err(Error::Invalid("unexpected record type"))
            } else {
                match spec_apply_delta(frames.last(), payload) {
                    None => Err(Error::Truncated),
                    Some(frame) => decode_records_from(
                        raw,
                        count,
                        frame_size,
                        index + 1,
                        end,
                        frames.push(frame),
                    ),
                }
            }
        }
    }
}

/// Every frame that reading records gives has the frame size.
proof fn lemma_decoded_sizes(
    raw: Seq<u8>,
    count: int,
    frame_size: int,
    index: int,
    cursor: int,
    frames: Seq<Seq<u8>>,
)
    requires
        0 <= index,
        frames.len() == index,
        forall|k: int| 0 <= k < frames.len() ==> (#[trigger] frames[k]).len() == frame_size,
    ensures
        decode_records_from(raw, count, frame_size, index, cursor, frames) matches Ok(out) ==> forall|
            k: int,
        | 0 <= k < out.len() ==> (#[trigger] out[k]).len() == frame_size,
    decreases count - index,
{
    if index < count && 0 <= cursor && cursor + 5 <= raw.len() {
        let kind = raw[cursor];
        let start = cursor + 5;
        let end = start + u32_at(raw, cursor + 1);
        if end <= raw.len() {
            let payload = raw.subrange(start, end);
            if index == 0 {
                if kind == KEYFRAME && payload.len() == frame_size {
                    lemma_decoded_sizes(raw, count, frame_size, index + 1, end, frames.push(payload));
                }
            } else if kind == DELTA {
                lemma_apply_runs_len(frames.last(), payload, 4, u32_at(payload, 0) as nat);
                if let Some(frame) = spec_apply_delta(frames.last(), payload) {
                    assert(frame.len() == frame_size);
                    lemma_decoded_sizes(raw, count, frame_size, index + 1, end, frames.push(frame));
                }
            }
        }
    }
}

/// Reading back the records of a list of frames of a size that a header
/// can describe gives back the frames.
pub proof fn lemma_records_round_trip_in_movie(frames: Seq<Seq<u8>>, frame_size: usize)
    requires
        1 <= frames.len() <= 65535,
        frame_size <= max_frame_size(),
        forall|k: int| 0 <= k < frames.len() ==> (#[trigger] frames[k]).len() == frame_size,
    ensures
        spec_decode_records(spec_encode_records(frames), frames.len() as u16, frame_size) == Ok::<
            Seq<Seq<u8>>,
            Error,
        >(frames),
{
    assert forall|k: int| 1 <= k < frames.len() implies #[trigger] spec_encode_delta(
        frames[k - 1],
        frames[k],
    ).len() <= u32::MAX by {
        lemma_delta_round_trip(frames[k - 1], frames[k]);
    }
    lemma_records_round_trip(frames, frame_size);
}

/// Every frame that decoding gives has `frame_size` bytes.
pub(crate) proof fn lemma_decode_records_sizes(raw: Seq<u8>, count: u16, frame_size: usize)
    ensures
        spec_decode_records(raw, count, frame_size) matches Ok(out) ==> forall|k: int|
            0 <= k < out.len() ==> (#[trigger] out[k]).len() == frame_size,
{
    lemma_decoded_sizes(raw, count as int, frame_size as int, 0, 0, seq![]);
}

/// The `count` frames that the records in `raw` hold, or why they cannot be
/// read.
pub open spec fn spec_decode_records(raw: Seq<u8>, count: u16, frame_size: usize) -> Result<
    Seq<Seq<u8>>,
    Error,
> {
    decode_records_from(raw, count as int, frame_size as int, 0, 0, seq![])
}

/// The contents of a decoding result.
pub open spec fn frames_result(res: Result<Vec<Vec<u8>>, Error>) -> Result<Seq<Seq<u8>>, Error> {
    match res {
        Ok(frames) => Ok(views(frames@)),
        Err(e) => Err(e),
    }
}

/// Appends one record to `output`.
pub fn write_record(output: &mut Vec<u8>, kind: u8, payload: &[u8])
    ensures
        final(output)@ == old(output)@ + record(kind, payload@),
{
    output.push(kind);
    let length = u32_to_le_bytes(payload.len() as u32);
    output.extend_from_slice(length.as_slice());
    output.extend_from_slice(payload);
    assert(final(output)@ =~= old(output)@ + record(kind, payload@));
}

/// The records of a chunk's frames: the first whole, the rest as deltas.
pub fn encode_records(frames: &[Vec<u8>]) -> (out: Vec<u8>)
    requires
        forall|i: int| 1 <= i < frames@.len() ==> (#[trigger] frames@[i])@.len() <= frames@[i - 1]@.len(),
    ensures
        out@ == spec_encode_records(views(frames@)),
{
    let ghost all = views(frames@);
    let mut output: Vec<u8> = Vec::new();
    let mut index: usize = 0;
    while index < frames.len()
        invariant
            index <= frames@.len(),
            all == views(frames@),
            forall|i: int| 1 <= i < frames@.len() ==> (#[trigger] frames@[i])@.len() <= frames@[i - 1]@.len(),
            output@ == spec_encode_records(all.take(index as int)),
        decreases frames.len() - index,
    {
        if index == 0 {
            write_record(&mut output, KEYFRAME, frames[0].as_slice());
        } else {
            let payload = encode_delta(frames[index - 1].as_slice(), frames[index].as_slice());
            write_record(&mut output, DELTA, payload.as_slice());
        }
        proof {
            let next = all.take(index + 1);
            assert(next.drop_last() =~= all.take(index as int));
            assert(next[index as int] == all[index as int]);
            if index > 0 {
                assert(next[index - 1] == all[index - 1]);
            }
        }
        index += 1;
    }
    proof {
        assert(all.take(index as int) =~= all);
    }
    output
}

/// Reads `count` frames of `frame_size` bytes from the records in `raw`.
pub fn decode_records(raw: &[u8], count: u16, frame_size: usize) -> (res: Result<
    Vec<Vec<u8>>,
    Error,
>)
    ensures
        frames_result(res) == spec_decode_records(raw@, count, frame_size),
{
    let ghost target = spec_decode_records(raw@, count, frame_size);
    let mut frames: Vec<Vec<u8>> = Vec::with_capacity(count as usize);
    let mut cursor: usize = 0;
    let mut index: u16 = 0;
    assert(views(frames@) =~= Seq::<Seq<u8>>::empty());
    while index < count
        invariant
            cursor <= raw@.len(),
            frames@.len() == index,
            target == spec_decode_records(raw@, count, frame_size),
            target == decode_records_from(
                raw@,
                count as int,
                frame_size as int,
                index as int,
                cursor as int,
                views(frames@),
            ),
        decreases count - index,
    {
        if cursor >= raw.len() {
            return Err(Error::Truncated);
        }
        let kind = raw[cursor];
        let payload_len = match read_u32(raw, cursor + 1) {
            Ok(v) => v as usize,
            Err(e) => return Err(e),
        };
        let start = cursor + 5;
        let end = match start.checked_add(payload_len) {
            Some(v) => v,
            None => return Err(Error::Truncated),
        };
        if end > raw.len() {
            return Err(Error::Truncated);
        }
        let payload = &raw[start..end];
        let ghost before = views(frames@);
        if index == 0 {
            if kind != KEYFRAME || payload.len() != frame_size {
                return Err(Error::Invalid("chunk does not start with a keyframe"));
            }
            frames.push(vstd::slice::slice_to_vec(payload));
        } else {
            if kind != DELTA {
                return Err(Error::Invalid("unexpected record type"));
            }
            let mut frame = frames[index as usize - 1].clone();
            assert(frame@ == before.last());
            match apply_delta(&mut frame, payload) {
                Ok(()) => {},
                Err(e) => return Err(e),
            }
            frames.push(frame);
        }
        assert(views(frames@) =~= before.push(frames@[index as int]@));
        cursor = end;
        index += 1;
    }
    Ok(frames)
}

proof fn lemma_records_prefix(frames: Seq<Seq<u8>>, j: int, k: int)
    requires
        0 <= j <= k <= frames.len(),
    ensures
        spec_encode_records(frames.take(j)).len() <= spec_encode_records(frames.take(k)).len(),
        spec_encode_records(frames.take(k)).subrange(
            0,
            spec_encode_records(frames.take(j)).len() as int,
        ) == spec_encode_records(frames.take(j)),
    decreases k - j,
{
    if j < k {
        lemma_records_prefix(frames, j, k - 1);
        let t = frames.take(k);
        assert(t.drop_last() =~= frames.take(k - 1));
        let a = spec_encode_records(frames.take(j));
        let b = spec_encode_records(frames.take(k - 1));
        assert(spec_encode_records(t) == b + frame_record(t, k - 1));
        assert((b + frame_record(t, k - 1)).subrange(0, a.len() as int) =~= b.subrange(
            0,
            a.len() as int,
        ));
    } else {
        assert(spec_encode_records(frames.take(k)).subrange(
            0,
            spec_encode_records(frames.take(k)).len() as int,
        ) =~= spec_encode_records(frames.take(k)));
    }
}

proof fn lemma_decode_from(frames: Seq<Seq<u8>>, frame_size: int, i: int)
    requires
        1 <= frames.len() <= 65535,
        0 <= frame_size <= u32::MAX,
        forall|k: int| 0 <= k < frames.len() ==> (#[trigger] frames[k]).len() == frame_size,
        forall|k: int|
            1 <= k < frames.len() ==> #[trigger] spec_encode_delta(frames[k - 1], frames[k]).len()
                <= u32::MAX,
        0 <= i <= frames.len(),
    ensures
        decode_records_from(
            spec_encode_records(frames),
            frames.len() as int,
            frame_size,
            i,
            spec_encode_records(frames.take(i)).len() as int,
            frames.take(i),
        ) == Ok::<Seq<Seq<u8>>, Error>(frames),
    decreases frames.len() - i,
{
    let n = frames.len() as int;
    let raw = spec_encode_records(frames);
    if i == n {
        assert(frames.take(i) =~= frames);
    } else {
        lemma_auto_spec_u32_to_from_le_bytes();
        let t = frames.take(i + 1);
        assert(t.drop_last() =~= frames.take(i));
        assert(t[i] == frames[i]);
        if i > 0 {
            assert(t[i - 1] == frames[i - 1]);
        }
        let cursor = spec_encode_records(frames.take(i)).len() as int;
        let rec = frame_record(frames, i);
        assert(spec_encode_records(t) == spec_encode_records(frames.take(i)) + rec);
        lemma_records_prefix(frames, i + 1, n);
        assert(frames.take(n) =~= frames);
        let payload = if i == 0 {
            frames[0]
        } else {
            spec_encode_delta(frames[i - 1], frames[i])
        };
        if i > 0 {
            lemma_delta_round_trip(frames[i - 1], frames[i]);
        }
        assert(payload.len() <= u32::MAX);
        assert(rec == record(if i == 0 { KEYFRAME } else { DELTA }, payload));
        let prefix = spec_encode_records(t);
        assert(raw.subrange(0, prefix.len() as int) == prefix);
        assert forall|j: int| 0 <= j < rec.len() implies raw[cursor + j] == rec[j] by {
            assert(raw.subrange(0, prefix.len() as int)[cursor + j] == raw[cursor + j]);
            assert(prefix[cursor + j] == rec[j]);
        }
        assert(raw[cursor] == rec[0]);
        assert(raw.subrange(cursor + 1, cursor + 5) =~= rec.subrange(1, 5));
        assert(rec.subrange(1, 5) =~= spec_u32_to_le_bytes(payload.len() as u32));
        assert(u32_at(raw, cursor + 1) == payload.len());
        let end = cursor + 5 + payload.len();
        assert(end == prefix.len());
        assert(rec.len() == 5 + payload.len());
        assert(rec.subrange(5, rec.len() as int) =~= payload);
        assert forall|j: int| 0 <= j < payload.len() implies raw[cursor + 5 + j] == payload[j] by {
            assert(rec[5 + j] == rec.subrange(5, rec.len() as int)[j]);
        }
        assert(raw.subrange(cursor + 5, end) =~= payload);
        assert(frames.take(i + 1) =~= frames.take(i).push(
            if i == 0 {
                payload
            } else {
                frames[i]
            },
        ));
        if i > 0 {
            assert(frames.take(i).last() == frames[i - 1]);
        }
        lemma_decode_from(frames, frame_size, i + 1);
    }
}

/// Reading back the records of a list of frames of one size gives back
/// the frames, wherever each record's payload fits the 32-bit length field
/// that comes before it (past that, the length written is cut short).
pub proof fn lemma_records_round_trip(frames: Seq<Seq<u8>>, frame_size: usize)
    requires
        1 <= frames.len() <= 65535,
        frame_size <= u32::MAX,
        forall|k: int| 0 <= k < frames.len() ==> (#[trigger] frames[k]).len() == frame_size,
        forall|k: int|
            1 <= k < frames.len() ==> #[trigger] spec_encode_delta(frames[k - 1], frames[k]).len()
                <= u32::MAX,
    ensures
        spec_decode_records(spec_encode_records(frames), frames.len() as u16, frame_size) == Ok::<
            Seq<Seq<u8>>,
            Error,
        >(frames),
{
    assert(frames.take(0) =~= Seq::<Seq<u8>>::empty());
    lemma_decode_from(frames, frame_size as int, 0);
}

} // verus!
