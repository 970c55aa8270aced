//! Delta frames: the XOR runs that turn one packed frame into the next.
use vstd::prelude::*;
use vstd::bytes::*;
use crate::format::{Error, read_u16, read_u32, u16_at, u32_at};

verus! {

/// The longest run that one delta record may carry.
pub const MAX_RUN: usize = 65535;

/// The XOR of `prev` and `cur` over `[start, end)`.
pub open spec fn xor_bytes(prev: Seq<u8>, cur: Seq<u8>, start: int, end: int) -> Seq<u8> {
    Seq::new((end - start) as nat, |i: int| prev[start + i] ^ cur[start + i])
}

/// Where a run that starts at `start` ends, scanning on from `p`: at the end
/// of `cur`, at the first byte that did not change, or after `MAX_RUN` bytes.
pub open spec fn run_end(prev: Seq<u8>, cur: Seq<u8>, start: int, p: int) -> int
    decreases cur.len() - p,
{
    if 0 <= start <= p < cur.len() && prev[p] != cur[p] && p - start < MAX_RUN {
        run_end(prev, cur, start, p + 1)
    } else {
        p
    }
}

pub proof fn lemma_run_end(prev: Seq<u8>, cur: Seq<u8>, start: int, p: int)
    requires
        0 <= start <= p <= cur.len(),
        p - start <= MAX_RUN,
    ensures
        p <= run_end(prev, cur, start, p) <= cur.len(),
        run_end(prev, cur, start, p) - start <= MAX_RUN,
        forall|q: int| p <= q < run_end(prev, cur, start, p) ==> prev[q] != cur[q],
        (p < cur.len() && prev[p] != cur[p] && p - start < MAX_RUN) ==> p < run_end(
            prev,
            cur,
            start,
            p,
        ),
    decreases cur.len() - p,
{
    if p < cur.len() && prev[p] != cur[p] && p - start < MAX_RUN {
        lemma_run_end(prev, cur, start, p + 1);
    }
}

/// The runs of changed bytes of `cur` against `prev` from position `p` on:
/// each is the offset where it starts and the XOR bytes that it carries.
pub open spec fn delta_runs(prev: Seq<u8>, cur: Seq<u8>, p: int) -> Seq<(int, Seq<u8>)>
    decreases cur.len() - p,
{
    if p < 0 || p >= cur.len() {
        seq![]
    } else if prev[p] == cur[p] {
        delta_runs(prev, cur, p + 1)
    } else {
        let e = run_end(prev, cur, p, p);
        proof {
            lemma_run_end(prev, cur, p, p);
        }
        seq![(p, xor_bytes(prev, cur, p, e))] + delta_runs(prev, cur, e)
    }
}

/// The bytes of one run in a delta payload.
pub open spec fn run_record(run: (int, Seq<u8>)) -> Seq<u8> {
    spec_u32_to_le_bytes(run.0 as u32) + spec_u16_to_le_bytes(run.1.len() as u16) + run.1
}

/// The bytes of a list of runs, one after the other.
pub open spec fn runs_bytes(runs: Seq<(int, Seq<u8>)>) -> Seq<u8>
    decreases runs.len(),
{
    if runs.len() == 0 {
        seq![]
    } else {
        runs_bytes(runs.drop_last()) + run_record(runs.last())
    }
}

/// The delta payload that turns `prev` into `cur`: the number of runs, then
/// the runs.
pub open spec fn spec_encode_delta(prev: Seq<u8>, cur: Seq<u8>) -> Seq<u8> {
    let runs = delta_runs(prev, cur, 0);
    spec_u32_to_le_bytes(runs.len() as u32) + runs_bytes(runs)
}

/// `frame` with `bytes` XORed in from `offset` on.
pub open spec fn xor_at(frame: Seq<u8>, offset: int, bytes: Seq<u8>) -> Seq<u8> {
    Seq::new(
        frame.len(),
        |i: int|
            if offset <= i < offset + bytes.len() {
                frame[i] ^ bytes[i - offset]
            } else {
                frame[i]
            },
    )
}

/// Applies the `remaining` runs of `payload` that start at `cursor` to
/// `frame`; `None` where a run is cut short or reaches past the frame.
pub open spec fn apply_runs_from(frame: Seq<u8>, payload: Seq<u8>, cursor: int, remaining: nat) -> Option<
    Seq<u8>,
>
    decreases remaining,
{
    if remaining == 0 {
        Some(frame)
    } else if cursor + 6 > payload.len() {
        None
    } else {
        let offset = u32_at(payload, cursor) as int;
        let length = u16_at(payload, cursor + 4) as int;
        let start = cursor + 6;
        if start + length > payload.len() || offset + length > frame.len() {
            None
        } else {
            apply_runs_from(
                xor_at(frame, offset, payload.subrange(start, start + length)),
                payload,
                start + length,
                (remaining - 1) as nat,
            )
        }
    }
}

/// Applying runs keeps the frame's length.
pub(crate) proof fn lemma_apply_runs_len(frame: Seq<u8>, payload: Seq<u8>, cursor: int, remaining: nat)
    ensures
        apply_runs_from(frame, payload, cursor, remaining) matches Some(g) ==> g.len() == frame.len(),
    decreases remaining,
{
    if remaining > 0 && cursor + 6 <= payload.len() {
        let offset = u32_at(payload, cursor) as int;
        let length = u16_at(payload, cursor + 4) as int;
        let start = cursor + 6;
        if start + length <= payload.len() && offset + length <= frame.len() {
            lemma_apply_runs_len(
                xor_at(frame, offset, payload.subrange(start, start + length)),
                payload,
                start + length,
                (remaining - 1) as nat,
            );
        }
    }
}

/// The frame that a delta payload makes of `frame`; `None` when the payload
/// is cut short or a run reaches past the frame.
pub open spec fn spec_apply_delta(frame: Seq<u8>, payload: Seq<u8>) -> Option<Seq<u8>> {
    if payload.len() < 4 {
        None
    } else {
        apply_runs_from(frame, payload, 4, u32_at(payload, 0) as nat)
    }
}

/// What applying the `remaining` runs of `payload` from `cursor` leaves in
/// `frame`: each run XORed in, in order, up to the first run that is cut
/// short or reaches past the frame; that run and those after it change
/// nothing.
pub open spec fn runs_applied_from(frame: Seq<u8>, payload: Seq<u8>, cursor: int, remaining: nat) -> Seq<
    u8,
>
    decreases remaining,
{
    if remaining == 0 || cursor + 6 > payload.len() {
        frame
    } else {
        let offset = u32_at(payload, cursor) as int;
        let length = u16_at(payload, cursor + 4) as int;
        let start = cursor + 6;
        if start + length > payload.len() || offset + length > frame.len() {
            frame
        } else {
            runs_applied_from(
                xor_at(frame, offset, payload.subrange(start, start + length)),
                payload,
                start + length,
                (remaining - 1) as nat,
            )
        }
    }
}

/// What a delta payload leaves in `frame`, whether or not it applies whole.
pub open spec fn delta_effect(frame: Seq<u8>, payload: Seq<u8>) -> Seq<u8> {
    if payload.len() < 4 {
        frame
    } else {
        runs_applied_from(frame, payload, 4, u32_at(payload, 0) as nat)
    }
}

pub open spec fn runs_view(runs: Seq<(usize, Vec<u8>)>) -> Seq<(int, Seq<u8>)> {
    runs.map_values(|r: (usize, Vec<u8>)| (r.0 as int, r.1@))
}

/// The XOR runs that turn `previous` into `current`.
pub fn encode_delta(previous: &[u8], current: &[u8]) -> (payload: Vec<u8>)
    requires
        current@.len() <= previous@.len(),
    ensures
        payload@ == spec_encode_delta(previous@, current@),
{
    let ghost prev = previous@;
    let ghost cur = current@;
    let mut runs: Vec<(usize, Vec<u8>)> = Vec::new();
    let mut cursor: usize = 0;
    while cursor < current.len()
        invariant
            cursor <= cur.len() <= prev.len(),
            prev == previous@,
            cur == current@,
            runs_view(runs@) + delta_runs(prev, cur, cursor as int) == delta_runs(prev, cur, 0),
        decreases current.len() - cursor,
    {
        if previous[cursor] == current[cursor] {
            cursor += 1;
            continue;
        }
        let start = cursor;
        let mut bytes: Vec<u8> = Vec::new();
        while cursor < current.len() && previous[cursor] != current[cursor] && bytes.len()
            < MAX_RUN
            invariant
                start <= cursor <= cur.len() <= prev.len(),
                start < cur.len(),
                prev[start as int] != cur[start as int],
                prev == previous@,
                cur == current@,
                bytes@ == xor_bytes(prev, cur, start as int, cursor as int),
                bytes@.len() == cursor - start,
                run_end(prev, cur, start as int, cursor as int) == run_end(
                    prev,
                    cur,
                    start as int,
                    start as int,
                ),
            decreases current.len() - cursor,
        {
            bytes.push(previous[cursor] ^ current[cursor]);
            cursor += 1;
            assert(bytes@ =~= xor_bytes(prev, cur, start as int, cursor as int));
        }
        let ghost old_runs = runs@;
        runs.push((start, bytes));
        proof {
            let r = (start as int, xor_bytes(prev, cur, start as int, cursor as int));
            assert(runs_view(runs@) =~= runs_view(old_runs).push(r));
            assert(delta_runs(prev, cur, start as int) == seq![r] + delta_runs(
                prev,
                cur,
                cursor as int,
            ));
            assert(runs_view(old_runs) + (seq![r] + delta_runs(prev, cur, cursor as int))
                =~= runs_view(old_runs).push(r) + delta_runs(prev, cur, cursor as int));
        }
    }
    let ghost all = runs_view(runs@);
    proof {
        assert(all + delta_runs(prev, cur, cursor as int) =~= all);
    }
    let mut payload: Vec<u8> = Vec::new();
    let count = u32_to_le_bytes(runs.len() as u32);
    payload.extend_from_slice(count.as_slice());
    let mut i: usize = 0;
    while i < runs.len()
        invariant
            i <= runs@.len(),
            all == runs_view(runs@),
            all == delta_runs(prev, cur, 0),
            payload@ == spec_u32_to_le_bytes(runs@.len() as u32) + runs_bytes(all.take(i as int)),
        decreases runs.len() - i,
    {
        let offset = runs[i].0;
        let offset_bytes = u32_to_le_bytes(offset as u32);
        let length_bytes = u16_to_le_bytes(runs[i].1.len() as u16);
        let ghost before = payload@;
        payload.extend_from_slice(offset_bytes.as_slice());
        payload.extend_from_slice(length_bytes.as_slice());
        payload.extend_from_slice(runs[i].1.as_slice());
        proof {
            assert(all.take(i + 1).drop_last() =~= all.take(i as int));
            assert(all.take(i + 1).last() == all[i as int]);
            assert(payload@ =~= spec_u32_to_le_bytes(runs@.len() as u32) + runs_bytes(
                all.take(i + 1),
            ));
        }
        i += 1;
    }
    proof {
        assert(all.take(i as int) =~= all);
    }
    payload
}

/// Applies a delta payload to `frame` in place.
pub fn apply_delta(frame: &mut Vec<u8>, payload: &[u8]) -> (res: Result<(), Error>)
    ensures
        final(frame)@.len() == old(frame)@.len(),
        final(frame)@ == delta_effect(old(frame)@, payload@),
        match spec_apply_delta(old(frame)@, payload@) {
            Some(f) => res is Ok && final(frame)@ == f,
            None => res matches Err(Error::Truncated),
        },
{
    let run_count = match read_u32(payload, 0) {
        Ok(v) => v,
        Err(e) => return Err(e),
    };
    let ghost target = spec_apply_delta(frame@, payload@);
    let ghost effect = delta_effect(frame@, payload@);
    let ghost n = frame@.len();
    let mut cursor: usize = 4;
    let mut done: u32 = 0;
    while done < run_count
        invariant
            4 <= cursor <= payload@.len(),
            done <= run_count,
            frame@.len() == n,
            n == old(frame)@.len(),
            target == spec_apply_delta(old(frame)@, payload@),
            target == apply_runs_from(frame@, payload@, cursor as int, (run_count - done) as nat),
            effect == delta_effect(old(frame)@, payload@),
            effect == runs_applied_from(frame@, payload@, cursor as int, (run_count - done) as nat),
        decreases run_count - done,
    {
        let offset = match read_u32(payload, cursor) {
            Ok(v) => v as usize,
            Err(e) => return Err(e),
        };
        assert(cursor + 4 <= payload.len());
        let length = match read_u16(payload, cursor + 4) {
            Ok(v) => v as usize,
            Err(e) => return Err(e),
        };
        assert(cursor + 6 <= payload.len());
        cursor += 6;
        let end = match cursor.checked_add(length) {
            Some(v) => v,
            None => return Err(Error::Truncated),
        };
        let frame_len = frame.len();
        let frame_end = match offset.checked_add(length) {
            Some(v) => v,
            None => {
                assert(offset + length > frame_len);
                return Err(Error::Truncated);
            },
        };
        if end > payload.len() || frame_end > frame.len() {
            return Err(Error::Truncated);
        }
        let ghost before = frame@;
        let ghost delta = payload@.subrange(cursor as int, end as int);
        let mut j: usize = 0;
        while j < length
            invariant
                j <= length,
                offset + length <= before.len(),
                frame@.len() == before.len(),
                frame.len() == before.len(),
                cursor + length <= payload.len(),
                cursor + length == end <= payload@.len(),
                delta == payload@.subrange(cursor as int, end as int),
                frame@ == xor_at(before, offset as int, delta.take(j as int)),
            decreases length - j,
        {
            let value = frame[offset + j] ^ payload[cursor + j];
            frame.set(offset + j, value);
            j += 1;
            assert(frame@ =~= xor_at(before, offset as int, delta.take(j as int)));
        }
        assert(delta.take(j as int) =~= delta);
        cursor = end;
        done += 1;
    }
    Ok(())
}

/// `frame` with each run XORed in, in order.
pub open spec fn apply_runs(frame: Seq<u8>, runs: Seq<(int, Seq<u8>)>) -> Seq<u8>
    decreases runs.len(),
{
    if runs.len() == 0 {
        frame
    } else {
        apply_runs(xor_at(frame, runs[0].0, runs[0].1), runs.drop_first())
    }
}

/// Every run lies inside a frame of `n` bytes and fits the record's fields.
pub open spec fn runs_fit(runs: Seq<(int, Seq<u8>)>, n: int) -> bool {
    forall|k: int|
        0 <= k < runs.len() ==> {
            &&& 0 <= #[trigger] runs[k].0
            &&& runs[k].0 + runs[k].1.len() <= n
            &&& runs[k].0 <= u32::MAX
            &&& runs[k].1.len() <= MAX_RUN
        }
}

proof fn lemma_runs_bytes_front(runs: Seq<(int, Seq<u8>)>)
    requires
        runs.len() > 0,
    ensures
        runs_bytes(runs) == run_record(runs[0]) + runs_bytes(runs.drop_first()),
    decreases runs.len(),
{
    if runs.len() == 1 {
        assert(runs.drop_last() =~= Seq::<(int, Seq<u8>)>::empty());
        assert(runs.drop_first() =~= Seq::<(int, Seq<u8>)>::empty());
        assert(runs_bytes(runs.drop_first()) =~= Seq::<u8>::empty());
        assert(runs_bytes(runs) =~= run_record(runs[0]) + runs_bytes(runs.drop_first()));
    } else {
        lemma_runs_bytes_front(runs.drop_last());
        assert(runs.drop_last().drop_first() =~= runs.drop_first().drop_last());
        assert(runs.drop_first().last() == runs.last());
        assert(runs.drop_last()[0] == runs[0]);
        assert(runs_bytes(runs) =~= run_record(runs[0]) + runs_bytes(runs.drop_first()));
    }
}

proof fn lemma_xor_cancel(a: u8, b: u8)
    ensures
        a ^ (a ^ b) == b,
{
    assert(a ^ (a ^ b) == b) by (bit_vector);
}

/// Parsing the bytes of fitting runs and applying them applies the runs.
proof fn lemma_apply_serialized(
    frame: Seq<u8>,
    payload: Seq<u8>,
    cursor: int,
    runs: Seq<(int, Seq<u8>)>,
)
    requires
        0 <= cursor,
        runs_fit(runs, frame.len() as int),
        cursor + runs_bytes(runs).len() <= payload.len(),
        payload.subrange(cursor, cursor + runs_bytes(runs).len()) == runs_bytes(runs),
    ensures
        apply_runs_from(frame, payload, cursor, runs.len()) == Some(apply_runs(frame, runs)),
    decreases runs.len(),
{
    if runs.len() > 0 {
        lemma_runs_bytes_front(runs);
        lemma_auto_spec_u32_to_from_le_bytes();
        lemma_auto_spec_u16_to_from_le_bytes();
        let r = runs[0];
        let rest = runs.drop_first();
        let rb = runs_bytes(runs);
        let len = r.1.len() as int;
        assert(0 <= r.0 && r.0 + len <= frame.len() && r.0 <= u32::MAX && len <= MAX_RUN);
        let header = spec_u32_to_le_bytes(r.0 as u32);
        let lenb = spec_u16_to_le_bytes(r.1.len() as u16);
        assert(rb == header + lenb + r.1 + runs_bytes(rest));
        assert(payload.subrange(cursor, cursor + 4) =~= rb.subrange(0, 4));
        assert(rb.subrange(0, 4) =~= header);
        assert(u32_at(payload, cursor) == r.0);
        assert(payload.subrange(cursor + 4, cursor + 6) =~= rb.subrange(4, 6));
        assert(rb.subrange(4, 6) =~= lenb);
        assert(u16_at(payload, cursor + 4) == len);
        let start = cursor + 6;
        assert(payload.subrange(start, start + len) =~= rb.subrange(6, 6 + len));
        assert(rb.subrange(6, 6 + len) =~= r.1);
        let next = xor_at(frame, r.0, r.1);
        assert(runs_fit(rest, next.len() as int)) by {
            assert forall|k: int| 0 <= k < rest.len() implies {
                &&& 0 <= #[trigger] rest[k].0
                &&& rest[k].0 + rest[k].1.len() <= next.len()
                &&& rest[k].0 <= u32::MAX
                &&& rest[k].1.len() <= MAX_RUN
            } by {
                assert(rest[k] == runs[k + 1]);
            }
        }
        let rrb = runs_bytes(rest);
        assert(payload.subrange(start + len, start + len + rrb.len()) =~= rb.subrange(
            6 + len,
            rb.len() as int,
        ));
        assert(rb.subrange(6 + len, rb.len() as int) =~= rrb);
        lemma_apply_serialized(next, payload, start + len, rest);
    }
}

proof fn lemma_delta_runs_fit(prev: Seq<u8>, cur: Seq<u8>, p: int)
    requires
        0 <= p <= cur.len() <= u32::MAX,
    ensures
        runs_fit(delta_runs(prev, cur, p), cur.len() as int),
        delta_runs(prev, cur, p).len() <= cur.len() - p,
        runs_bytes(delta_runs(prev, cur, p)).len() <= 7 * (cur.len() - p),
        forall|k: int|
            0 <= k < delta_runs(prev, cur, p).len() ==> p <= #[trigger] delta_runs(
                prev,
                cur,
                p,
            )[k].0,
    decreases cur.len() - p,
{
    let runs = delta_runs(prev, cur, p);
    if p == cur.len() {
        assert(runs =~= Seq::<(int, Seq<u8>)>::empty());
    } else if prev[p] == cur[p] {
        lemma_delta_runs_fit(prev, cur, p + 1);
    } else {
        let e = run_end(prev, cur, p, p);
        lemma_run_end(prev, cur, p, p);
        lemma_delta_runs_fit(prev, cur, e);
        let r = (p, xor_bytes(prev, cur, p, e));
        let rest = delta_runs(prev, cur, e);
        assert(runs == seq![r] + rest);
        assert(runs.drop_first() =~= rest);
        lemma_runs_bytes_front(runs);
        lemma_auto_spec_u32_to_from_le_bytes();
        lemma_auto_spec_u16_to_from_le_bytes();
        assert(run_record(r).len() == 6 + (e - p));
        assert(runs_fit(runs, cur.len() as int)) by {
            assert forall|k: int| 0 <= k < runs.len() implies {
                &&& 0 <= #[trigger] runs[k].0
                &&& runs[k].0 + runs[k].1.len() <= cur.len()
                &&& runs[k].0 <= u32::MAX
                &&& runs[k].1.len() <= MAX_RUN
            } by {
                if k > 0 {
                    assert(runs[k] == rest[k - 1]);
                }
            }
        }
        assert forall|k: int| 0 <= k < runs.len() implies p <= #[trigger] runs[k].0 by {
            if k > 0 {
                assert(runs[k] == rest[k - 1]);
            }
        }
    }
}

proof fn lemma_delta_runs_apply(prev: Seq<u8>, cur: Seq<u8>, p: int, f: Seq<u8>)
    requires
        0 <= p <= cur.len(),
        prev.len() == cur.len(),
        f.len() == cur.len(),
        forall|i: int| 0 <= i < p ==> f[i] == cur[i],
        forall|i: int| p <= i < cur.len() ==> f[i] == prev[i],
    ensures
        apply_runs(f, delta_runs(prev, cur, p)) == cur,
    decreases cur.len() - p,
{
    if p == cur.len() {
        assert(f =~= cur);
    } else if prev[p] == cur[p] {
        lemma_delta_runs_apply(prev, cur, p + 1, f);
    } else {
        let e = run_end(prev, cur, p, p);
        lemma_run_end(prev, cur, p, p);
        let r = (p, xor_bytes(prev, cur, p, e));
        let runs = delta_runs(prev, cur, p);
        assert(runs == seq![r] + delta_runs(prev, cur, e));
        assert(runs.drop_first() =~= delta_runs(prev, cur, e));
        let f2 = xor_at(f, p, r.1);
        assert forall|i: int| 0 <= i < e implies f2[i] == cur[i] by {
            if p <= i {
                lemma_xor_cancel(prev[i], cur[i]);
            }
        }
        lemma_delta_runs_apply(prev, cur, e, f2);
    }
}

/// Applying the delta from `prev` to `cur` to `prev` gives back `cur`, and
/// the delta takes at most seven bytes per frame byte, beside its count.
pub proof fn lemma_delta_round_trip(prev: Seq<u8>, cur: Seq<u8>)
    requires
        prev.len() == cur.len(),
        cur.len() <= u32::MAX,
    ensures
        spec_apply_delta(prev, spec_encode_delta(prev, cur)) == Some(cur),
        spec_encode_delta(prev, cur).len() <= 4 + 7 * cur.len(),
{
    lemma_auto_spec_u32_to_from_le_bytes();
    let runs = delta_runs(prev, cur, 0);
    lemma_delta_runs_fit(prev, cur, 0);
    let payload = spec_encode_delta(prev, cur);
    let rb = runs_bytes(runs);
    assert(payload.subrange(0, 4) =~= spec_u32_to_le_bytes(runs.len() as u32));
    assert(u32_at(payload, 0) == runs.len());
    assert(payload.subrange(4, 4 + rb.len() as int) =~= rb);
    lemma_apply_serialized(prev, payload, 4, runs);
    lemma_delta_runs_apply(prev, cur, 0, prev);
}

} // verus!
