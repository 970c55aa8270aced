//! Row patches: the length-prefixed messages that carry the rows of a
//! rendered frame that changed since the frame before.
use vstd::prelude::*;
use vstd::bytes::*;
use vstd::utf8::encode_utf8;

verus! {

/// Message type of a patch of Braille rows.
pub const FRAME_PATCH: u8 = 1;
/// Message type of a patch of mask rows.
pub const MASK_PATCH: u8 = 2;

/// Row `row` of `current` is new or differs from the same row before.
pub open spec fn row_changed(previous: Seq<Seq<char>>, current: Seq<Seq<char>>, row: int) -> bool {
    row >= previous.len() || previous[row] != current[row]
}

/// The rows below `n` that changed, in order.
pub open spec fn changed_rows(previous: Seq<Seq<char>>, current: Seq<Seq<char>>, n: int) -> Seq<int>
    decreases n,
{
    if n <= 0 {
        seq![]
    } else if row_changed(previous, current, n - 1) {
        changed_rows(previous, current, n - 1).push(n - 1)
    } else {
        changed_rows(previous, current, n - 1)
    }
}

/// One changed row in a patch: its number, the length of its UTF-8 bytes,
/// those bytes.
pub open spec fn row_entry(current: Seq<Seq<char>>, row: int) -> Seq<u8> {
    spec_u16_to_le_bytes(row as u16) + spec_u32_to_le_bytes(encode_utf8(current[row]).len() as u32)
        + encode_utf8(current[row])
}

/// The entries of the given rows, one after the other.
pub open spec fn row_entries(current: Seq<Seq<char>>, rows: Seq<int>) -> Seq<u8>
    decreases rows.len(),
{
    if rows.len() == 0 {
        seq![]
    } else {
        row_entries(current, rows.drop_last()) + row_entry(current, rows.last())
    }
}

/// The size of a patch after its length prefix: its type, frame index and
/// row count, then six bytes and the bytes of each row.
pub open spec fn payload_size(current: Seq<Seq<char>>, rows: Seq<int>) -> int
    decreases rows.len(),
{
    if rows.len() == 0 {
        7int
    } else {
        payload_size(current, rows.drop_last()) + 2 + 4 + encode_utf8(current[rows.last()]).len()
    }
}

/// The patch that turns the rows `previous` into the rows `current`.
pub open spec fn spec_patch(
    message_type: u8,
    frame_index: u32,
    previous: Seq<Seq<char>>,
    current: Seq<Seq<char>>,
) -> Seq<u8> {
    let rows = changed_rows(previous, current, current.len() as int);
    spec_u32_to_le_bytes(payload_size(current, rows) as u32) + seq![message_type]
        + spec_u32_to_le_bytes(frame_index) + spec_u16_to_le_bytes(rows.len() as u16)
        + row_entries(current, rows)
}

/// The characters of a list of rows.
pub open spec fn rows_view(rows: Seq<String>) -> Seq<Seq<char>> {
    rows.map_values(|r: String| r@)
}

proof fn lemma_changed_rows_bounded(previous: Seq<Seq<char>>, current: Seq<Seq<char>>, n: int)
    requires
        0 <= n,
    ensures
        changed_rows(previous, current, n).len() <= n,
        forall|k: int|
            0 <= k < changed_rows(previous, current, n).len() ==> 0 <= #[trigger] changed_rows(
                previous,
                current,
                n,
            )[k] < n,
    decreases n,
{
    if n > 0 {
        lemma_changed_rows_bounded(previous, current, n - 1);
    }
}

/// A patch names exactly the rows that are new or changed, each once, in
/// increasing order: a row is sent when there was no row at its place
/// before or the characters of the row there differ anywhere (not only in
/// length or at the end); a row that stayed the same is never sent.
pub proof fn lemma_changed_rows_exact(previous: Seq<Seq<char>>, current: Seq<Seq<char>>, n: int)
    requires
        0 <= n,
    ensures
        forall|r: int|
            0 <= r < n ==> (#[trigger] changed_rows(previous, current, n).contains(r) <==> (r >= previous.len()
                || previous[r] != current[r])),
        forall|j: int, k: int|
            0 <= j < k < changed_rows(previous, current, n).len() ==> #[trigger] changed_rows(
                previous,
                current,
                n,
            )[j] < #[trigger] changed_rows(previous, current, n)[k],
    decreases n,
{
    lemma_changed_rows_bounded(previous, current, n);
    if n > 0 {
        let before = changed_rows(previous, current, n - 1);
        lemma_changed_rows_exact(previous, current, n - 1);
        lemma_changed_rows_bounded(previous, current, n - 1);
        let rows = changed_rows(previous, current, n);
        assert forall|r: int| 0 <= r < n implies (rows.contains(r) <==> row_changed(
            previous,
            current,
            r,
        )) by {
            if r < n - 1 {
                if row_changed(previous, current, n - 1) {
                    assert(rows == before.push(n - 1));
                    if rows.contains(r) {
                        let k = choose|k: int| 0 <= k < rows.len() && rows[k] == r;
                        if k < before.len() {
                            assert(before[k] == r);
                        }
                    }
                    if before.contains(r) {
                        let k = choose|k: int| 0 <= k < before.len() && before[k] == r;
                        assert(rows[k] == r);
                    }
                }
            } else {
                if row_changed(previous, current, n - 1) {
                    assert(rows[rows.len() - 1] == n - 1);
                } else {
                    assert(!before.contains(n - 1));
                }
            }
        }
    }
}

proof fn lemma_payload_size_grows(current: Seq<Seq<char>>, rows: Seq<int>, k: int)
    requires
        0 <= k <= rows.len(),
    ensures
        payload_size(current, rows.take(k)) <= payload_size(current, rows),
    decreases rows.len() - k,
{
    if k < rows.len() {
        lemma_payload_size_grows(current, rows, k + 1);
        assert(rows.take(k + 1).drop_last() =~= rows.take(k));
    } else {
        assert(rows.take(k) =~= rows);
    }
}

/// Appends to `output` the patch that turns the rows `previous` into the
/// rows `current`: only rows that are new or changed are sent.
pub fn write_patch(
    output: &mut Vec<u8>,
    message_type: u8,
    frame_index: u32,
    previous: &[String],
    current: &[String],
)
    requires
        payload_size(
            rows_view(current@),
            changed_rows(rows_view(previous@), rows_view(current@), current@.len() as int),
        ) <= usize::MAX,
    ensures
        final(output)@ == old(output)@ + spec_patch(
            message_type,
            frame_index,
            rows_view(previous@),
            rows_view(current@),
        ),
{
    let ghost prev = rows_view(previous@);
    let ghost cur = rows_view(current@);
    let mut changed: Vec<usize> = Vec::new();
    let mut row: usize = 0;
    while row < current.len()
        invariant
            row <= current@.len(),
            prev == rows_view(previous@),
            cur == rows_view(current@),
            changed@.map_values(|r: usize| r as int) == changed_rows(prev, cur, row as int),
        decreases current.len() - row,
    {
        let differs = if row >= previous.len() {
            true
        } else {
            let same = previous[row] == current[row];
            proof {
                assert(prev[row as int] == previous@[row as int]@);
                assert(cur[row as int] == current@[row as int]@);
            }
            !same
        };
        let ghost before = changed@;
        if differs {
            changed.push(row);
        }
        assert(changed@.map_values(|r: usize| r as int) =~= changed_rows(prev, cur, row + 1));
        row += 1;
    }
    let ghost rows = changed_rows(prev, cur, cur.len() as int);
    proof {
        lemma_changed_rows_bounded(prev, cur, cur.len() as int);
        assert forall|j: int| 0 <= j <= rows.len() implies payload_size(cur, #[trigger] rows.take(j))
            <= payload_size(cur, rows) by {
            lemma_payload_size_grows(cur, rows, j);
        }
    }
    let mut size: usize = 1 + 4 + 2;
    let mut k: usize = 0;
    while k < changed.len()
        invariant
            k <= changed@.len(),
            cur == rows_view(current@),
            rows == changed@.map_values(|r: usize| r as int),
            forall|j: int| 0 <= j < rows.len() ==> 0 <= #[trigger] rows[j] < cur.len(),
            size == payload_size(cur, rows.take(k as int)),
            forall|j: int| 0 <= j <= rows.len() ==> payload_size(cur, #[trigger] rows.take(j))
                <= payload_size(cur, rows),
            payload_size(cur, rows) <= usize::MAX,
        decreases changed.len() - k,
    {
        assert(rows[k as int] == changed@[k as int] as int);
        assert(cur.len() == current@.len());
        let line_len = current[changed[k]].as_str().len();
        proof {
            assert(rows.take(k + 1).drop_last() =~= rows.take(k as int));
            assert(rows.take(k + 1).last() == rows[k as int]);
            assert(cur[rows[k as int]] == current@[changed@[k as int] as int]@);
            assert(payload_size(cur, rows.take(k + 1)) <= payload_size(cur, rows));
        }
        size = size + 2 + 4 + line_len;
        k += 1;
    }
    assert(rows.take(k as int) =~= rows);
    let ghost start = output@;
    output.extend_from_slice(u32_to_le_bytes(size as u32).as_slice());
    output.push(message_type);
    output.extend_from_slice(u32_to_le_bytes(frame_index).as_slice());
    output.extend_from_slice(u16_to_le_bytes(changed.len() as u16).as_slice());
    let ghost head = output@;
    assert(head =~= start + (spec_u32_to_le_bytes(payload_size(cur, rows) as u32) + seq![
        message_type,
    ] + spec_u32_to_le_bytes(frame_index) + spec_u16_to_le_bytes(rows.len() as u16)));
    let mut k: usize = 0;
    while k < changed.len()
        invariant
            k <= changed@.len(),
            cur == rows_view(current@),
            rows == changed@.map_values(|r: usize| r as int),
            forall|j: int| 0 <= j < rows.len() ==> 0 <= #[trigger] rows[j] < cur.len(),
            output@ == head + row_entries(cur, rows.take(k as int)),
        decreases changed.len() - k,
    {
        assert(rows[k as int] == changed@[k as int] as int);
        assert(cur.len() == current@.len());
        let line = current[changed[k]].as_str().as_bytes();
        output.extend_from_slice(u16_to_le_bytes(changed[k] as u16).as_slice());
        output.extend_from_slice(u32_to_le_bytes(line.len() as u32).as_slice());
        output.extend_from_slice(line);
        proof {
            assert(rows.take(k + 1).drop_last() =~= rows.take(k as int));
            assert(rows.take(k + 1).last() == rows[k as int]);
            assert(encode_utf8(cur[rows[k as int]]) == line@);
            assert(output@ =~= head + row_entries(cur, rows.take(k + 1)));
        }
        k += 1;
    }
    assert(rows.take(k as int) =~= rows);
    assert(final(output)@ =~= start + spec_patch(message_type, frame_index, prev, cur));
}

} // verus!
