//! Chunks: how a program is cut into instructions, and how these are packed.

use vstd::prelude::*;

use crate::evmgif;

verus! {

/// What ascending offsets are: each greater than those before, and none beyond the end.
pub proof fn offsets_ascend(starts: Seq<usize>, len: int)
    ensures
        evmgif::ascending(starts, len) <==> (forall|i: int, j: int|
            0 <= i < j < starts.len() ==> #[trigger] starts[i] < #[trigger] starts[j]) && (forall|
            i: int,
        |
            0 <= i < starts.len() ==> #[trigger] starts[i] <= len),
{
}

/// How far the next instruction is from one with this opcode: behind a push of `n` bytes, whose
/// opcode is `0x5f + n`, it is `n + 1` bytes on, and behind all others it is the next byte.
pub open spec fn stride(code: u8) -> int {
    if 0x60 <= code <= 0x7f {
        code - 0x5f + 1
    } else {
        1
    }
}

proof fn starts_step(bytes: Seq<u8>, from: int, i: int)
    requires
        0 <= from < bytes.len() <= usize::MAX,
        0 <= i < evmgif::starts_from(bytes, from).len(),
    ensures
        evmgif::starts_from(bytes, from)[0] == from,
        from <= evmgif::starts_from(bytes, from)[i] < bytes.len(),
        ({
            let starts = evmgif::starts_from(bytes, from);
            let next = starts[i] + stride(bytes[starts[i] as int]);
            if i + 1 < starts.len() {
                starts[i + 1] == next
            } else {
                next >= bytes.len()
            }
        }),
    decreases bytes.len() - from,
{
    let starts = evmgif::starts_from(bytes, from);
    let next = evmgif::next_start(bytes, from);
    let rest = evmgif::starts_from(bytes, next);
    assert(starts == seq![from as usize] + rest);
    assert(starts.len() == rest.len() + 1);
    if i > 0 {
        assert(starts[i] == rest[i - 1]);
        assert(next < bytes.len());
        starts_step(bytes, next, i - 1);
        if i + 1 < starts.len() {
            assert(starts[i + 1] == rest[i]);
        }
    } else if next < bytes.len() {
        assert(rest == seq![next as usize] + evmgif::starts_from(
            bytes,
            evmgif::next_start(bytes, next),
        ));
        assert(starts[1] == rest[0]);
    } else {
        assert(rest =~= Seq::<usize>::empty());
    }
}

/// Where the instructions of a program start: the first one at its start, each other one behind the
/// immediate of the one before, and the last one is the one that reaches to the end.
pub proof fn instructions_follow_each_other(bytes: Seq<u8>, i: int)
    requires
        bytes.len() <= usize::MAX,
    ensures
        evmgif::instruction_starts(bytes).len() == 0 <==> bytes.len() == 0,
        bytes.len() > 0 ==> evmgif::instruction_starts(bytes)[0] == 0,
        0 <= i < evmgif::instruction_starts(bytes).len() ==> {
            let starts = evmgif::instruction_starts(bytes);
            let next = starts[i] + stride(bytes[starts[i] as int]);
            &&& starts[i] < bytes.len()
            &&& if i + 1 < starts.len() {
                starts[i + 1] == next
            } else {
                next >= bytes.len()
            }
        },
{
    if bytes.len() > 0 {
        let starts = evmgif::instruction_starts(bytes);
        assert(starts == seq![0usize] + evmgif::starts_from(bytes, evmgif::next_start(bytes, 0)));
        if 0 <= i < starts.len() {
            starts_step(bytes, 0, i);
        }
    }
}

/// Where the instruction at index `i` ends, which is where the next one starts.
pub open spec fn end_of(starts: Seq<usize>, len: int, i: int) -> int {
    if i + 1 < starts.len() {
        starts[i + 1] as int
    } else {
        len
    }
}

/// Whether `header` is where the instruction at index `k` starts, which did not fit in the chunk
/// that starts at `chunk`: with it, the chunk would have had more than 253 bytes.
pub open spec fn did_not_fit(
    header: usize,
    chunk: usize,
    starts: Seq<usize>,
    len: int,
    k: int,
) -> bool {
    &&& 0 < k < starts.len()
    &&& starts[k] == header
    &&& chunk < header
    &&& end_of(starts, len, k) - chunk > 253
}

proof fn headers_start_behind_the_first(starts: Seq<usize>, len: int, count: nat)
    requires
        evmgif::ascending(starts, len),
        count <= starts.len(),
    ensures
        evmgif::headers_upto(starts, len, count).len() > 0,
        evmgif::headers_upto(starts, len, count)[0] == 1,
        count > 1 ==> evmgif::headers_upto(starts, len, count).last() <= starts[count - 1],
    decreases count,
{
    if count > 1 {
        let last = (count - 1) as nat;
        headers_start_behind_the_first(starts, len, last);
        assert(starts[0] < starts[last as int]);
        if last > 1 {
            assert(starts[last - 1] < starts[last as int]);
        }
    }
}

proof fn headers_open_where_nothing_fits(starts: Seq<usize>, len: int, count: nat, c: int)
    requires
        evmgif::ascending(starts, len),
        count <= starts.len(),
        0 < c < evmgif::headers_upto(starts, len, count).len(),
    ensures
        exists|k: int|
            k < count && #[trigger] did_not_fit(
                evmgif::headers_upto(starts, len, count)[c],
                evmgif::headers_upto(starts, len, count)[c - 1],
                starts,
                len,
                k,
            ),
    decreases count,
{
    if count > 1 {
        let last = (count - 1) as nat;
        headers_start_behind_the_first(starts, len, last);
        let before = evmgif::headers_upto(starts, len, last);
        let headers = evmgif::headers_upto(starts, len, count);
        let start = starts[last as int];
        assert(starts[0] < starts[last as int]);
        if last > 1 {
            assert(starts[last - 1] < start);
        }
        if c < before.len() {
            headers_open_where_nothing_fits(starts, len, last, c);
            let k = choose|k: int|
                k < last && #[trigger] did_not_fit(before[c], before[c - 1], starts, len, k);
            assert(headers[c] == before[c]);
            assert(headers[c - 1] == before[c - 1]);
            assert(did_not_fit(headers[c], headers[c - 1], starts, len, k));
        } else {
            assert(headers == before.push(start));
            assert(headers[c - 1] == before.last());
            assert(did_not_fit(headers[c], headers[c - 1], starts, len, last as int));
        }
    }
}

/// Where chunks start, for instructions that start at `starts`: the first one behind the leading
/// instruction, and each other one at the instruction that did not fit in the one before.
pub proof fn chunks_start_where_nothing_fits(starts: Seq<usize>, len: int, c: int)
    requires
        evmgif::ascending(starts, len),
    ensures
        evmgif::chunk_headers(starts, len).len() > 0,
        evmgif::chunk_headers(starts, len)[0] == 1,
        0 < c < evmgif::chunk_headers(starts, len).len() ==> exists|k: int| #[trigger]
            did_not_fit(
                evmgif::chunk_headers(starts, len)[c],
                evmgif::chunk_headers(starts, len)[c - 1],
                starts,
                len,
                k,
            ),
{
    headers_start_behind_the_first(starts, len, starts.len());
    if 0 < c < evmgif::chunk_headers(starts, len).len() {
        headers_open_where_nothing_fits(starts, len, starts.len(), c);
    }
}

proof fn chunks_hold_what_fits(starts: Seq<usize>, len: int, count: nat, c: int, i: int)
    requires
        evmgif::ascending(starts, len),
        count <= starts.len(),
        0 <= c < evmgif::headers_upto(starts, len, count).len(),
        0 < i < count,
        evmgif::headers_upto(starts, len, count)[c] < starts[i],
        c + 1 < evmgif::headers_upto(starts, len, count).len() ==> starts[i]
            < evmgif::headers_upto(starts, len, count)[c + 1],
    ensures
        end_of(starts, len, i) - evmgif::headers_upto(starts, len, count)[c] <= 253,
    decreases count,
{
    let headers = evmgif::headers_upto(starts, len, count);
    let last = (count - 1) as nat;
    let before = evmgif::headers_upto(starts, len, last);
    headers_start_behind_the_first(starts, len, last);
    headers_start_behind_the_first(starts, len, count);
    let start = starts[last as int];
    assert(starts[0] < starts[last as int]);
    if last > 1 {
        assert(starts[last - 1] < start);
    }
    if i < last {
        assert(starts[i] < starts[last as int]);
        if c < before.len() {
            assert(headers[c] == before[c]);
            if c + 1 < before.len() {
                assert(headers[c + 1] == before[c + 1]);
            }
            chunks_hold_what_fits(starts, len, last, c, i);
        } else {
            assert(headers == before.push(start));
            assert(headers[c] == start);
        }
    } else {
        // Headers but the last one are followed by a header that is no later than the instruction.
        if c + 1 < headers.len() {
            headers_below(starts, len, count, c + 1);
        }
        assert(c == headers.len() - 1);
        assert(headers.last() == headers[c]);
        assert(headers == before);
    }
}

/// The chunks that were opened start no later than the last instruction.
proof fn headers_below(starts: Seq<usize>, len: int, count: nat, c: int)
    requires
        evmgif::ascending(starts, len),
        count <= starts.len(),
        0 < c < evmgif::headers_upto(starts, len, count).len(),
    ensures
        count > 1,
        evmgif::headers_upto(starts, len, count)[c] <= starts[count - 1],
{
    headers_open_where_nothing_fits(starts, len, count, c);
    let headers = evmgif::headers_upto(starts, len, count);
    let k = choose|k: int|
        k < count && #[trigger] did_not_fit(headers[c], headers[c - 1], starts, len, k);
    assert(starts[k] == headers[c]);
    if k < count - 1 {
        assert(starts[k] < starts[count - 1]);
    }
}

/// What a chunk holds: the instruction that it starts with, however wide, and behind it only
/// instructions that end within 253 bytes of its start.
pub proof fn chunks_hold_no_more(starts: Seq<usize>, len: int, c: int, i: int)
    requires
        evmgif::ascending(starts, len),
        0 <= c < evmgif::chunk_headers(starts, len).len(),
        0 < i < starts.len(),
        evmgif::chunk_headers(starts, len)[c] < starts[i],
        c + 1 < evmgif::chunk_headers(starts, len).len() ==> starts[i] < evmgif::chunk_headers(
            starts,
            len,
        )[c + 1],
    ensures
        end_of(starts, len, i) - evmgif::chunk_headers(starts, len)[c] <= 253,
{
    chunks_hold_what_fits(starts, len, starts.len(), c, i);
}

/// Where the bytes from `position` on stand in the output, where the chunk at index `c` is the one
/// they belong to: the leading instruction behind the nine bytes of the magic and the first size,
/// and the others behind the rest of the first header and `c` more headers of three bytes.
pub proof fn headers_push_bytes_back(headers: Seq<usize>, position: int, c: int)
    requires
        forall|i: int, j: int| 0 <= i < j < headers.len() ==> headers[i] < headers[j],
        0 <= c < headers.len(),
        c > 0 ==> headers[c] <= position,
        c + 1 < headers.len() ==> position < headers[c + 1],
    ensures
        evmgif::chunked_position(headers, 0) == 10,
        position > 0 ==> evmgif::chunked_position(headers, position) == position + 11 + 3 * c,
{
    evmgif::headers_passed_counts(headers, position, c);
    magic_is_nine_bytes();
}

/// The nine bytes that every output starts with.
pub proof fn magic_is_nine_bytes()
    ensures
        evmgif::EVMGIF_MAGIC@ == seq![0x21u8, 0xff, 0x06, 0x45, 0x56, 0x4d, 0x47, 0x49, 0x46],
        evmgif::EVMGIF_MAGIC@.len() == 9,
{
    assert(evmgif::EVMGIF_MAGIC@ =~= seq![0x21u8, 0xff, 0x06, 0x45, 0x56, 0x4d, 0x47, 0x49, 0x46]);
}

/// What is looked up in a map of positions: the start, the end and the start of every instruction,
/// each with its place in the output, and nothing else.
pub proof fn places_are_looked_up(
    starts: Seq<usize>,
    headers: Seq<usize>,
    len: usize,
    position: usize,
    c: int,
)
    requires
        forall|i: int, j: int| 0 <= i < j < headers.len() ==> headers[i] < headers[j],
        0 <= c < headers.len(),
        c > 0 ==> headers[c] <= position,
        c + 1 < headers.len() ==> position < headers[c + 1],
        position + 11 + 3 * c <= usize::MAX,
    ensures
        ({
            let map = evmgif::position_map(starts, headers, len);
            &&& map.contains_key(position) <==> position == 0 || position == len || exists|i: int|
                0 < i < starts.len() && #[trigger] starts[i] == position
            &&& map.contains_key(position) && position > 0 ==> map[position] == position + 11 + 3
                * c
            &&& map.contains_key(0) && map[0] == 10
        }),
{
    headers_push_bytes_back(headers, position as int, c);
}

/// Where the chunk at index `c` starts in the output.
pub open spec fn chunk_start(headers: Seq<usize>, c: int) -> int {
    9 + 3 * c + headers[c] - headers[0]
}

proof fn chunks_are_joined(bytes: Seq<u8>, headers: Seq<usize>, count: nat)
    requires
        evmgif::ascending(headers, bytes.len() as int),
        0 < count <= headers.len(),
    ensures
        ({
            let out = evmgif::chunked_upto(bytes, headers, count);
            let end = end_of(headers, bytes.len() as int, count - 1);
            &&& out.len() == 9 + 3 * count + end - headers[0]
            &&& out.take(9) == evmgif::EVMGIF_MAGIC@
        }),
    decreases count,
{
    magic_is_nine_bytes();
    let last = (count - 1) as nat;
    let before = evmgif::chunked_upto(bytes, headers, last);
    let out = evmgif::chunked_upto(bytes, headers, count);
    if count < headers.len() {
        assert(headers[count - 1] < headers[count as int]);
    }
    assert(headers[count - 1] <= bytes.len());
    assert(out == before + evmgif::chunk_bytes(bytes, headers, count - 1));
    if last > 0 {
        chunks_are_joined(bytes, headers, last);
        assert(out.take(9) =~= before.take(9));
    } else {
        assert(before == evmgif::EVMGIF_MAGIC@);
        assert(out.take(9) =~= before);
    }
}

proof fn chunks_come_first(bytes: Seq<u8>, headers: Seq<usize>, low: nat, high: nat)
    requires
        low <= high,
    ensures
        evmgif::chunked_upto(bytes, headers, low).is_prefix_of(
            evmgif::chunked_upto(bytes, headers, high),
        ),
    decreases high,
{
    if low < high {
        chunks_come_first(bytes, headers, low, (high - 1) as nat);
    }
}

proof fn chunk_stands(bytes: Seq<u8>, headers: Seq<usize>, c: int)
    requires
        evmgif::ascending(headers, bytes.len() as int),
        0 <= c < headers.len(),
    ensures
        ({
            let out = evmgif::chunked(bytes, headers);
            let at = chunk_start(headers, c);
            let chunk = evmgif::chunk_bytes(bytes, headers, c);
            &&& 9 <= at
            &&& at + chunk.len() <= out.len()
            &&& out.subrange(at, at + chunk.len()) == chunk
        }),
{
    let out = evmgif::chunked(bytes, headers);
    let count = (c + 1) as nat;
    let before = evmgif::chunked_upto(bytes, headers, c as nat);
    let upto = evmgif::chunked_upto(bytes, headers, count);
    let chunk = evmgif::chunk_bytes(bytes, headers, c);
    let at = chunk_start(headers, c);
    magic_is_nine_bytes();
    if c > 0 {
        chunks_are_joined(bytes, headers, c as nat);
        assert(headers[0] < headers[c]);
    }
    chunks_come_first(bytes, headers, count, headers.len());
    assert(upto == before + chunk);
    assert(before.len() == at);
    assert forall|k: int| 0 <= k < chunk.len() implies out.subrange(at, at + chunk.len())[k]
        == chunk[k] by {
        assert(upto[at + k] == chunk[k]);
    }
    assert(out.subrange(at, at + chunk.len()) =~= chunk);
}

proof fn chunk_has_header(bytes: Seq<u8>, headers: Seq<usize>, c: int)
    requires
        evmgif::ascending(headers, bytes.len() as int),
        0 <= c < headers.len(),
    ensures
        ({
            let chunk = evmgif::chunk_bytes(bytes, headers, c);
            let end = end_of(headers, bytes.len() as int, c);
            let size = end - headers[c];
            &&& 0 <= size
            &&& chunk.len() == 3 + size
            &&& c == 0 ==> chunk[1] == 0x5b && chunk[2] == 0x50 && (size <= 253 ==> chunk[0] == size
                + 2)
            &&& c > 0 ==> chunk[0] == 0x60 && chunk[2] == 0x50 && (size <= 254 ==> chunk[1] == size
                + 1)
            &&& chunk.skip(3) == bytes.subrange(headers[c] as int, end)
        }),
{
    let chunk = evmgif::chunk_bytes(bytes, headers, c);
    let end = end_of(headers, bytes.len() as int, c);
    if c + 1 < headers.len() {
        assert(headers[c] < headers[c + 1]);
        assert(headers[c + 1] <= bytes.len());
    }
    assert(headers[c] <= bytes.len());
    assert(chunk.skip(3) =~= bytes.subrange(headers[c] as int, end));
}

/// What the output of `bytes` with the given chunks is: the magic, and one chunk behind the other,
/// each with its header in front. The first header is the size, `JUMPDEST` and `POP`, and each other
/// one pushes the size and pops it again. A size counts the bytes up to the next header, as far as
/// it fits in a byte.
pub proof fn chunks_are_written(bytes: Seq<u8>, headers: Seq<usize>, c: int)
    requires
        evmgif::ascending(headers, bytes.len() as int),
        0 <= c < headers.len(),
    ensures
        ({
            let out = evmgif::chunked(bytes, headers);
            let at = chunk_start(headers, c);
            let end = end_of(headers, bytes.len() as int, c);
            let size = end - headers[c];
            &&& out.len() == 9 + 3 * headers.len() + bytes.len() - headers[0]
            &&& out.take(9) == seq![0x21u8, 0xff, 0x06, 0x45, 0x56, 0x4d, 0x47, 0x49, 0x46]
            &&& 0 <= size && 9 <= at && at + 3 + size <= out.len()
            &&& c == 0 ==> out[at + 1] == 0x5b && out[at + 2] == 0x50 && (size <= 253 ==> out[at]
                == size + 2)
            &&& c > 0 ==> out[at] == 0x60 && out[at + 2] == 0x50 && (size <= 254 ==> out[at + 1]
                == size + 1)
            &&& out.subrange(at + 3, at + 3 + size) == bytes.subrange(headers[c] as int, end)
        }),
{
    let out = evmgif::chunked(bytes, headers);
    let chunk = evmgif::chunk_bytes(bytes, headers, c);
    let at = chunk_start(headers, c);
    let piece = out.subrange(at, at + chunk.len());
    chunks_are_joined(bytes, headers, headers.len());
    magic_is_nine_bytes();
    chunk_stands(bytes, headers, c);
    chunk_has_header(bytes, headers, c);
    assert(piece[0] == out[at]);
    assert(piece[1] == out[at + 1]);
    assert(piece[2] == out[at + 2]);
    assert(out.subrange(at + 3, at + chunk.len()) =~= piece.skip(3));
}

} // verus!
