//! The layout of a program that is carried by an application extension block of a GIF file.
//!
//! ```text
//! 0x21 0xFF 0x06 'E' 'V' 'M' 'G' 'I' 'F'
//! <size_0> JUMPDEST POP <bytes of chunk 0>
//! PUSH1 <size_1> POP <bytes of chunk 1>
//! PUSH1 <size_2> POP <bytes of chunk 2>
//! ...
//! ```
//!
//! The leading `JUMPDEST` of the program stands in the first header. Each size counts the bytes
//! that follow it up to the next header, or to the end.

use std::collections::HashMap;
use vstd::prelude::*;

use crate::opcode;
use crate::opcode::{size_of_instruction, JUMPDEST, POP, PUSH1};

verus! {

/// The most bytes of the program that may stand between two headers. With a header of three bytes
/// the headers are at most 256 bytes apart.
pub const MAX_CHUNK_CONTENT: usize = 253;

/// The bytes that every output starts with: the introducer of an application extension, the size
/// of its identifier, and the identifier `EVMGIF`.
pub const EVMGIF_MAGIC: [u8; 9] = [0x21, 0xff, 0x06, 0x45, 0x56, 0x4d, 0x47, 0x49, 0x46];

/// Where the chunks of a program start.
#[derive(Debug)]
pub struct ChunkBoundaries {
    /// The offset in the program at which the content of each chunk starts.
    pub header_at: Vec<usize>,
    /// The length of the program.
    pub unchunked_len: usize,
}

/// Where the instruction at `at` ends; the last one of `bytes` may be cut off.
pub open spec fn next_start(bytes: Seq<u8>, at: int) -> int {
    if at + opcode::instruction_size(bytes[at]) < bytes.len() {
        at + opcode::instruction_size(bytes[at])
    } else {
        bytes.len() as int
    }
}

/// The starts of the instructions of `bytes` from `from` on.
pub open spec fn starts_from(bytes: Seq<u8>, from: int) -> Seq<usize>
    decreases bytes.len() - from,
{
    if 0 <= from < bytes.len() {
        seq![from as usize] + starts_from(bytes, next_start(bytes, from))
    } else {
        Seq::empty()
    }
}

/// The starts of the instructions of `bytes`.
pub open spec fn instruction_starts(bytes: Seq<u8>) -> Seq<usize> {
    starts_from(bytes, 0)
}

/// `starts` are offsets of a program of length `len`, in ascending order.
pub open spec fn ascending(starts: Seq<usize>, len: int) -> bool {
    &&& forall|i: int, j: int| 0 <= i < j < starts.len() ==> starts[i] < starts[j]
    &&& forall|i: int| 0 <= i < starts.len() ==> starts[i] <= len
}

/// Where the instruction at index `i` of `starts` ends.
pub open spec fn instruction_end(starts: Seq<usize>, len: int, i: int) -> int {
    if i + 1 < starts.len() {
        starts[i + 1] as int
    } else {
        len
    }
}

/// Whether the instruction from `start` to `end` needs a new chunk, where the chunk before it
/// started at `chunk`. An instruction that is wider than a chunk has one of its own.
pub open spec fn opens_chunk(chunk: int, start: int, end: int) -> bool {
    if end - start > MAX_CHUNK_CONTENT {
        chunk != start
    } else {
        end - chunk > MAX_CHUNK_CONTENT
    }
}

/// Where the chunks start when the first `count` instructions are packed one after the other,
/// the first of them, which stands in the first header, left aside.
pub open spec fn headers_upto(starts: Seq<usize>, len: int, count: nat) -> Seq<usize>
    decreases count,
{
    if count <= 1 {
        seq![1usize]
    } else {
        let before = headers_upto(starts, len, (count - 1) as nat);
        let start = starts[count - 1];
        if opens_chunk(
            before.last() as int,
            start as int,
            instruction_end(starts, len, count - 1),
        ) {
            before.push(start)
        } else {
            before
        }
    }
}

/// Where the chunks of a program with the given instructions start.
pub open spec fn chunk_headers(starts: Seq<usize>, len: int) -> Seq<usize> {
    headers_upto(starts, len, starts.len())
}

/// How many of `headers`, the first one left aside, are at or before `position`.
pub open spec fn headers_passed(headers: Seq<usize>, position: int) -> nat
    decreases headers.len(),
{
    if headers.len() <= 1 {
        0
    } else {
        headers_passed(headers.drop_last(), position) + if headers.last() <= position {
            1nat
        } else {
            0nat
        }
    }
}

/// Where the byte at `position` of the program stands in the output.
pub open spec fn chunked_position(headers: Seq<usize>, position: int) -> int {
    if position == 0 {
        (EVMGIF_MAGIC@.len() + 1) as int
    } else {
        position + EVMGIF_MAGIC@.len() + 2 + 3 * headers_passed(headers, position)
    }
}

/// Whether an instruction but the first one starts at `position`.
pub open spec fn starts_later(starts: Seq<usize>, position: usize) -> bool {
    exists|i: int| 0 < i < starts.len() && #[trigger] starts[i] == position
}

/// Where the instructions stand in the output, and where the output of the program ends.
pub open spec fn position_map(starts: Seq<usize>, headers: Seq<usize>, len: usize) -> Map<
    usize,
    usize,
> {
    Map::new(
        |position: usize| position == 0 || position == len || starts_later(starts, position),
        |position: usize| chunked_position(headers, position as int) as usize,
    )
}

/// Where the content of the chunk at index `i` ends.
pub open spec fn content_end(headers: Seq<usize>, len: int, i: int) -> int {
    if i + 1 < headers.len() {
        headers[i + 1] as int
    } else {
        len
    }
}

/// The chunk at index `i`, header and content.
pub open spec fn chunk_bytes(bytes: Seq<u8>, headers: Seq<usize>, i: int) -> Seq<u8> {
    let end = content_end(headers, bytes.len() as int, i);
    let content = bytes.subrange(headers[i] as int, end);
    if i == 0 {
        seq![(2 + content.len()) as u8, JUMPDEST, POP] + content
    } else {
        seq![PUSH1, (1 + content.len()) as u8, POP] + content
    }
}

/// The output with its first `count` chunks.
pub open spec fn chunked_upto(bytes: Seq<u8>, headers: Seq<usize>, count: nat) -> Seq<u8>
    decreases count,
{
    if count == 0 {
        EVMGIF_MAGIC@
    } else {
        chunked_upto(bytes, headers, (count - 1) as nat) + chunk_bytes(
            bytes,
            headers,
            count - 1,
        )
    }
}

/// The output for the program `bytes` with the given chunks.
pub open spec fn chunked(bytes: Seq<u8>, headers: Seq<usize>) -> Seq<u8> {
    chunked_upto(bytes, headers, headers.len())
}

/// The chunks of the program `bytes`.
pub open spec fn headers_of(bytes: Seq<u8>) -> Seq<usize> {
    chunk_headers(instruction_starts(bytes), bytes.len() as int)
}

/// The program `bytes` in chunks.
pub open spec fn packed(bytes: Seq<u8>) -> Seq<u8> {
    chunked(bytes, headers_of(bytes))
}

/// Where the instructions of the program `bytes` stand in the output, and where the output ends.
pub open spec fn map_of(bytes: Seq<u8>) -> Map<usize, usize> {
    position_map(instruction_starts(bytes), headers_of(bytes), bytes.len() as usize)
}

/// The instructions from `from` on start one after the other, the first of them at `from`.
proof fn starts_from_ascend(bytes: Seq<u8>, from: int)
    requires
        bytes.len() <= usize::MAX,
        0 <= from,
    ensures
        ascending(starts_from(bytes, from), bytes.len() as int),
        forall|i: int|
            0 <= i < starts_from(bytes, from).len() ==> from <= #[trigger] starts_from(
                bytes,
                from,
            )[i] < bytes.len(),
        from < bytes.len() ==> starts_from(bytes, from).len() > 0 && starts_from(bytes, from)[0]
            == from,
    decreases bytes.len() - from,
{
    if from < bytes.len() {
        let rest = starts_from(bytes, next_start(bytes, from));
        starts_from_ascend(bytes, next_start(bytes, from));
        let starts = starts_from(bytes, from);
        assert(starts =~= seq![from as usize] + rest);
        assert forall|i: int| 0 <= i < starts.len() implies from <= #[trigger] starts[i]
            < bytes.len() by {
            if i > 0 {
                assert(starts[i] == rest[i - 1]);
            }
        }
        assert forall|i: int, j: int| 0 <= i < j < starts.len() implies starts[i] < starts[j] by {
            assert(starts[j] == rest[j - 1]);
            if i > 0 {
                assert(starts[i] == rest[i - 1]);
            }
        }
    }
}

/// The instructions of a program start one after the other, the first of them at the beginning.
pub proof fn instructions_ascend(bytes: Seq<u8>)
    requires
        bytes.len() <= usize::MAX,
    ensures
        ascending(instruction_starts(bytes), bytes.len() as int),
        forall|i: int|
            0 <= i < instruction_starts(bytes).len() ==> #[trigger] instruction_starts(bytes)[i]
                < bytes.len(),
        bytes.len() > 0 ==> instruction_starts(bytes).len() > 0 && instruction_starts(bytes)[0]
            == 0,
{
    starts_from_ascend(bytes, 0);
}

proof fn headers_upto_ascend(starts: Seq<usize>, len: int, count: nat)
    requires
        ascending(starts, len),
        1 <= len,
        count <= starts.len(),
    ensures
        ascending(headers_upto(starts, len, count), len),
        headers_upto(starts, len, count).len() > 0,
        headers_upto(starts, len, count)[0] == 1,
        forall|i: int|
            0 < i < headers_upto(starts, len, count).len() ==> starts.contains(
                #[trigger] headers_upto(starts, len, count)[i],
            ),
        0 < count < starts.len() ==> headers_upto(starts, len, count).last() <= starts[count as int],
    decreases count,
{
    if count > 1 {
        let before = headers_upto(starts, len, (count - 1) as nat);
        let headers = headers_upto(starts, len, count);
        headers_upto_ascend(starts, len, (count - 1) as nat);
        let start = starts[count - 1];
        assert(starts.contains(start));
        assert(before.last() <= start);
        if opens_chunk(
            before.last() as int,
            start as int,
            instruction_end(starts, len, count - 1),
        ) {
            assert(headers =~= before.push(start));
            assert forall|i: int, j: int| 0 <= i < j < headers.len() implies headers[i]
                < headers[j] by {
                if i + 1 < before.len() {
                    assert(before[i] < before[before.len() - 1]);
                }
            }
        }
        if count < starts.len() {
            assert(starts[count - 1] < starts[count as int]);
        }
    } else if count == 1 && starts.len() > 1 {
        assert(starts[0] < starts[1]);
    }
}

/// The chunks of a program start one after the other, the first of them behind the leading
/// instruction, and the others where an instruction does.
pub proof fn headers_ascend(starts: Seq<usize>, len: int)
    requires
        ascending(starts, len),
        1 <= len,
    ensures
        ascending(chunk_headers(starts, len), len),
        chunk_headers(starts, len).len() > 0,
        chunk_headers(starts, len)[0] == 1,
        forall|i: int|
            0 < i < chunk_headers(starts, len).len() ==> starts.contains(
                #[trigger] chunk_headers(starts, len)[i],
            ),
{
    headers_upto_ascend(starts, len, starts.len());
}

/// Walk `bytes` opcode-by-opcode and return the starting offset of every instruction.
pub fn decode_instruction_starts(bytes: &[u8]) -> (starts: Vec<usize>)
    ensures
        starts@ == instruction_starts(bytes@),
{
    let mut starts: Vec<usize> = Vec::new();
    let mut i: usize = 0;
    while i < bytes.len()
        invariant
            i <= bytes@.len(),
            starts@ + starts_from(bytes@, i as int) == instruction_starts(bytes@),
        decreases bytes@.len() - i,
    {
        let ghost before = starts@;
        let size = size_of_instruction(bytes[i]);
        starts.push(i);
        let ghost start = i;
        i = if size < bytes.len() - i {
            i + size
        } else {
            bytes.len()
        };
        assert(starts@ + starts_from(bytes@, i as int) =~= before + (seq![start] + starts_from(
            bytes@,
            i as int,
        )));
    }
    assert(starts@ + starts_from(bytes@, i as int) =~= starts@);
    starts
}

/// Decide where to insert chunk headers. The first instruction is absorbed into the first header.
/// After that, instructions are packed into chunks of at most [`MAX_CHUNK_CONTENT`] bytes each,
/// never splitting an instruction.
pub fn plan_chunks(instr_starts: &[usize], unchunked_len: usize) -> (boundaries: ChunkBoundaries)
    requires
        ascending(instr_starts@, unchunked_len as int),
    ensures
        boundaries.header_at@ == chunk_headers(instr_starts@, unchunked_len as int),
        boundaries.unchunked_len == unchunked_len,
{
    let mut header_at: Vec<usize> = Vec::new();
    header_at.push(1);
    assert(header_at@ =~= seq![1usize]);
    let mut chunk_start: usize = 1;
    assert(instr_starts@.len() > 1 ==> instr_starts@[0] < instr_starts@[1]);
    let mut idx: usize = 1;
    while idx < instr_starts.len()
        invariant
            1 <= idx,
            idx <= instr_starts@.len() || idx == 1,
            ascending(instr_starts@, unchunked_len as int),
            header_at@ == headers_upto(instr_starts@, unchunked_len as int, idx as nat),
            header_at@.len() > 0,
            chunk_start == header_at@.last(),
            1 <= chunk_start,
            idx < instr_starts@.len() ==> chunk_start <= instr_starts@[idx as int],
        decreases instr_starts@.len() - idx,
    {
        let instr_start = instr_starts[idx];
        let instr_end = if idx + 1 < instr_starts.len() {
            instr_starts[idx + 1]
        } else {
            unchunked_len
        };
        if instr_end - instr_start > MAX_CHUNK_CONTENT {
            // The instruction cannot be split: it has a chunk of its own, however wide it is.
            if chunk_start != instr_start {
                header_at.push(instr_start);
            }
            chunk_start = instr_start;
        } else if instr_end - chunk_start > MAX_CHUNK_CONTENT {
            header_at.push(instr_start);
            chunk_start = instr_start;
        }
        idx = idx + 1;
    }
    ChunkBoundaries { header_at, unchunked_len }
}

/// Build a lookup from the offsets of instructions in the program to their offsets in the output.
/// The end of the program, where a label can stand as well, is looked up in the same way.
pub fn build_position_map(
    instr_starts: &[usize],
    boundaries: &ChunkBoundaries,
) -> (map: HashMap<usize, usize>)
    requires
        ascending(instr_starts@, boundaries.unchunked_len as int),
        ascending(boundaries.header_at@, boundaries.unchunked_len as int),
        boundaries.unchunked_len + 3 * boundaries.header_at@.len() + 11 <= usize::MAX,
    ensures
        map@ == position_map(
            instr_starts@,
            boundaries.header_at@,
            boundaries.unchunked_len,
        ),
{
    broadcast use vstd::std_specs::hash::group_hash_axioms;

    let ghost headers = boundaries.header_at@;
    let mut map: HashMap<usize, usize> = HashMap::new();
    // The leading JUMPDEST stands behind the size byte of the first header.
    map.insert(0, EVMGIF_MAGIC.len() + 1);

    if boundaries.unchunked_len > 0 {
        // The end stands behind all headers that are before it.
        let mut before: usize = 0;
        while before + 1 < boundaries.header_at.len() && boundaries.unchunked_len
            >= boundaries.header_at[before + 1]
            invariant
                before < headers.len() || before == 0,
                headers == boundaries.header_at@,
                headers.len() <= usize::MAX,
                before > 0 ==> headers[before as int] <= boundaries.unchunked_len,
            decreases headers.len() - before,
        {
            before = before + 1;
        }
        proof {
            if headers.len() > 0 {
                headers_passed_counts(
                    headers,
                    boundaries.unchunked_len as int,
                    before as int,
                );
            }
        }
        map.insert(
            boundaries.unchunked_len,
            boundaries.unchunked_len + EVMGIF_MAGIC.len() + 2 + 3 * before,
        );
    }

    // Every other byte stands behind the magic bytes, the size and POP of the first header, and
    // three bytes for each later header before it.
    let mut chunk_idx: usize = 0;
    let mut i: usize = 1;
    let ghost mut seen: Seq<usize> = instr_starts@.take(if instr_starts@.len() > 0 {
        1
    } else {
        0
    });
    assert(map@ =~= position_map(seen, headers, boundaries.unchunked_len));
    while i < instr_starts.len()
        invariant
            1 <= i,
            i <= instr_starts@.len() || i == 1,
            headers == boundaries.header_at@,
            ascending(instr_starts@, boundaries.unchunked_len as int),
            ascending(headers, boundaries.unchunked_len as int),
            chunk_idx < headers.len() || chunk_idx == 0,
            boundaries.unchunked_len + 3 * headers.len() + 11 <= usize::MAX,
            chunk_idx > 0 ==> headers[chunk_idx as int] <= instr_starts@[i - 1],
            i <= instr_starts@.len() ==> seen == instr_starts@.take(i as int),
            instr_starts@.len() == 0 ==> seen.len() == 0,
            map@ == position_map(seen, headers, boundaries.unchunked_len),
        decreases instr_starts@.len() - i,
    {
        let start = instr_starts[i];
        assert(instr_starts@[i - 1] < start);
        while chunk_idx + 1 < boundaries.header_at.len() && start >= boundaries.header_at[chunk_idx
            + 1]
            invariant
                chunk_idx < headers.len() || chunk_idx == 0,
                headers == boundaries.header_at@,
                headers.len() <= usize::MAX,
                chunk_idx > 0 ==> headers[chunk_idx as int] <= start,
            decreases headers.len() - chunk_idx,
        {
            chunk_idx = chunk_idx + 1;
        }
        proof {
            if headers.len() > 0 {
                headers_passed_counts(headers, start as int, chunk_idx as int);
            }
        }
        let shift = EVMGIF_MAGIC.len() + 2 + 3 * chunk_idx;
        map.insert(start, start + shift);
        proof {
            let longer = instr_starts@.take(i + 1);
            assert forall|position: usize|
                starts_later(longer, position) == (starts_later(seen, position) || position
                    == start) by {
                assert(longer[i as int] == start);
                if starts_later(seen, position) {
                    let k = choose|k: int| 0 < k < seen.len() && #[trigger] seen[k] == position;
                    assert(longer[k] == position);
                }
                if starts_later(longer, position) {
                    let k = choose|k: int|
                        0 < k < longer.len() && #[trigger] longer[k] == position;
                    if k < i {
                        assert(seen[k] == position);
                    }
                }
            }
            seen = longer;
            assert(map@ =~= position_map(seen, headers, boundaries.unchunked_len));
        }
        i = i + 1;
    }
    assert(seen =~= instr_starts@);
    map
}

/// In ascending headers, those at or before a position are the first ones.
pub proof fn headers_passed_counts(headers: Seq<usize>, position: int, index: int)
    requires
        forall|i: int, j: int| 0 <= i < j < headers.len() ==> headers[i] < headers[j],
        0 <= index < headers.len(),
        index > 0 ==> headers[index] <= position,
        index + 1 < headers.len() ==> position < headers[index + 1],
    ensures
        headers_passed(headers, position) == index,
    decreases headers.len(),
{
    if headers.len() > 1 {
        let shorter = headers.drop_last();
        if index == headers.len() - 1 {
            assert(headers[index - 1] < headers[index]);
            headers_passed_counts(shorter, position, index - 1);
        } else {
            if index + 1 < headers.len() - 1 {
                assert(headers[index + 1] < headers.last());
            }
            headers_passed_counts(shorter, position, index);
        }
    }
}

/// Construct the chunked output: leading `<size_0> JUMPDEST POP`, then each chunk's bytes preceded
/// (for the later chunks) by `PUSH1 <size_N> POP`.
pub fn assemble_chunked(unchunked: &[u8], boundaries: &ChunkBoundaries) -> (out: Vec<u8>)
    requires
        boundaries.unchunked_len == unchunked@.len(),
        ascending(boundaries.header_at@, unchunked@.len() as int),
        unchunked@.len() + 2 <= usize::MAX,
    ensures
        out@ == chunked(unchunked@, boundaries.header_at@),
{
    let ghost headers = boundaries.header_at@;
    let mut out: Vec<u8> = Vec::new();
    out.extend_from_slice(&EVMGIF_MAGIC);
    assert(out@ =~= EVMGIF_MAGIC@);
    for idx in 0..boundaries.header_at.len()
        invariant
            headers == boundaries.header_at@,
            boundaries.unchunked_len == unchunked@.len(),
            ascending(headers, unchunked@.len() as int),
            unchunked@.len() + 2 <= usize::MAX,
            out@ == chunked_upto(unchunked@, headers, idx as nat),
    {
        let chunk_start = boundaries.header_at[idx];
        let end = if idx + 1 < boundaries.header_at.len() {
            boundaries.header_at[idx + 1]
        } else {
            boundaries.unchunked_len
        };
        assert(idx + 1 < headers.len() ==> headers[idx as int] < headers[idx + 1]);
        let content_len = end - chunk_start;
        let ghost before = out@;
        if idx == 0 {
            out.push((2 + content_len) as u8);
            out.push(JUMPDEST);
            out.push(POP);
        } else {
            out.push(PUSH1);
            out.push((1 + content_len) as u8);
            out.push(POP);
        }
        out.extend_from_slice(&unchunked[chunk_start..end]);
        assert(out@ =~= before + chunk_bytes(unchunked@, headers, idx as int));
    }
    out
}

} // verus!
