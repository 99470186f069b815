//! Laws of the layout that a GIF file carries.

use vstd::arithmetic::power;
use vstd::prelude::*;

use crate::encode;
use crate::encode::EncodeErrorModel;
use crate::error::{ErrorModel, FailureModel, Fault};
use crate::evmgif;
use crate::evmgif::{EVMGIF_MAGIC, MAX_CHUNK_CONTENT};
use crate::integer;
use crate::labels;
use crate::labels::LabelDef;
use crate::laws;
use crate::opcode;
use crate::opcode::{JUMPDEST, POP, PUSH1};
use crate::ops::{MacroModel, RawModel};
use crate::placement;
use crate::refusals;
use crate::state;
use crate::state::{ItemModel, PushRefModel, State};

verus! {

/// Where the chunk at index `i` starts in the output, header first.
pub open spec fn chunk_start(bytes: Seq<u8>, i: int) -> int {
    EVMGIF_MAGIC@.len() + 3 * i + evmgif::content_end(
        evmgif::headers_of(bytes),
        bytes.len() as int,
        i - 1,
    ) - 1
}

/// How many bytes of the program the chunk at index `i` holds.
pub open spec fn content_len(bytes: Seq<u8>, i: int) -> int {
    evmgif::content_end(evmgif::headers_of(bytes), bytes.len() as int, i) - evmgif::headers_of(bytes)[i]
}

/// A program that can be packed: there is a leading instruction, and offsets fit.
pub open spec fn packable(bytes: Seq<u8>) -> bool {
    0 < bytes.len() <= usize::MAX
}

/// What is known of the chunks of a program.
proof fn headers_are_sound(bytes: Seq<u8>)
    requires
        packable(bytes),
    ensures
        evmgif::ascending(evmgif::headers_of(bytes), bytes.len() as int),
        evmgif::headers_of(bytes).len() > 0,
        evmgif::headers_of(bytes)[0] == 1,
        forall|i: int|
            0 < i < evmgif::headers_of(bytes).len() ==> evmgif::instruction_starts(bytes).contains(
                #[trigger] evmgif::headers_of(bytes)[i],
            ),
        evmgif::ascending(evmgif::instruction_starts(bytes), bytes.len() as int),
        forall|i: int|
            0 <= i < evmgif::headers_of(bytes).len() ==> #[trigger] evmgif::headers_of(bytes)[i] <= bytes.len(),
{
    evmgif::instructions_ascend(bytes);
    evmgif::headers_ascend(evmgif::instruction_starts(bytes), bytes.len() as int);
}

/// The length of the output with its first `count` chunks.
proof fn chunked_upto_len(bytes: Seq<u8>, count: nat)
    requires
        packable(bytes),
        count <= evmgif::headers_of(bytes).len(),
    ensures
        evmgif::chunked_upto(bytes, evmgif::headers_of(bytes), count).len() == chunk_start(
            bytes,
            count as int,
        ),
    decreases count,
{
    let headers = evmgif::headers_of(bytes);
    headers_are_sound(bytes);
    if count > 0 {
        chunked_upto_len(bytes, (count - 1) as nat);
        let i = count - 1;
        if i + 1 < headers.len() {
            assert(headers[i] < headers[i + 1]);
        }
        assert(headers[i] <= bytes.len());
    }
}

/// Chunks are put one behind the other.
proof fn chunked_upto_extends(bytes: Seq<u8>, headers: Seq<usize>, count: nat, total: nat)
    requires
        count <= total,
    ensures
        evmgif::chunked_upto(bytes, headers, count).is_prefix_of(
            evmgif::chunked_upto(bytes, headers, total),
        ),
    decreases total,
{
    if count < total {
        chunked_upto_extends(bytes, headers, count, (total - 1) as nat);
    }
}

/// The chunk at index `i` stands in the output where it starts.
proof fn chunk_stands(bytes: Seq<u8>, i: int)
    requires
        packable(bytes),
        0 <= i < evmgif::headers_of(bytes).len(),
    ensures
        ({
            let start = chunk_start(bytes, i);
            let chunk = evmgif::chunk_bytes(bytes, evmgif::headers_of(bytes), i);
            &&& 9 <= start
            &&& chunk.len() == 3 + content_len(bytes, i)
            &&& 0 <= content_len(bytes, i)
            &&& start + chunk.len() == chunk_start(bytes, i + 1)
            &&& start + chunk.len() <= evmgif::packed(bytes).len()
            &&& evmgif::packed(bytes).subrange(start, start + chunk.len()) == chunk
        }),
{
    let headers = evmgif::headers_of(bytes);
    headers_are_sound(bytes);
    chunked_upto_len(bytes, i as nat);
    chunked_upto_len(bytes, (i + 1) as nat);
    chunked_upto_extends(bytes, headers, (i + 1) as nat, headers.len());
    if i + 1 < headers.len() {
        assert(headers[i] < headers[i + 1]);
    }
    assert(headers[i] <= bytes.len());
    let start = evmgif::chunked_upto(bytes, headers, i as nat).len() as int;
    let chunk = evmgif::chunk_bytes(bytes, headers, i);
    let upto = evmgif::chunked_upto(bytes, headers, (i + 1) as nat);
    assert(upto.subrange(start, start + chunk.len()) =~= chunk);
    assert(evmgif::packed(bytes).subrange(start, start + chunk.len()) =~= chunk);
}

/// Every output starts with the magic bytes.
pub proof fn output_starts_with_magic(bytes: Seq<u8>)
    ensures
        EVMGIF_MAGIC@.is_prefix_of(evmgif::packed(bytes)),
{
    chunked_upto_extends(bytes, evmgif::headers_of(bytes), 0, evmgif::headers_of(bytes).len());
}

/// The output is the program with nine magic bytes, and for each chunk a header of three bytes, of
/// which the leading `JUMPDEST` of the program is one.
pub proof fn output_len(bytes: Seq<u8>)
    requires
        packable(bytes),
    ensures
        evmgif::packed(bytes).len() == EVMGIF_MAGIC@.len() + 3 * evmgif::headers_of(bytes).len() + bytes.len() - 1,
{
    headers_are_sound(bytes);
    chunked_upto_len(bytes, evmgif::headers_of(bytes).len());
}

/// Instructions are at most as wide as the widest push, and one follows the other.
proof fn instructions_are_narrow(bytes: Seq<u8>, from: int, i: int)
    requires
        0 <= from <= bytes.len() <= usize::MAX,
        0 <= i < evmgif::starts_from(bytes, from).len(),
    ensures
        ({
            let starts = evmgif::starts_from(bytes, from);
            let end = evmgif::instruction_end(starts, bytes.len() as int, i);
            &&& starts[i] < bytes.len()
            &&& end == evmgif::next_start(bytes, starts[i] as int)
            &&& starts[i] < end <= starts[i] + 33
        }),
    decreases bytes.len() - from,
{
    if from < bytes.len() {
        let next = evmgif::next_start(bytes, from);
        let rest = evmgif::starts_from(bytes, next);
        let starts = evmgif::starts_from(bytes, from);
        assert(starts =~= seq![from as usize] + rest);
        if i > 0 {
            instructions_are_narrow(bytes, next, i - 1);
            assert(starts[i] == rest[i - 1]);
        } else {
            if next < bytes.len() {
                assert(rest[0] == next as usize);
                assert(starts[1] == rest[0]);
            } else {
                assert(rest.len() == 0);
            }
        }
    }
}

/// When the first `count` instructions are packed, none of the chunks holds too much: the last one
/// ends with the instructions, the others where the next one starts.
proof fn chunks_upto_fit(bytes: Seq<u8>, count: nat)
    requires
        packable(bytes),
        0 < count <= evmgif::instruction_starts(bytes).len(),
    ensures
        ({
            let starts = evmgif::instruction_starts(bytes);
            let headers = evmgif::headers_upto(starts, bytes.len() as int, count);
            let end = evmgif::instruction_end(starts, bytes.len() as int, count - 1);
            &&& headers.len() > 0
            &&& headers.last() <= end
            &&& end - headers.last() <= MAX_CHUNK_CONTENT
            &&& forall|i: int|
                0 <= i < headers.len() - 1 ==> headers[i + 1] - #[trigger] headers[i]
                    <= MAX_CHUNK_CONTENT
        }),
    decreases count,
{
    let starts = evmgif::instruction_starts(bytes);
    let len = bytes.len() as int;
    instructions_are_narrow(bytes, 0, count - 1);
    if count > 1 {
        chunks_upto_fit(bytes, (count - 1) as nat);
        let before = evmgif::headers_upto(starts, len, (count - 1) as nat);
        let headers = evmgif::headers_upto(starts, len, count);
        let start = starts[count - 1];
        assert(evmgif::instruction_end(starts, len, count - 2) == start);
        if headers.len() > before.len() {
            assert(headers =~= before.push(start));
            assert forall|i: int| 0 <= i < headers.len() - 1 implies headers[i + 1]
                - #[trigger] headers[i] <= MAX_CHUNK_CONTENT by {
                assert(headers[i] == before[i]);
                if i + 1 < before.len() {
                    assert(headers[i + 1] == before[i + 1]);
                }
            }
        }
    } else {
        evmgif::instructions_ascend(bytes);
        assert(starts[0] == 0);
    }
}

/// No chunk holds more of the program than it may.
pub proof fn chunks_fit(bytes: Seq<u8>, i: int)
    requires
        packable(bytes),
        0 <= i < evmgif::headers_of(bytes).len(),
    ensures
        0 <= content_len(bytes, i) <= MAX_CHUNK_CONTENT,
{
    let starts = evmgif::instruction_starts(bytes);
    headers_are_sound(bytes);
    evmgif::instructions_ascend(bytes);
    chunks_upto_fit(bytes, starts.len());
    let headers = evmgif::headers_of(bytes);
    if i + 1 < headers.len() {
        assert(headers[i] < headers[i + 1]);
    }
}

/// The size byte of each header counts the bytes behind it, up to the next header or to the end of
/// the output, and headers are at most 256 bytes apart.
pub proof fn sizes_count_up_to_the_next_header(bytes: Seq<u8>, i: int)
    requires
        packable(bytes),
        0 <= i < evmgif::headers_of(bytes).len(),
    ensures
        ({
            let out = evmgif::packed(bytes);
            let next = chunk_start(bytes, i + 1);
            &&& next <= out.len()
            &&& i + 1 == evmgif::headers_of(bytes).len() ==> next == out.len()
            &&& next - chunk_start(bytes, i) <= 256
            &&& i == 0 ==> {
                &&& chunk_start(bytes, i) == 9
                &&& out[9] == next - 10
                &&& out[10] == JUMPDEST
                &&& out[11] == POP
            }
            &&& i > 0 ==> {
                let start = chunk_start(bytes, i);
                &&& out[start] == PUSH1
                &&& out[start + 1] == next - start - 2
                &&& out[start + 2] == POP
            }
        }),
{
    headers_are_sound(bytes);
    chunks_fit(bytes, i);
    chunk_stands(bytes, i);
    output_len(bytes);
    let headers = evmgif::headers_of(bytes);
    let out = evmgif::packed(bytes);
    let chunk = evmgif::chunk_bytes(bytes, headers, i);
    let start = chunk_start(bytes, i);
    let copy = out.subrange(start, start + chunk.len());
    assert(out[start] == copy[0]);
    assert(out[start + 1] == copy[1]);
    assert(out[start + 2] == copy[2]);
}

/// The chunk that holds the byte at `position`.
proof fn chunk_of(bytes: Seq<u8>, position: int) -> (i: int)
    requires
        packable(bytes),
        1 <= position < bytes.len(),
    ensures
        0 <= i < evmgif::headers_of(bytes).len(),
        evmgif::headers_of(bytes)[i] <= position < evmgif::content_end(
            evmgif::headers_of(bytes),
            bytes.len() as int,
            i,
        ),
        i == evmgif::headers_passed(evmgif::headers_of(bytes), position),
        evmgif::chunked_position(evmgif::headers_of(bytes), position) == position + 11 + 3 * i,
{
    let headers = evmgif::headers_of(bytes);
    headers_are_sound(bytes);
    let i = find_chunk(headers, position, headers.len() as int);
    evmgif::headers_passed_counts(headers, position, i);
    i
}

proof fn find_chunk(headers: Seq<usize>, position: int, count: int) -> (i: int)
    requires
        0 < count <= headers.len(),
        headers[0] <= position,
    ensures
        0 <= i < count,
        headers[i] <= position,
        i + 1 < count ==> position < headers[i + 1],
    decreases count,
{
    if headers[count - 1] <= position {
        count - 1
    } else {
        find_chunk(headers, position, count - 1)
    }
}

/// Every byte of the program is copied: it stands where its position in the output says.
pub proof fn bytes_are_copied(bytes: Seq<u8>, position: int)
    requires
        packable(bytes),
        bytes[0] == JUMPDEST,
        0 <= position < bytes.len(),
    ensures
        0 <= evmgif::chunked_position(evmgif::headers_of(bytes), position) < evmgif::packed(bytes).len(),
        evmgif::packed(bytes)[evmgif::chunked_position(evmgif::headers_of(bytes), position)] == bytes[position],
{
    headers_are_sound(bytes);
    output_len(bytes);
    if position == 0 {
        sizes_count_up_to_the_next_header(bytes, 0);
    } else {
        let headers = evmgif::headers_of(bytes);
        let i = chunk_of(bytes, position);
        chunk_stands(bytes, i);
        let chunk = evmgif::chunk_bytes(bytes, headers, i);
        let k = 3 + position - headers[i];
        let start = chunk_start(bytes, i);
        let copy = evmgif::packed(bytes).subrange(start, start + chunk.len());
        assert(evmgif::packed(bytes)[start + k] == copy[k]);
    }
}

/// Later bytes of the program stand later in the output.
pub proof fn order_is_kept(bytes: Seq<u8>, first: int, second: int)
    requires
        packable(bytes),
        0 <= first < second < bytes.len(),
    ensures
        evmgif::chunked_position(evmgif::headers_of(bytes), first) < evmgif::chunked_position(
            evmgif::headers_of(bytes),
            second,
        ),
{
    let headers = evmgif::headers_of(bytes);
    headers_are_sound(bytes);
    let j = chunk_of(bytes, second);
    if first > 0 {
        let i = chunk_of(bytes, first);
        if j < i {
            assert(evmgif::content_end(headers, bytes.len() as int, j) == headers[j + 1]);
            if j + 1 < i {
                assert(headers[j + 1] < headers[i]);
            }
        }
    }
}

/// No instruction is split: behind the leading one, the bytes of an instruction stand together in
/// the output.
pub proof fn instructions_stay_whole(bytes: Seq<u8>, k: int, position: int)
    requires
        packable(bytes),
        0 < k < evmgif::instruction_starts(bytes).len(),
        evmgif::instruction_starts(bytes)[k] <= position < evmgif::instruction_end(
            evmgif::instruction_starts(bytes),
            bytes.len() as int,
            k,
        ),
    ensures
        evmgif::chunked_position(evmgif::headers_of(bytes), position) == evmgif::chunked_position(
            evmgif::headers_of(bytes),
            evmgif::instruction_starts(bytes)[k] as int,
        ) + position - evmgif::instruction_starts(bytes)[k],
{
    let starts = evmgif::instruction_starts(bytes);
    let headers = evmgif::headers_of(bytes);
    let start = starts[k] as int;
    headers_are_sound(bytes);
    evmgif::instructions_ascend(bytes);
    instructions_are_narrow(bytes, 0, k);
    assert(starts[0] < starts[k]);
    let i = chunk_of(bytes, start);
    let j = chunk_of(bytes, position);
    if i < j {
        // A chunk would start inside of the instruction.
        assert(headers[j] <= position);
        assert(start < headers[i + 1]);
        if i + 1 < j {
            assert(headers[i + 1] < headers[j]);
        }
        assert(starts.contains(headers[j]));
        let m = choose|m: int| 0 <= m < starts.len() && starts[m] == headers[j];
        if m < k {
            assert(starts[m] < starts[k]);
        } else if m > k + 1 {
            assert(starts[k + 1] < starts[m]);
        }
        assert(false);
    } else if j < i {
        order_is_kept_by_chunks(bytes, start, position);
    }
}

proof fn order_is_kept_by_chunks(bytes: Seq<u8>, first: int, second: int)
    requires
        packable(bytes),
        1 <= first <= second < bytes.len(),
    ensures
        evmgif::headers_passed(evmgif::headers_of(bytes), first) <= evmgif::headers_passed(
            evmgif::headers_of(bytes),
            second,
        ),
{
    let headers = evmgif::headers_of(bytes);
    headers_are_sound(bytes);
    let i = chunk_of(bytes, first);
    let j = chunk_of(bytes, second);
    if j < i {
        assert(evmgif::content_end(headers, bytes.len() as int, j) == headers[j + 1]);
        if j + 1 < i {
            assert(headers[j + 1] < headers[i]);
        }
    }
}

/// Whether the instruction at index `k` starts the chunk behind the one at index `i`, in which
/// there was no room for it.
pub open spec fn opens_next_chunk(
    starts: Seq<usize>,
    len: int,
    headers: Seq<usize>,
    i: int,
    k: int,
) -> bool {
    &&& 0 < k < starts.len()
    &&& starts[k] == headers[i + 1]
    &&& evmgif::instruction_end(starts, len, k) - headers[i] > MAX_CHUNK_CONTENT
}

/// Chunks are filled: a new one starts only where the next instruction does not fit any more.
pub proof fn chunks_are_filled(bytes: Seq<u8>, i: int)
    requires
        packable(bytes),
        0 <= i,
        i + 1 < evmgif::headers_of(bytes).len(),
    ensures
        exists|k: int|
            opens_next_chunk(
                evmgif::instruction_starts(bytes),
                bytes.len() as int,
                evmgif::headers_of(bytes),
                i,
                k,
            ),
{
    chunks_upto_are_filled(bytes, evmgif::instruction_starts(bytes).len(), i);
}

proof fn chunks_upto_are_filled(bytes: Seq<u8>, count: nat, i: int)
    requires
        packable(bytes),
        count <= evmgif::instruction_starts(bytes).len(),
        0 <= i,
        i + 1 < evmgif::headers_upto(
            evmgif::instruction_starts(bytes),
            bytes.len() as int,
            count,
        ).len(),
    ensures
        exists|k: int|
            opens_next_chunk(
                evmgif::instruction_starts(bytes),
                bytes.len() as int,
                evmgif::headers_upto(
                    evmgif::instruction_starts(bytes),
                    bytes.len() as int,
                    count,
                ),
                i,
                k,
            ),
    decreases count,
{
    let starts = evmgif::instruction_starts(bytes);
    let len = bytes.len() as int;
    let headers = evmgif::headers_upto(starts, len, count);
    if count > 1 {
        let before = evmgif::headers_upto(starts, len, (count - 1) as nat);
        instructions_are_narrow(bytes, 0, count - 1);
        if i + 1 < before.len() {
            chunks_upto_are_filled(bytes, (count - 1) as nat, i);
            let k = choose|k: int| opens_next_chunk(starts, len, before, i, k);
            assert(opens_next_chunk(starts, len, headers, i, k));
        } else {
            assert(headers == before.push(starts[count - 1]));
            assert(opens_next_chunk(starts, len, headers, i, count - 1));
        }
    }
}

/// Headers stand apart from the program: no byte of the program stands in a later header, nor any
/// but the leading one in the first.
proof fn headers_stand_apart(bytes: Seq<u8>, i: int, at: int, position: int)
    requires
        packable(bytes),
        0 <= i < evmgif::headers_of(bytes).len(),
        chunk_start(bytes, i) <= at < chunk_start(bytes, i) + 3,
        1 <= position < bytes.len(),
    ensures
        evmgif::chunked_position(evmgif::headers_of(bytes), position) != at,
{
    let headers = evmgif::headers_of(bytes);
    let len = bytes.len() as int;
    headers_are_sound(bytes);
    let j = chunk_of(bytes, position);
    assert(chunk_start(bytes, j) == 8 + 3 * j + headers[j]);
    assert(chunk_start(bytes, i) == 8 + 3 * i + headers[i]);
    if i < j {
        assert(headers[i] < headers[j]);
    } else if j < i {
        if j + 1 < i {
            assert(headers[j + 1] < headers[i]);
        }
    }
}

/// The offset of the opcode of `push` in the output.
pub open spec fn op_position(bytes: Seq<u8>, push: PushRefModel) -> int {
    evmgif::chunked_position(evmgif::headers_of(bytes), push.unchunked_op_pos as int)
}

/// `pushes` are pushes of the program `bytes`, in the order of the program.
pub open spec fn pushes_stand(pushes: Seq<PushRefModel>, bytes: Seq<u8>) -> bool {
    &&& forall|j: int|
        #![trigger pushes[j]]
        0 <= j < pushes.len() ==> {
            let push = pushes[j];
            &&& push.imm_size > 0
            &&& push.unchunked_op_pos + 1 + push.imm_size <= bytes.len()
            &&& opcode::immediate_len(bytes[push.unchunked_op_pos as int]) == push.imm_size
        }
    &&& forall|j: int, k: int|
        0 <= j < k < pushes.len() ==> (#[trigger] pushes[j]).unchunked_op_pos + pushes[j].imm_size
            < (#[trigger] pushes[k]).unchunked_op_pos
}

/// The pushes that are noted while a program is emitted stand in it.
pub proof fn noted_pushes_stand(state: State, count: nat)
    requires
        count <= state.ready.len(),
        state::emitted(state, count).1 is Ok,
    ensures
        pushes_stand(
            state::emitted(state, count).0,
            state::emitted(state, count).1->Ok_0,
        ),
    decreases count,
{
    if count > 0 {
        noted_pushes_stand(state, (count - 1) as nat);
        let (pushes_before, before) = state::emitted(state, (count - 1) as nat);
        let (pushes, after) = state::emitted(state, count);
        let out = before->Ok_0;
        let more = after->Ok_0;
        assert(out.is_prefix_of(more));
        match state.ready[count - 1] {
            ItemModel::Instruction(op) => {
                let room = state.sizes[count - 1];
                if encode::expression_in(op) is Some {
                    laws::roomy_pushes_carry_their_value(op, room, state.labels, state.macros);
                }
                let bytes = encode::encoding_in(op, room, state.labels, state.macros)->Ok_0;
                assert(more == out + bytes);
                if pushes.len() > pushes_before.len() {
                    assert(more[out.len() as int] == bytes[0]);
                }
            },
            _ => {},
        }
        assert forall|j: int|
            #![trigger pushes[j]]
            0 <= j < pushes.len() implies {
            let push = pushes[j];
            &&& push.imm_size > 0
            &&& push.unchunked_op_pos + 1 + push.imm_size <= more.len()
            &&& opcode::immediate_len(more[push.unchunked_op_pos as int]) == push.imm_size
        } by {
            if j < pushes_before.len() {
                let push = pushes_before[j];
                assert(pushes[j] == push);
                assert(more[push.unchunked_op_pos as int] == out[push.unchunked_op_pos as int]);
            }
        }
        assert forall|j: int, k: int| 0 <= j < k < pushes.len() implies (
        #[trigger] pushes[j]).unchunked_op_pos + pushes[j].imm_size < (
        #[trigger] pushes[k]).unchunked_op_pos by {
            assert(pushes[j] == pushes_before[j]);
            if k < pushes_before.len() {
                assert(pushes[k] == pushes_before[k]);
            }
        }
    }
}

/// A noted push that is an instruction of the program stands in one piece in the output.
proof fn noted_push_is_whole(bytes: Seq<u8>, pushes: Seq<PushRefModel>, j: int, position: int)
    requires
        packable(bytes),
        bytes[0] == JUMPDEST,
        pushes_stand(pushes, bytes),
        0 <= j < pushes.len(),
        pushes[j].unchunked_op_pos <= usize::MAX,
        evmgif::map_of(bytes).contains_key(pushes[j].unchunked_op_pos as usize),
        pushes[j].unchunked_op_pos <= position <= pushes[j].unchunked_op_pos + pushes[j].imm_size,
    ensures
        pushes[j].unchunked_op_pos > 0,
        evmgif::chunked_position(evmgif::headers_of(bytes), position) == op_position(bytes, pushes[j])
            + position - pushes[j].unchunked_op_pos,
{
    let starts = evmgif::instruction_starts(bytes);
    let start = pushes[j].unchunked_op_pos;
    assert(start != 0);
    let k = choose|k: int| 0 < k < starts.len() && #[trigger] starts[k] == start as usize;
    instructions_are_narrow(bytes, 0, k);
    instructions_stay_whole(bytes, k, position);
}

/// Whether the byte of the program at `position` is a part of the immediate of one of the first
/// `count` pushes.
pub open spec fn in_immediate(pushes: Seq<PushRefModel>, count: int, position: int) -> bool {
    exists|j: int|
        0 <= j < count && (#[trigger] pushes[j]).unchunked_op_pos < position
            <= pushes[j].unchunked_op_pos + pushes[j].imm_size
}

/// Whether the immediate of `push` is the value of its expression.
pub open spec fn immediate_holds(
    out: Seq<u8>,
    bytes: Seq<u8>,
    push: PushRefModel,
    entries: Seq<(Seq<char>, Option<LabelDef>)>,
    macros: Seq<MacroModel>,
) -> bool {
    let at = op_position(bytes, push);
    let value = encode::value_of(push.expr, entries, macros);
    &&& value is Ok && value->Ok_0 >= 0
    &&& integer::be_bytes(value->Ok_0 as nat).len() <= push.imm_size
    &&& 0 <= at
    &&& at + 1 + push.imm_size <= out.len()
    &&& out.subrange(at + 1, at + 1 + push.imm_size) == encode::padded(
        integer::be_bytes(value->Ok_0 as nat),
        push.imm_size,
    )
}

/// What patching the first `count` pushes does: their immediates hold the values, and all other
/// bytes stay.
#[verifier::spinoff_prover]
#[verifier::rlimit(50)]
proof fn patching_is_exact(
    state: State,
    bytes: Seq<u8>,
    pushes: Seq<PushRefModel>,
    count: nat,
)
    requires
        packable(bytes),
        bytes[0] == JUMPDEST,
        bytes.len() + 3 * evmgif::headers_of(bytes).len() + 11 <= usize::MAX,
        pushes_stand(pushes, bytes),
        count <= pushes.len(),
        state::patched(
            state,
            evmgif::packed(bytes),
            pushes,
            count,
            evmgif::map_of(bytes),
        ) is Ok,
    ensures
        ({
            let map = evmgif::map_of(bytes);
            let out = state::patched(state, evmgif::packed(bytes), pushes, count, map)->Ok_0;
            &&& out.len() == evmgif::packed(bytes).len()
            &&& forall|j: int|
                0 <= j < count ==> immediate_holds(
                    out,
                    bytes,
                    #[trigger] pushes[j],
                    state.labels,
                    state.macros,
                ) && map.contains_key(pushes[j].unchunked_op_pos as usize)
            &&& forall|x: int|
                0 <= x < out.len() && (forall|j: int|
                    0 <= j < count ==> !(op_position(bytes, #[trigger] pushes[j]) < x
                        <= op_position(bytes, pushes[j]) + pushes[j].imm_size)) ==> #[trigger] out[x]
                    == evmgif::packed(bytes)[x]
        }),
    decreases count,
{
    let map = evmgif::map_of(bytes);
    let out = state::patched(state, evmgif::packed(bytes), pushes, count, map)->Ok_0;
    if count > 0 {
        let last = count - 1;
        patching_is_exact(state, bytes, pushes, last as nat);
        let before = state::patched(
            state,
            evmgif::packed(bytes),
            pushes,
            last as nat,
            map,
        )->Ok_0;
        let push = pushes[last];
        let value = encode::value_of(push.expr, state.labels, state.macros)->Ok_0;
        let immediate = encode::padded(integer::be_bytes(value as nat), push.imm_size);
        let at = op_position(bytes, push);
        noted_push_is_whole(bytes, pushes, last, push.unchunked_op_pos as int);
        headers_are_sound(bytes);
        let c = chunk_of(bytes, push.unchunked_op_pos as int);
        assert(map[push.unchunked_op_pos as usize] == at);
        assert(immediate.len() == push.imm_size);
        assert(out == state::spliced(before, at + 1, immediate));
        assert(out.subrange(at + 1, at + 1 + push.imm_size) =~= immediate);
        assert forall|j: int| 0 <= j < count implies immediate_holds(
            out,
            bytes,
            #[trigger] pushes[j],
            state.labels,
            state.macros,
        ) && map.contains_key(pushes[j].unchunked_op_pos as usize) by {
            if j < last {
                let other = pushes[j];
                let end = other.unchunked_op_pos + other.imm_size;
                assert(immediate_holds(before, bytes, other, state.labels, state.macros));
                noted_push_is_whole(bytes, pushes, j, end as int);
                order_is_kept(bytes, end as int, push.unchunked_op_pos as int);
                let start = op_position(bytes, other);
                assert(start + other.imm_size < at);
                assert(out.subrange(start + 1, start + 1 + other.imm_size) =~= before.subrange(
                    start + 1,
                    start + 1 + other.imm_size,
                ));
            }
        }
        assert forall|x: int|
            0 <= x < out.len() && (forall|j: int|
                0 <= j < count ==> !(op_position(bytes, #[trigger] pushes[j]) < x <= op_position(
                    bytes,
                    pushes[j],
                ) + pushes[j].imm_size)) implies #[trigger] out[x] == evmgif::packed(
            bytes,
        )[x] by {
            assert(!(op_position(bytes, pushes[last]) < x <= op_position(bytes, pushes[last])
                + pushes[last].imm_size));
            assert(out[x] == before[x]);
        }
    }
}

/// The end of the program stands at the end of the output.
pub proof fn end_is_kept(bytes: Seq<u8>)
    requires
        packable(bytes),
    ensures
        evmgif::chunked_position(evmgif::headers_of(bytes), bytes.len() as int) == evmgif::packed(
            bytes,
        ).len(),
{
    let headers = evmgif::headers_of(bytes);
    headers_are_sound(bytes);
    output_len(bytes);
    let last = headers.len() - 1;
    assert(headers[last] <= bytes.len());
    evmgif::headers_passed_counts(headers, bytes.len() as int, last);
}

/// What a position of the program that has one in the output is there.
proof fn map_is_exact(bytes: Seq<u8>, position: usize)
    requires
        packable(bytes),
        bytes.len() + 3 * evmgif::headers_of(bytes).len() + 11 <= usize::MAX,
        evmgif::map_of(bytes).contains_key(position),
    ensures
        position <= bytes.len(),
        evmgif::map_of(bytes)[position] == evmgif::chunked_position(
            evmgif::headers_of(bytes),
            position as int,
        ) <= evmgif::packed(bytes).len(),
{
    let starts = evmgif::instruction_starts(bytes);
    evmgif::instructions_ascend(bytes);
    headers_are_sound(bytes);
    output_len(bytes);
    end_is_kept(bytes);
    if position != 0 && position != bytes.len() {
        let k = choose|k: int| 0 < k < starts.len() && #[trigger] starts[k] == position;
        assert(starts[k] < bytes.len());
        let c = chunk_of(bytes, position as int);
    }
}

/// The labels of a program are moved to their positions in a GIF file, `offset` added, and no other
/// label is touched.
pub proof fn labels_are_relocated(state: State, count: nat, map: Map<usize, usize>, offset: u64)
    requires
        placement::well_formed(state),
        count <= state.marks.len(),
        state::relocated(state, count, map, offset).1 is None,
    ensures
        ({
            let moved = state::relocated(state, count, map, offset).0;
            &&& moved.len() == state.labels.len()
            &&& forall|i: int|
                0 <= i < moved.len() ==> (#[trigger] moved[i]).0 == state.labels[i].0 && (
                state.labels[i].1 is Some ==> moved[i].1 is Some)
            &&& forall|i: int|
                0 <= i < moved.len() && (forall|m: int|
                    0 <= m < count ==> (#[trigger] state.marks[m]).0 != i) ==> #[trigger] moved[i]
                    == state.labels[i]
            &&& forall|m: int|
                #![trigger state.marks[m]]
                0 <= m < count && state.labels[state.marks[m].0 as int].1 is Some ==> {
                    let i = state.marks[m].0 as int;
                    let at = state.labels[i].1->0.position - state.origin;
                    &&& 0 <= at
                    &&& map.contains_key(at as usize)
                    &&& moved[i].1->0.position == map[at as usize] + offset
                }
        }),
    decreases count,
{
    if count > 0 {
        let last = (count - 1) as nat;
        labels_are_relocated(state, last, map, offset);
        let before = state::relocated(state, last, map, offset).0;
        let moved = state::relocated(state, count, map, offset).0;
        let i = state.marks[count - 1].0 as int;
        assert forall|m: int| 0 <= m < last implies (#[trigger] state.marks[m]).0 != i by {
            assert(state.marks[m].0 < state.marks[count - 1].0);
        }
        assert(before[i] == state.labels[i]);
        assert forall|k: int|
            0 <= k < moved.len() && (forall|m: int|
                0 <= m < count ==> (#[trigger] state.marks[m]).0 != k) implies #[trigger] moved[k]
            == state.labels[k] by {
            assert(state.marks[count - 1].0 != k);
            assert(before[k] == state.labels[k]);
        }
    }
}

/// What a GIF file carries: the magic bytes, the headers of the chunks, and the program, in which
/// the pushes that refer to labels have the values that these labels have in the file.
pub proof fn packed_program(
    state: State,
    bytes: Seq<u8>,
    pushes: Seq<PushRefModel>,
    offset: u64,
)
    requires
        placement::in_place(state),
        bytes.len() <= usize::MAX,
        pushes_stand(pushes, bytes),
        state::chunkified(state, bytes, pushes, offset).result is Ok,
    ensures
        ({
            let headers = evmgif::headers_of(bytes);
            let out = state::chunkified(state, bytes, pushes, offset).result->Ok_0;
            let entries = state::chunkified(state, bytes, pushes, offset).state.labels;
            &&& packable(bytes)
            &&& bytes[0] == JUMPDEST
            &&& out.len() == evmgif::packed(bytes).len()
            &&& EVMGIF_MAGIC@.is_prefix_of(out)
            &&& out[10] == JUMPDEST
            &&& forall|i: int, at: int|
                0 <= i < headers.len() && #[trigger] chunk_start(bytes, i) <= at < chunk_start(
                    bytes,
                    i,
                ) + 3 ==> #[trigger] out[at] == evmgif::packed(bytes)[at]
            &&& forall|position: int|
                0 <= position < bytes.len() && !in_immediate(
                    pushes,
                    pushes.len() as int,
                    position,
                ) ==> out[#[trigger] evmgif::chunked_position(headers, position)]
                    == bytes[position]
            &&& forall|j: int|
                0 <= j < pushes.len() ==> immediate_holds(
                    out,
                    bytes,
                    #[trigger] pushes[j],
                    entries,
                    state.macros,
                )
            &&& entries.len() == state.labels.len()
            &&& forall|i: int|
                0 <= i < entries.len() ==> (#[trigger] entries[i]).0 == state.labels[i].0
            &&& forall|m: int|
                #![trigger state.marks[m]]
                0 <= m < state.marks.len() ==> {
                    let position = placement::position_in(state, state.marks[m].1 as int)
                        - state.origin;
                    &&& 0 <= position <= bytes.len()
                    &&& entries[state.marks[m].0 as int].1 is Some
                    &&& entries[state.marks[m].0 as int].1->0.position == evmgif::chunked_position(
                        headers,
                        position,
                    ) + offset
                }
        }),
{
    let headers = evmgif::headers_of(bytes);
    let map = evmgif::map_of(bytes);
    let after = state::chunkified(state, bytes, pushes, offset).state;
    let out = state::chunkified(state, bytes, pushes, offset).result->Ok_0;
    let entries = after.labels;
    headers_are_sound(bytes);
    labels_are_relocated(state, state.marks.len(), map, offset);
    patching_is_exact(after, bytes, pushes, pushes.len());
    output_starts_with_magic(bytes);
    output_len(bytes);
    sizes_count_up_to_the_next_header(bytes, 0);
    // A byte that belongs to no immediate is the one that was packed.
    assert forall|x: int|
        0 <= x < out.len() && (forall|position: int|
            in_immediate(pushes, pushes.len() as int, position)
                ==> #[trigger] evmgif::chunked_position(headers, position) != x) implies #[trigger] out[x]
        == evmgif::packed(bytes)[x] by {
        assert forall|j: int| 0 <= j < pushes.len() implies !(op_position(
            bytes,
            #[trigger] pushes[j],
        ) < x <= op_position(bytes, pushes[j]) + pushes[j].imm_size) by {
            let at = op_position(bytes, pushes[j]);
            if at < x <= at + pushes[j].imm_size {
                let position = pushes[j].unchunked_op_pos + x - at;
                noted_push_is_whole(bytes, pushes, j, position);
                assert(in_immediate(pushes, pushes.len() as int, position));
                assert(evmgif::chunked_position(headers, position) == x);
            }
        }
    }
    assert forall|position: int|
        in_immediate(pushes, pushes.len() as int, position) implies 1 <= position
        < bytes.len() && 12 < #[trigger] evmgif::chunked_position(headers, position) by {
        let j = choose|j: int|
            0 <= j < pushes.len() && (#[trigger] pushes[j]).unchunked_op_pos < position
                <= pushes[j].unchunked_op_pos + pushes[j].imm_size;
        noted_push_is_whole(bytes, pushes, j, position);
        let c = chunk_of(bytes, position);
    }
    assert forall|i: int, at: int|
        0 <= i < headers.len() && #[trigger] chunk_start(bytes, i) <= at < chunk_start(bytes, i)
            + 3 implies #[trigger] out[at] == evmgif::packed(bytes)[at] by {
        chunk_stands(bytes, i);
        assert forall|position: int|
            in_immediate(
                pushes,
                pushes.len() as int,
                position,
            ) implies #[trigger] evmgif::chunked_position(headers, position) != at by {
            headers_stand_apart(bytes, i, at, position);
        }
    }
    assert forall|position: int|
        0 <= position < bytes.len() && !in_immediate(
            pushes,
            pushes.len() as int,
            position,
        ) implies out[#[trigger] evmgif::chunked_position(headers, position)] == bytes[position] by {
        bytes_are_copied(bytes, position);
        let at = evmgif::chunked_position(headers, position);
        assert forall|other: int|
            in_immediate(
                pushes,
                pushes.len() as int,
                other,
            ) implies #[trigger] evmgif::chunked_position(headers, other) != at by {
            if other < position {
                order_is_kept(bytes, other, position);
            } else if position < other {
                order_is_kept(bytes, position, other);
            }
        }
    }
    assert forall|m: int|
        #![trigger state.marks[m]]
        0 <= m < state.marks.len() implies {
        let position = placement::position_in(state, state.marks[m].1 as int) - state.origin;
        &&& 0 <= position <= bytes.len()
        &&& entries[state.marks[m].0 as int].1 is Some
        &&& entries[state.marks[m].0 as int].1->0.position == evmgif::chunked_position(
            headers,
            position,
        ) + offset
    } by {
        let i = state.marks[m].0 as int;
        let position = placement::position_in(state, state.marks[m].1 as int) - state.origin;
        assert(placement::stands_at(
            state.labels,
            i,
            placement::position_in(state, state.marks[m].1 as int),
        ));
        assert(0 <= position);
        map_is_exact(bytes, position as usize);
    }
    assert(EVMGIF_MAGIC@.is_prefix_of(out)) by {
        assert forall|x: int| 0 <= x < 9 implies out[x] == EVMGIF_MAGIC@[x] by {
            assert(out[x] == evmgif::packed(bytes)[x]);
        }
        assert(EVMGIF_MAGIC@ =~= out.subrange(0, 9));
    }
    assert(out[10] == evmgif::packed(bytes)[10]);
}

/// The program `ops` as it is laid out for a GIF file, before it is packed.
pub open spec fn program_of(
    state: State,
    used: nat,
    ops: Seq<RawModel>,
    draws: Seq<u64>,
) -> Seq<u8> {
    let layout = placement::layout_of(state, used, ops, draws);
    state::emitted(layout, layout.ready.len()).1->Ok_0
}

/// The pushes of the program `ops` that refer to labels.
pub open spec fn pushes_of(
    state: State,
    used: nat,
    ops: Seq<RawModel>,
    draws: Seq<u64>,
) -> Seq<PushRefModel> {
    let layout = placement::layout_of(state, used, ops, draws);
    state::emitted(layout, layout.ready.len()).0
}

/// A program that was assembled for a GIF file at `offset`: the output starts with the magic bytes,
/// the entry point stands ten bytes behind them, every byte of the program that belongs to no label
/// is copied, and every push that refers to labels carries the value that its expression has with
/// their positions in the file.
pub proof fn program_in_gif(
    state: State,
    used: nat,
    ops: Seq<RawModel>,
    draws: Seq<u64>,
    offset: u64,
)
    requires
        placement::in_place(state),
        state.offset == Some(offset),
        state::assembled(state, used, ops, draws).result is Ok,
    ensures
        ({
            let bytes = program_of(state, used, ops, draws);
            let pushes = pushes_of(state, used, ops, draws);
            let out = state::assembled(state, used, ops, draws).result->Ok_0;
            let after = state::assembled(state, used, ops, draws).state;
            &&& packable(bytes)
            &&& bytes[0] == JUMPDEST
            &&& out.len() == evmgif::packed(bytes).len()
            &&& EVMGIF_MAGIC@.is_prefix_of(out)
            &&& out[10] == JUMPDEST
            &&& forall|i: int, at: int|
                0 <= i < evmgif::headers_of(bytes).len() && #[trigger] chunk_start(bytes, i) <= at
                    < chunk_start(bytes, i) + 3 ==> #[trigger] out[at] == evmgif::packed(bytes)[at]
            &&& forall|position: int|
                0 <= position < bytes.len() && !in_immediate(
                    pushes,
                    pushes.len() as int,
                    position,
                ) ==> out[#[trigger] evmgif::chunked_position(evmgif::headers_of(bytes), position)]
                    == bytes[position]
            &&& forall|j: int|
                0 <= j < pushes.len() ==> immediate_holds(
                    out,
                    bytes,
                    #[trigger] pushes[j],
                    after.labels,
                    after.macros,
                )
            &&& pushes.len() == 0 ==> out == evmgif::packed(bytes)
        }),
{
    program_is_packed(state, used, ops, draws, offset);
    let layout = placement::layout_of(state, used, ops, draws);
    packed_program(
        layout,
        program_of(state, used, ops, draws),
        pushes_of(state, used, ops, draws),
        offset,
    );
}

/// What is packed is the program as it is laid out.
proof fn program_is_packed(
    state: State,
    used: nat,
    ops: Seq<RawModel>,
    draws: Seq<u64>,
    offset: u64,
)
    requires
        placement::in_place(state),
        state.offset == Some(offset),
        state::assembled(state, used, ops, draws).result is Ok,
    ensures
        ({
            let layout = placement::layout_of(state, used, ops, draws);
            let bytes = program_of(state, used, ops, draws);
            let pushes = pushes_of(state, used, ops, draws);
            let emission = state::chunkified(layout, bytes, pushes, offset);
            &&& placement::in_place(layout)
            &&& layout.origin == state.origin
            &&& bytes.len() <= usize::MAX
            &&& pushes_stand(pushes, bytes)
            &&& emission.result == state::assembled(state, used, ops, draws).result
            &&& emission.state.labels == state::assembled(state, used, ops, draws).state.labels
            &&& emission.state.macros == state::assembled(state, used, ops, draws).state.macros
        }),
{
    placement::program_layout_is_in_place(state, used, ops, draws);
    let layout = placement::layout_of(state, used, ops, draws);
    noted_pushes_stand(layout, layout.ready.len());
}

/// Labels point at what follows them, in a GIF file as well: where a program was assembled for a
/// file at `offset`, the position of each label that it declares is the one where the output of the
/// items behind the label stands in the file.
pub proof fn labels_resolve_in_gif(
    state: State,
    used: nat,
    ops: Seq<RawModel>,
    draws: Seq<u64>,
    offset: u64,
    k: int,
)
    requires
        placement::in_place(state),
        state.offset == Some(offset),
        state::assembled(state, used, ops, draws).result is Ok,
        0 <= k < ops.len(),
        placement::label_of(ops[k]) is Some,
    ensures
        ({
            let bytes = program_of(state, used, ops, draws);
            let front = placement::output_upto(state, used, ops, draws, k as nat);
            let def = labels::label_lookup(
                state::assembled(state, used, ops, draws).state.labels,
                placement::label_of(ops[k])->0,
            );
            &&& front.is_prefix_of(bytes)
            &&& def is Some && def->0 is Some
            &&& def->0->0.position == evmgif::chunked_position(
                evmgif::headers_of(bytes),
                front.len() as int,
            ) + offset
        }),
{
    program_is_packed(state, used, ops, draws, offset);
    let m = placement::mark_of_label(state, used, ops, draws, k);
    label_in_gif(
        placement::layout_of(state, used, ops, draws),
        program_of(state, used, ops, draws),
        pushes_of(state, used, ops, draws),
        offset,
        m,
        state.origin + placement::output_upto(state, used, ops, draws, k as nat).len(),
    );
}

/// The position of a label in a GIF file.
proof fn label_in_gif(
    state: State,
    bytes: Seq<u8>,
    pushes: Seq<PushRefModel>,
    offset: u64,
    m: int,
    position: nat,
)
    requires
        placement::in_place(state),
        bytes.len() <= usize::MAX,
        pushes_stand(pushes, bytes),
        state::chunkified(state, bytes, pushes, offset).result is Ok,
        0 <= m < state.marks.len(),
        placement::stands_at(state.labels, state.marks[m].0 as int, position),
    ensures
        ({
            let def = labels::label_lookup(
                state::chunkified(state, bytes, pushes, offset).state.labels,
                state.labels[state.marks[m].0 as int].0,
            );
            &&& def is Some && def->0 is Some
            &&& def->0->0.position == evmgif::chunked_position(
                evmgif::headers_of(bytes),
                position - state.origin,
            ) + offset
        }),
{
    packed_program(state, bytes, pushes, offset);
    let entries = state::chunkified(state, bytes, pushes, offset).state.labels;
    let i = state.marks[m].0 as int;
    assert(laws::distinct_labels(entries)) by {
        assert forall|i: int, j: int| 0 <= i < j < entries.len() implies (
        #[trigger] entries[i]).0 != (#[trigger] entries[j]).0 by {
            assert(entries[i].0 == state.labels[i].0);
            assert(entries[j].0 == state.labels[j].0);
        }
    }
    assert(entries[i].0 == state.labels[i].0);
    laws::label_found(entries, i);
}

/// Only a program that starts with `JUMPDEST` goes into a GIF file: the error comes if and only if
/// the first byte is another one or missing, and it names the byte.
pub proof fn entry_point_is_required(
    state: State,
    bytes: Seq<u8>,
    pushes: Seq<PushRefModel>,
    offset: u64,
)
    ensures
        ({
            let result = state::chunkified(state, bytes, pushes, offset).result;
            let actual = if bytes.len() == 0 {
                None
            } else {
                Some(bytes[0])
            };
            &&& actual != Some(JUMPDEST) ==> result == Err::<Seq<u8>, FailureModel>(
                FailureModel::Error(ErrorModel::EvmGifFirstNotJumpdest { actual }),
            )
            &&& actual == Some(JUMPDEST) ==> match result {
                Err(FailureModel::Error(ErrorModel::EvmGifFirstNotJumpdest { .. })) => false,
                _ => true,
            }
        }),
{
    let in_gif = state::moved_to_gif(state, bytes, offset);
    patching_asks_for_no_entry_point(
        in_gif.state,
        evmgif::packed(bytes),
        pushes,
        pushes.len(),
        evmgif::map_of(bytes),
    );
}

proof fn patching_asks_for_no_entry_point(
    state: State,
    bytes: Seq<u8>,
    pushes: Seq<PushRefModel>,
    count: nat,
    map: Map<usize, usize>,
)
    ensures
        match state::patched(state, bytes, pushes, count, map) {
            Err(FailureModel::Error(ErrorModel::EvmGifFirstNotJumpdest { .. })) => false,
            _ => true,
        },
    decreases count,
{
    if count > 0 {
        patching_asks_for_no_entry_point(state, bytes, pushes, (count - 1) as nat, map);
    }
}

/// Whether the value of `push` outgrows it.
pub open spec fn outgrows(state: State, push: PushRefModel) -> bool {
    match encode::value_of(push.expr, state.labels, state.macros) {
        Ok(value) => value >= 0 && integer::be_bytes(value as nat).len() > push.imm_size,
        Err(_) => false,
    }
}

/// Whether `push` gets a new immediate in an output of `len` bytes.
pub open spec fn is_patchable(
    state: State,
    push: PushRefModel,
    map: Map<usize, usize>,
    len: int,
) -> bool {
    match encode::value_of(push.expr, state.labels, state.macros) {
        Ok(value) => {
            &&& value >= 0
            &&& !outgrows(state, push)
            &&& push.unchunked_op_pos <= usize::MAX
            &&& map.contains_key(push.unchunked_op_pos as usize)
            &&& map[push.unchunked_op_pos as usize] + 1 + push.imm_size <= len
        },
        Err(_) => false,
    }
}

/// Why `push` gets no new immediate.
pub open spec fn patch_failure(state: State, push: PushRefModel) -> FailureModel {
    match encode::value_of(push.expr, state.labels, state.macros) {
        Err(error) => state::encoding_failure(
            push.expr,
            EncodeErrorModel::NoValue(error),
            state.undeclared,
        ),
        Ok(value) => if value < 0 {
            FailureModel::Error(ErrorModel::ExpressionNegative { expr: push.expr, value })
        } else if outgrows(state, push) {
            FailureModel::Error(
                ErrorModel::EvmGifPushOverflow {
                    expr: push.expr,
                    value,
                    push_size: push.imm_size,
                },
            )
        } else {
            FailureModel::Fault(Fault::PushInsideInstruction)
        },
    }
}

/// Whether the push at index `j` is the first one of the first `count` that gets no new immediate.
pub open spec fn first_unpatchable(
    state: State,
    pushes: Seq<PushRefModel>,
    count: nat,
    map: Map<usize, usize>,
    len: int,
    j: int,
) -> bool {
    &&& 0 <= j < count
    &&& !is_patchable(state, pushes[j], map, len)
    &&& forall|i: int| 0 <= i < j ==> is_patchable(state, #[trigger] pushes[i], map, len)
}

/// Patching succeeds if and only if every push gets a new immediate; otherwise it fails as the
/// first one does that gets none. So a push that its value outgrows is reported if and only if it
/// is that one.
pub proof fn first_unpatchable_decides(
    state: State,
    bytes: Seq<u8>,
    pushes: Seq<PushRefModel>,
    count: nat,
    map: Map<usize, usize>,
)
    requires
        count <= pushes.len(),
    ensures
        match state::patched(state, bytes, pushes, count, map) {
            Ok(out) => {
                &&& out.len() == bytes.len()
                &&& forall|i: int|
                    0 <= i < count ==> is_patchable(
                        state,
                        #[trigger] pushes[i],
                        map,
                        bytes.len() as int,
                    )
            },
            Err(failure) => exists|j: int| #[trigger]
                first_unpatchable(state, pushes, count, map, bytes.len() as int, j) && failure
                    == patch_failure(state, pushes[j]),
        },
    decreases count,
{
    if count > 0 {
        let last = (count - 1) as nat;
        let len = bytes.len() as int;
        first_unpatchable_decides(state, bytes, pushes, last, map);
        match state::patched(state, bytes, pushes, last, map) {
            Ok(_) => {
                if !is_patchable(state, pushes[count - 1], map, len) {
                    assert(first_unpatchable(state, pushes, count, map, len, count - 1));
                }
            },
            Err(failure) => {
                let j = choose|j: int| #[trigger]
                    first_unpatchable(state, pushes, last, map, len, j) && failure
                        == patch_failure(state, pushes[j]);
                assert(first_unpatchable(state, pushes, count, map, len, j));
            },
        }
    }
}

/// A push whose value outgrows it in a GIF file is refused: where every push in front of it gets
/// its value, the error names the push, its value and its size.
pub proof fn push_overflow_is_reported(
    state: State,
    bytes: Seq<u8>,
    pushes: Seq<PushRefModel>,
    offset: u64,
    j: int,
)
    requires
        state::moved_to_gif(state, bytes, offset).failure is None,
        first_unpatchable(
            state::moved_to_gif(state, bytes, offset).state,
            pushes,
            pushes.len(),
            evmgif::map_of(bytes),
            evmgif::packed(bytes).len() as int,
            j,
        ),
    ensures
        ({
            let in_gif = state::moved_to_gif(state, bytes, offset).state;
            let result = state::chunkified(state, bytes, pushes, offset).result;
            &&& result == Err::<Seq<u8>, FailureModel>(patch_failure(in_gif, pushes[j]))
            &&& outgrows(in_gif, pushes[j]) <==> (result->Err_0 is Error
                && result->Err_0->Error_0 is EvmGifPushOverflow)
        }),
{
    let in_gif = state::moved_to_gif(state, bytes, offset).state;
    let map = evmgif::map_of(bytes);
    let len = evmgif::packed(bytes).len() as int;
    first_unpatchable_decides(in_gif, evmgif::packed(bytes), pushes, pushes.len(), map);
    match state::patched(in_gif, evmgif::packed(bytes), pushes, pushes.len(), map) {
        Ok(_) => {
            assert(is_patchable(in_gif, pushes[j], map, len));
        },
        Err(failure) => {
            let k = choose|k: int| #[trigger]
                first_unpatchable(in_gif, pushes, pushes.len(), map, len, k) && failure
                    == patch_failure(in_gif, pushes[k]);
            if k < j {
                assert(is_patchable(in_gif, pushes[k], map, len));
            } else if j < k {
                assert(is_patchable(in_gif, pushes[j], map, len));
            }
        },
    }
}

/// The pushes that are noted have the width that there is room for.
proof fn noted_pushes_fill_their_room(state: State, count: nat)
    requires
        placement::well_formed(state),
        count <= state.ready.len(),
    ensures
        forall|j: int|
            #![trigger state::emitted(state, count).0[j]]
            0 <= j < state::emitted(state, count).0.len() && state::emitted(
                state,
                count,
            ).0[j].resizable ==> state::emitted(state, count).0[j].imm_size + 1
                == state.sizes[state::emitted(state, count).0[j].item as int],
    decreases count,
{
    if count > 0 {
        noted_pushes_fill_their_room(state, (count - 1) as nat);
        assert(placement::has_room(state, count - 1));
        match state.ready[count - 1] {
            ItemModel::Instruction(op) => {
                let room = state.sizes[count - 1];
                if encode::expression_in(op) is Some && encode::encoding_in(
                    op,
                    room,
                    state.labels,
                    state.macros,
                ) is Ok {
                    laws::roomy_pushes_carry_their_value(op, room, state.labels, state.macros);
                }
            },
            _ => {},
        }
    }
}

/// Where no push is widened, each has the room that it needs.
proof fn unwidened_pushes_have_room(state: State, pushes: Seq<PushRefModel>, count: nat)
    requires
        count <= pushes.len(),
        state::sizes_widened(state, pushes, count) == state.sizes,
    ensures
        forall|j: int|
            #![trigger pushes[j]]
            0 <= j < count && pushes[j].resizable && pushes[j].item < state.sizes.len()
                ==> match encode::value_of(pushes[j].expr, state.labels, state.macros) {
                Ok(value) => 1 + encode::width_needed(value)
                    <= state.sizes[pushes[j].item as int],
                Err(_) => true,
            },
    decreases count,
{
    if count > 0 {
        let last = (count - 1) as nat;
        let before = state::sizes_widened(state, pushes, last);
        state::widening_for_gif_grows(state, pushes, last);
        let push = pushes[count - 1];
        assert(before == state.sizes) by {
            match encode::value_of(push.expr, state.labels, state.macros) {
                Ok(value) => {
                    let room = 1 + encode::width_needed(value);
                    let i = push.item as int;
                    if push.resizable && push.item < before.len() && before[i] < room {
                        assert(state::sizes_widened(state, pushes, count)[i] == room);
                        assert(before[i] == state.sizes[i] || state.sizes[i] < before[i] <= 33);
                    }
                },
                Err(_) => {},
            }
        }
        unwidened_pushes_have_room(state, pushes, last);
    }
}

/// A `%push` is wide enough for its value in a GIF file: it overflows only where no push is wide
/// enough, that is, where the value takes up more than 32 bytes.
pub proof fn unsized_pushes_overflow_nowhere(
    state: State,
    bytes: Seq<u8>,
    offset: u64,
    j: int,
)
    requires
        placement::in_place(state),
        state.offset == Some(offset),
        state::laid_out(state).failure is None,
        ({
            let layout = state::laid_out(state).state;
            let (pushes, output) = state::emitted(layout, layout.ready.len());
            &&& output == Ok::<Seq<u8>, FailureModel>(bytes)
            &&& state::moved_to_gif(layout, bytes, offset).failure is None
            &&& 0 <= j < pushes.len()
            &&& pushes[j].resizable
        }),
    ensures
        ({
            let layout = state::laid_out(state).state;
            let push = state::emitted(layout, layout.ready.len()).0[j];
            let in_gif = state::moved_to_gif(layout, bytes, offset).state;
            outgrows(in_gif, push) ==> integer::be_bytes(
                encode::value_of(push.expr, in_gif.labels, in_gif.macros)->Ok_0 as nat,
            ).len() > 32
        }),
{
    let layout = state::laid_out(state).state;
    let pushes = state::emitted(layout, layout.ready.len()).0;
    let in_gif = state::moved_to_gif(layout, bytes, offset).state;
    placement::laying_out_is_in_place(state);
    placement::pushes_have_room_in_gif(state, bytes, offset);
    placement::noted_pushes_are_items(layout, layout.ready.len());
    noted_pushes_fill_their_room(layout, layout.ready.len());
    unwidened_pushes_have_room(in_gif, pushes, pushes.len());
    assert(pushes[j].item < layout.ready.len());
    assert(pushes[j].imm_size + 1 == layout.sizes[pushes[j].item as int]);
}

/// A value outgrows a push if and only if it is no less than 256 to the power of the width.
pub proof fn pushes_are_outgrown_by_value(state: State, push: PushRefModel)
    requires
        push.imm_size > 0,
    ensures
        outgrows(state, push) <==> match encode::value_of(push.expr, state.labels, state.macros) {
            Ok(value) => value >= power::pow(256, push.imm_size),
            Err(_) => false,
        },
{
    power::lemma_pow_positive(256, push.imm_size);
    match encode::value_of(push.expr, state.labels, state.macros) {
        Ok(value) => {
            if value >= 0 {
                refusals::width_bounds_value(value as nat, push.imm_size);
            }
        },
        Err(_) => {},
    }
}

} // verus!
