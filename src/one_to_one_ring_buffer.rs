use vstd::prelude::*;

use crate::atomic_buffer::AtomicBuffer;
use crate::bit_util::{align, is_pow2, spec_align};
use crate::record_descriptor::{
    check_type_id, encoded_msg_offset, length_offset, type_offset, ALIGNMENT, HEADER_LENGTH,
};
use crate::ring_buffer::{Action, RingBuffer, INSUFFICIENT_CAPACITY, PADDING_MSG_TYPE_ID};
use crate::ring_buffer_descriptor::{
    check_capacity, CONSUMER_HEARTBEAT_OFFSET, CORRELATION_COUNTER_OFFSET,
    HEAD_CACHE_POSITION_OFFSET, HEAD_POSITION_OFFSET, TAIL_POSITION_OFFSET, TRAILER_LENGTH,
};
use crate::unsafe_buffer::{
    i32_at, i32_bytes, i64_at, i64_bytes, lemma_i32_round_trip, lemma_i64_round_trip,
    write_bytes, UnsafeBuffer,
};

verus! {

/// Smallest data capacity: room for two record headers.
pub const MIN_CAPACITY: i32 = HEADER_LENGTH * 2;

/// Largest payload accepted by a buffer of data capacity `c`.
pub open spec fn spec_max_msg_length(c: int) -> int {
    if c == MIN_CAPACITY {
        0
    } else if c / 8 > HEADER_LENGTH {
        c / 8
    } else {
        HEADER_LENGTH as int
    }
}

/// The cursor fields of a trailer that follows `c` data bytes are consistent:
/// the cached head trails the head, which trails the tail by at most `c`.
pub open spec fn cursors_ok(bytes: Seq<u8>, c: int) -> bool {
    let tail = i64_at(bytes, c + TAIL_POSITION_OFFSET);
    let head_cache = i64_at(bytes, c + HEAD_CACHE_POSITION_OFFSET);
    let head = i64_at(bytes, c + HEAD_POSITION_OFFSET);
    &&& 0 <= head_cache <= head <= tail <= head_cache + c
    &&& tail % 8 == 0
    &&& head % 8 == 0
    &&& head_cache % 8 == 0
}

/// A power of two of at least eight is a multiple of eight.
pub proof fn lemma_pow2_multiple_of_eight(c: int)
    requires
        is_pow2(c),
        c >= 8,
    ensures
        c % 8 == 0,
{
    reveal_with_fuel(is_pow2, 4);
}

/// A multiple of eight stays one modulo a multiple of eight.
pub proof fn lemma_mod_of_multiple_of_eight(x: int, c: int)
    requires
        x >= 0,
        x % 8 == 0,
        c > 0,
        c % 8 == 0,
    ensures
        (x % c) % 8 == 0,
{
    vstd::arithmetic::div_mod::lemma_fundamental_div_mod(x, c);
    let q = x / c;
    let k = c / 8;
    assert(c * q == (k * q) * 8) by (nonlinear_arith)
        requires
            c == 8 * k,
    ;
    vstd::arithmetic::div_mod::lemma_mod_multiples_basic(k * q, 8);
    vstd::arithmetic::div_mod::lemma_mod_bound(x, c);
}

/// There is room for a record of aligned length `alen`, plus the header that follows it,
/// between `tail` and `head` in a region of `c` bytes.
pub open spec fn fits(c: int, tail: int, head: int, alen: int) -> bool {
    alen + HEADER_LENGTH <= c - (tail - head)
}

/// A record of aligned length `alen` at `tail` does not fit before the end of the region,
/// so it goes to offset zero behind a padding record.
pub open spec fn wraps(c: int, tail: int, alen: int) -> bool {
    let to_end = c - tail % c;
    alen != to_end && alen + HEADER_LENGTH > to_end
}

/// The head position on which a claim decides: the cached one where it suffices,
/// else the consumer's own. The cache holds it after a successful claim.
pub open spec fn claim_head(c: int, tail: int, head_cache: int, head: int, alen: int) -> int {
    if fits(c, tail, head_cache, alen) && (!wraps(c, tail, alen) || alen + HEADER_LENGTH
        <= head_cache % c) {
        head_cache
    } else {
        head
    }
}

/// The tail after a claim of aligned length `alen`, padding included.
pub open spec fn claim_tail(c: int, tail: int, alen: int) -> int {
    if wraps(c, tail, alen) {
        tail + alen + (c - tail % c)
    } else {
        tail + alen
    }
}

/// Where the claimed record starts.
pub open spec fn claim_index(c: int, tail: int, alen: int) -> int {
    if wraps(c, tail, alen) {
        0
    } else {
        tail % c
    }
}

/// A claim of aligned length `alen` succeeds.
pub open spec fn claim_succeeds(c: int, tail: int, head_cache: int, head: int, alen: int) -> bool {
    let h = claim_head(c, tail, head_cache, head, alen);
    &&& fits(c, tail, h, alen)
    &&& (!wraps(c, tail, alen) || alen + HEADER_LENGTH <= h % c)
    &&& claim_tail(c, tail, alen) <= i64::MAX
}

/// The region after the space for a record of aligned length `alen` has been reserved:
/// the tail advanced, the head cache refreshed to `head`, a padding record written
/// where the record wraps, and the header after the record zeroed.
pub open spec fn reserved_bytes(bytes: Seq<u8>, c: int, tail: int, head: int, alen: int) -> Seq<
    u8,
> {
    let idx = tail % c;
    let b1 = write_bytes(bytes, c + TAIL_POSITION_OFFSET, i64_bytes(claim_tail(c, tail, alen) as i64));
    let b2 = write_bytes(b1, c + HEAD_CACHE_POSITION_OFFSET, i64_bytes(head as i64));
    let b3 = if wraps(c, tail, alen) {
        write_bytes(
            write_bytes(b2, idx, i32_bytes((c - idx) as i32)),
            idx + 4,
            i32_bytes(PADDING_MSG_TYPE_ID),
        )
    } else {
        b2
    };
    write_bytes(b3, next_record_index(c, claim_index(c, tail, alen) + alen), i64_bytes(0))
}

/// The offset of the record that follows one ending at `end`.
pub open spec fn next_record_index(c: int, end: int) -> int {
    if end == c {
        0
    } else {
        end
    }
}

/// The region after a claim of a `length`-byte message of type `msg_type_id` that reserved
/// room at `idx`: its header holds the negated record length and the type.
pub open spec fn claimed_bytes(reserved: Seq<u8>, idx: int, msg_type_id: i32, length: int) -> Seq<u8> {
    write_bytes(
        write_bytes(reserved, idx, i32_bytes(-(length + HEADER_LENGTH) as i32)),
        idx + 4,
        i32_bytes(msg_type_id),
    )
}

/// The region after a write of `payload` with type `msg_type_id` that reserved room at
/// `idx`: the payload copied in and the header published with the record length.
pub open spec fn written_bytes(reserved: Seq<u8>, idx: int, msg_type_id: i32, payload: Seq<u8>) -> Seq<u8> {
    let rl = payload.len() + HEADER_LENGTH;
    write_bytes(
        write_bytes(
            write_bytes(write_bytes(reserved, idx, i32_bytes(-rl as i32)), idx + HEADER_LENGTH, payload),
            idx + 4,
            i32_bytes(msg_type_id),
        ),
        idx,
        i32_bytes(rl as i32),
    )
}

/// The region after the claimed record whose payload starts at `index` is published.
pub open spec fn committed_bytes(bytes: Seq<u8>, index: int) -> Seq<u8> {
    write_bytes(bytes, index - HEADER_LENGTH, i32_bytes(-i32_at(bytes, index - HEADER_LENGTH) as i32))
}

/// The region after the claimed record whose payload starts at `index` is turned into
/// padding and published.
pub open spec fn aborted_bytes(bytes: Seq<u8>, index: int) -> Seq<u8> {
    write_bytes(
        write_bytes(bytes, index - 4, i32_bytes(PADDING_MSG_TYPE_ID)),
        index - HEADER_LENGTH,
        i32_bytes(-i32_at(bytes, index - HEADER_LENGTH) as i32),
    )
}

/// Aligned length of a record with a payload of `length` bytes.
pub open spec fn aligned_record_length(length: int) -> int {
    spec_align(length + HEADER_LENGTH, ALIGNMENT as int)
}

/// The 32-bit length field at `index` marks a claimed record that is not yet published.
pub open spec fn is_claimed(bytes: Seq<u8>, index: int) -> bool {
    i32::MIN < i32_at(bytes, index) < 0
}

/// A message as a reader hands it to its handler: type id, payload offset, payload length.
pub type Delivery = (i32, i32, i32);

/// The length field of the record at `idx`.
pub open spec fn record_len_at(bytes: Seq<u8>, idx: int) -> int {
    i32_at(bytes, idx) as int
}

/// The reader stops at a record that is unpublished, empty, or runs past the readable block.
pub open spec fn scan_stops_at(bytes: Seq<u8>, idx: int, room: int) -> bool {
    record_len_at(bytes, idx) <= 0 || spec_align(record_len_at(bytes, idx), 8) > room
}

/// The delivery of the message record at `idx`.
pub open spec fn delivery_at(bytes: Seq<u8>, idx: int) -> Delivery {
    (
        i32_at(bytes, idx + 4),
        (idx + HEADER_LENGTH) as i32,
        (record_len_at(bytes, idx) - HEADER_LENGTH) as i32,
    )
}

/// A read of at most `limit` messages over the `block` bytes from `start`, having consumed
/// `done` bytes and delivered `msgs` so far: the bytes it consumes in all and the messages
/// it delivers, in order. Padding records are consumed and not delivered.
pub open spec fn scan(
    bytes: Seq<u8>,
    start: int,
    block: int,
    limit: int,
    done: int,
    msgs: Seq<Delivery>,
) -> (int, Seq<Delivery>)
    decreases block - done,
{
    if done >= block || msgs.len() >= limit || scan_stops_at(bytes, start + done, block - done) {
        (done, msgs)
    } else {
        let idx = start + done;
        let next = done + spec_align(record_len_at(bytes, idx), 8);
        if i32_at(bytes, idx + 4) == PADDING_MSG_TYPE_ID {
            scan(bytes, start, block, limit, next, msgs)
        } else {
            scan(bytes, start, block, limit, next, msgs.push(delivery_at(bytes, idx)))
        }
    }
}

/// A controlled read, as `scan`, where the handler answered the `j`-th message it was given
/// with `acts[j]`: the bytes it consumes, the messages it counts as read, and the messages
/// handed to the handler.
pub open spec fn controlled_scan(
    bytes: Seq<u8>,
    start: int,
    block: int,
    limit: int,
    acts: Seq<Action>,
    done: int,
    count: int,
    msgs: Seq<Delivery>,
) -> (int, int, Seq<Delivery>)
    decreases block - done,
{
    if done >= block || count >= limit || scan_stops_at(bytes, start + done, block - done) {
        (done, count, msgs)
    } else {
        let idx = start + done;
        let next = done + spec_align(record_len_at(bytes, idx), 8);
        if i32_at(bytes, idx + 4) == PADDING_MSG_TYPE_ID {
            controlled_scan(bytes, start, block, limit, acts, next, count, msgs)
        } else {
            let m = delivery_at(bytes, idx);
            let a = acts[msgs.len() as int];
            if a == Action::ABORT {
                (done, count, msgs.push(m))
            } else if a == Action::BREAK {
                (next, count + 1, msgs.push(m))
            } else {
                controlled_scan(bytes, start, block, limit, acts, next, count + 1, msgs.push(m))
            }
        }
    }
}

/// The region after the consumer has consumed `consumed` bytes from `head`.
pub open spec fn consumed_bytes(bytes: Seq<u8>, c: int, head: int, consumed: int) -> Seq<u8> {
    if consumed > 0 {
        write_bytes(bytes, c + HEAD_POSITION_OFFSET, i64_bytes((head + consumed) as i64))
    } else {
        bytes
    }
}

/// `longer` starts with `acts`.
pub open spec fn extends(longer: Seq<Action>, acts: Seq<Action>) -> bool {
    longer.len() >= acts.len() && longer.subrange(0, acts.len() as int) == acts
}

/// A controlled read that has consumed `done` bytes, counted `count` messages and handed
/// over `msgs`, answered with `acts`, ends as one started afresh would, whatever the
/// handler answers next.
#[verifier::opaque]
pub open spec fn controlled_progress(
    bytes: Seq<u8>,
    start: int,
    block: int,
    limit: int,
    acts: Seq<Action>,
    done: int,
    count: int,
    msgs: Seq<Delivery>,
) -> bool {
    forall|longer: Seq<Action>| #[trigger]
        extends(longer, acts) ==> controlled_scan(
            bytes,
            start,
            block,
            limit,
            longer,
            0,
            0,
            Seq::empty(),
        ) == controlled_scan(bytes, start, block, limit, longer, done, count, msgs)
}

/// `func` may answer `a` when given message `m` in a buffer whose data region is `data`.
pub open spec fn answers<F: Fn(i32, &UnsafeBuffer, i32, i32) -> Action>(
    func: F,
    m: Delivery,
    a: Action,
    data: Seq<u8>,
) -> bool {
    exists|b: UnsafeBuffer|
        b@.subrange(0, data.len() as int) == data && #[trigger] func.ensures((m.0, &b, m.1, m.2), a)
}

/// One step of a plain read: past a padding record, or past a message it hands over.
proof fn lemma_scan_step(bytes: Seq<u8>, start: int, block: int, limit: int, done: int, msgs: Seq<Delivery>)
    requires
        done < block,
        msgs.len() < limit,
        !scan_stops_at(bytes, start + done, block - done),
    ensures
        scan(bytes, start, block, limit, done, msgs) == if i32_at(bytes, start + done + 4)
            == PADDING_MSG_TYPE_ID {
            scan(bytes, start, block, limit, done + spec_align(record_len_at(bytes, start + done), 8), msgs)
        } else {
            scan(
                bytes,
                start,
                block,
                limit,
                done + spec_align(record_len_at(bytes, start + done), 8),
                msgs.push(delivery_at(bytes, start + done)),
            )
        },
{
}

/// A plain read that can go no further ends where it stands.
proof fn lemma_scan_end(bytes: Seq<u8>, start: int, block: int, limit: int, done: int, msgs: Seq<Delivery>)
    requires
        done >= block || msgs.len() >= limit || scan_stops_at(bytes, start + done, block - done),
    ensures
        scan(bytes, start, block, limit, done, msgs) == (done, msgs),
{
}

/// A controlled read steps over a padding record.
proof fn lemma_controlled_skip(
    bytes: Seq<u8>,
    start: int,
    block: int,
    limit: int,
    acts: Seq<Action>,
    done: int,
    count: int,
    msgs: Seq<Delivery>,
)
    requires
        controlled_progress(bytes, start, block, limit, acts, done, count, msgs),
        done < block,
        count < limit,
        !scan_stops_at(bytes, start + done, block - done),
        i32_at(bytes, start + done + 4) == PADDING_MSG_TYPE_ID,
    ensures
        controlled_progress(
            bytes,
            start,
            block,
            limit,
            acts,
            done + spec_align(record_len_at(bytes, start + done), 8),
            count,
            msgs,
        ),
{
    reveal(controlled_progress);
}

/// A controlled read hands over a message whose answer `a` lets it go on.
proof fn lemma_controlled_deliver(
    bytes: Seq<u8>,
    start: int,
    block: int,
    limit: int,
    acts: Seq<Action>,
    done: int,
    count: int,
    msgs: Seq<Delivery>,
    a: Action,
)
    requires
        controlled_progress(bytes, start, block, limit, acts, done, count, msgs),
        acts.len() == msgs.len(),
        done < block,
        count < limit,
        !scan_stops_at(bytes, start + done, block - done),
        i32_at(bytes, start + done + 4) != PADDING_MSG_TYPE_ID,
        a == Action::COMMIT || a == Action::CONTINUE,
    ensures
        controlled_progress(
            bytes,
            start,
            block,
            limit,
            acts.push(a),
            done + spec_align(record_len_at(bytes, start + done), 8),
            count + 1,
            msgs.push(delivery_at(bytes, start + done)),
        ),
{
    reveal(controlled_progress);
    let acts1 = acts.push(a);
    assert forall|longer: Seq<Action>| #[trigger] extends(longer, acts1) implies controlled_scan(
        bytes,
        start,
        block,
        limit,
        longer,
        0,
        0,
        Seq::empty(),
    ) == controlled_scan(
        bytes,
        start,
        block,
        limit,
        longer,
        done + spec_align(record_len_at(bytes, start + done), 8),
        count + 1,
        msgs.push(delivery_at(bytes, start + done)),
    ) by {
        assert(longer.subrange(0, acts.len() as int) =~= acts1.subrange(0, acts.len() as int));
        assert(acts1.subrange(0, acts.len() as int) =~= acts);
        assert(extends(longer, acts));
        assert(longer[acts.len() as int] == longer.subrange(0, acts1.len() as int)[acts.len() as int]);
    }
}

/// A controlled read ends on a message whose answer `a` stops it.
proof fn lemma_controlled_stop_on(
    bytes: Seq<u8>,
    start: int,
    block: int,
    limit: int,
    acts: Seq<Action>,
    done: int,
    count: int,
    msgs: Seq<Delivery>,
    a: Action,
)
    requires
        controlled_progress(bytes, start, block, limit, acts, done, count, msgs),
        acts.len() == msgs.len(),
        done < block,
        count < limit,
        !scan_stops_at(bytes, start + done, block - done),
        i32_at(bytes, start + done + 4) != PADDING_MSG_TYPE_ID,
        a == Action::ABORT || a == Action::BREAK,
    ensures
        controlled_scan(bytes, start, block, limit, acts.push(a), 0, 0, Seq::empty()) == (
            if a == Action::ABORT {
                (done, count, msgs.push(delivery_at(bytes, start + done)))
            } else {
                (
                    done + spec_align(record_len_at(bytes, start + done), 8),
                    count + 1,
                    msgs.push(delivery_at(bytes, start + done)),
                )
            }
        ),
{
    reveal(controlled_progress);
    let acts1 = acts.push(a);
    assert(acts1.subrange(0, acts.len() as int) =~= acts);
    assert(extends(acts1, acts));
}

/// A controlled read that can go no further ends where it stands.
proof fn lemma_controlled_end(
    bytes: Seq<u8>,
    start: int,
    block: int,
    limit: int,
    acts: Seq<Action>,
    done: int,
    count: int,
    msgs: Seq<Delivery>,
)
    requires
        controlled_progress(bytes, start, block, limit, acts, done, count, msgs),
        done >= block || count >= limit || scan_stops_at(bytes, start + done, block - done),
    ensures
        controlled_scan(bytes, start, block, limit, acts, 0, 0, Seq::empty()) == (done, count, msgs),
{
    reveal(controlled_progress);
    assert(acts.subrange(0, acts.len() as int) =~= acts);
    assert(extends(acts, acts));
}

/// `func` may have answered each message of `msgs` with the matching action of `acts`.
#[verifier::opaque]
pub open spec fn all_answered<F: Fn(i32, &UnsafeBuffer, i32, i32) -> Action>(
    func: F,
    msgs: Seq<Delivery>,
    acts: Seq<Action>,
    data: Seq<u8>,
) -> bool {
    forall|j: int| 0 <= j < acts.len() ==> answers(func, msgs[j], acts[j], data)
}

proof fn lemma_answered_push<F: Fn(i32, &UnsafeBuffer, i32, i32) -> Action>(
    func: F,
    msgs: Seq<Delivery>,
    acts: Seq<Action>,
    data: Seq<u8>,
    m: Delivery,
    a: Action,
)
    requires
        acts.len() == msgs.len(),
        all_answered(func, msgs, acts, data),
        answers(func, m, a, data),
    ensures
        all_answered(func, msgs.push(m), acts.push(a), data),
{
    reveal(all_answered);
    assert forall|j: int| 0 <= j < acts.push(a).len() implies answers(
        func,
        msgs.push(m)[j],
        acts.push(a)[j],
        data,
    ) by {
        if j < acts.len() {
            assert(msgs.push(m)[j] == msgs[j] && acts.push(a)[j] == acts[j]);
        }
    }
}

proof fn lemma_overwrite(s: Seq<u8>, at: int, t1: Seq<u8>, t2: Seq<u8>)
    requires
        t1.len() == t2.len(),
    ensures
        write_bytes(write_bytes(s, at, t1), at, t2) == write_bytes(s, at, t2),
{
    assert(write_bytes(write_bytes(s, at, t1), at, t2) =~= write_bytes(s, at, t2));
}

proof fn lemma_i64_frame(s: Seq<u8>, at: int, t: Seq<u8>, i: int)
    requires
        0 <= i,
        i + 8 <= s.len(),
        at + t.len() <= i || i + 8 <= at,
    ensures
        i64_at(write_bytes(s, at, t), i) == i64_at(s, i),
{
    reveal(i64_at);
    let w = write_bytes(s, at, t);
    assert(w[i] == s[i] && w[i + 1] == s[i + 1] && w[i + 2] == s[i + 2] && w[i + 3] == s[i + 3]
        && w[i + 4] == s[i + 4] && w[i + 5] == s[i + 5] && w[i + 6] == s[i + 6] && w[i + 7] == s[i
        + 7]);
}

proof fn lemma_i32_frame(s: Seq<u8>, at: int, t: Seq<u8>, i: int)
    requires
        0 <= i,
        i + 4 <= s.len(),
        at + t.len() <= i || i + 4 <= at,
    ensures
        i32_at(write_bytes(s, at, t), i) == i32_at(s, i),
{
    reveal(i32_at);
    let w = write_bytes(s, at, t);
    assert(w[i] == s[i] && w[i + 1] == s[i + 1] && w[i + 2] == s[i + 2] && w[i + 3] == s[i + 3]);
}

/// When a record that fits must wrap, the head lies in the tail's lap, at or before it.
proof fn lemma_wrap_same_lap(c: int, tail: int, head: int, alen: int)
    requires
        c > 0,
        0 <= head <= tail,
        fits(c, tail, head, alen),
        alen + HEADER_LENGTH > c - tail % c,
    ensures
        head % c <= tail % c,
        tail + (c - tail % c) - head == c - head % c,
{
    vstd::arithmetic::div_mod::lemma_fundamental_div_mod(tail, c);
    vstd::arithmetic::div_mod::lemma_fundamental_div_mod(head, c);
    vstd::arithmetic::div_mod::lemma_mod_bound(tail, c);
    vstd::arithmetic::div_mod::lemma_mod_bound(head, c);
    let qt = tail / c;
    let qh = head / c;
    assert(qt == qh) by (nonlinear_arith)
        requires
            tail == c * qt + tail % c,
            head == c * qh + head % c,
            0 <= tail % c < c,
            0 <= head % c < c,
            tail - head < tail % c,
            head <= tail,
            c > 0,
    ;
}

/// The arithmetic of a successful claim: where its writes land and how the cursors move.
proof fn lemma_claim_arith(c: int, tail: int, hc: int, head: int, alen: int)
    requires
        c >= MIN_CAPACITY,
        c % 8 == 0,
        0 <= hc <= head <= tail <= hc + c,
        tail % 8 == 0,
        head % 8 == 0,
        hc % 8 == 0,
        alen >= 8,
        alen % 8 == 0,
        claim_succeeds(c, tail, hc, head, alen),
    ensures
        ({
            let h = claim_head(c, tail, hc, head, alen);
            let nt = claim_tail(c, tail, alen);
            let z = next_record_index(c, claim_index(c, tail, alen) + alen);
            &&& 0 <= tail % c
            &&& tail % c + 8 <= c
            &&& 0 <= z
            &&& z + 8 <= c
            &&& 0 <= claim_index(c, tail, alen)
            &&& claim_index(c, tail, alen) + alen <= c
            &&& 0 <= h <= head <= nt <= h + c
            &&& nt % 8 == 0
            &&& h % 8 == 0
            &&& nt <= i64::MAX
            &&& wraps(c, tail, alen) ==> alen + HEADER_LENGTH <= tail % c
        }),
{
    lemma_mod_of_multiple_of_eight(tail, c);
    vstd::arithmetic::div_mod::lemma_mod_bound(tail, c);
    let h = claim_head(c, tail, hc, head, alen);
    if wraps(c, tail, alen) {
        lemma_wrap_same_lap(c, tail, h, alen);
        vstd::arithmetic::div_mod::lemma_mod_bound(h, c);
    }
}

/// The padding and zeroing writes of a reservation stay inside the data region.
proof fn lemma_data_writes_keep_trailer(b2: Seq<u8>, c: int, tail: int, alen: int, k: int)
    requires
        b2.len() == c + TRAILER_LENGTH,
        c <= k,
        k + 8 <= c + TRAILER_LENGTH,
        0 <= tail % c,
        tail % c + 8 <= c,
        0 <= next_record_index(c, claim_index(c, tail, alen) + alen),
        next_record_index(c, claim_index(c, tail, alen) + alen) + 8 <= c,
    ensures
        ({
            let idx = tail % c;
            let b3 = if wraps(c, tail, alen) {
                write_bytes(
                    write_bytes(b2, idx, i32_bytes((c - idx) as i32)),
                    idx + 4,
                    i32_bytes(PADDING_MSG_TYPE_ID),
                )
            } else {
                b2
            };
            let w = write_bytes(b3, next_record_index(c, claim_index(c, tail, alen) + alen), i64_bytes(0));
            i64_at(w, k) == i64_at(b2, k)
        }),
{
    let idx = tail % c;
    let b3 = if wraps(c, tail, alen) {
        let with_len = write_bytes(b2, idx, i32_bytes((c - idx) as i32));
        lemma_i64_frame(b2, idx, i32_bytes((c - idx) as i32), k);
        lemma_i64_frame(with_len, idx + 4, i32_bytes(PADDING_MSG_TYPE_ID), k);
        write_bytes(with_len, idx + 4, i32_bytes(PADDING_MSG_TYPE_ID))
    } else {
        b2
    };
    lemma_i64_frame(b3, next_record_index(c, claim_index(c, tail, alen) + alen), i64_bytes(0), k);
}

/// What a successful reservation leaves in the trailer: the new tail, the head it
/// decided on as the head cache, and the consumer's head untouched.
proof fn lemma_reserved_cursors(bytes: Seq<u8>, c: int, alen: int)
    requires
        bytes.len() == c + TRAILER_LENGTH,
        c >= MIN_CAPACITY,
        c % 8 == 0,
        c + TRAILER_LENGTH <= i32::MAX,
        cursors_ok(bytes, c),
        alen >= 8,
        alen % 8 == 0,
        claim_succeeds(
            c,
            i64_at(bytes, c + TAIL_POSITION_OFFSET) as int,
            i64_at(bytes, c + HEAD_CACHE_POSITION_OFFSET) as int,
            i64_at(bytes, c + HEAD_POSITION_OFFSET) as int,
            alen,
        ),
    ensures
        ({
            let tail = i64_at(bytes, c + TAIL_POSITION_OFFSET) as int;
            let head = i64_at(bytes, c + HEAD_POSITION_OFFSET) as int;
            let h = claim_head(
                c,
                tail,
                i64_at(bytes, c + HEAD_CACHE_POSITION_OFFSET) as int,
                head,
                alen,
            );
            let w = reserved_bytes(bytes, c, tail, h, alen);
            &&& w.len() == bytes.len()
            &&& i64_at(w, c + TAIL_POSITION_OFFSET) == claim_tail(c, tail, alen)
            &&& i64_at(w, c + HEAD_CACHE_POSITION_OFFSET) == h
            &&& i64_at(w, c + HEAD_POSITION_OFFSET) == head
            &&& i64_at(w, c + CORRELATION_COUNTER_OFFSET) == i64_at(bytes, c + CORRELATION_COUNTER_OFFSET)
            &&& i64_at(w, c + CONSUMER_HEARTBEAT_OFFSET) == i64_at(bytes, c + CONSUMER_HEARTBEAT_OFFSET)
            &&& cursors_ok(w, c)
        }),
{
    let tail = i64_at(bytes, c + TAIL_POSITION_OFFSET) as int;
    let hc = i64_at(bytes, c + HEAD_CACHE_POSITION_OFFSET) as int;
    let head = i64_at(bytes, c + HEAD_POSITION_OFFSET) as int;
    let h = claim_head(c, tail, hc, head, alen);
    let idx = tail % c;
    let next_tail = claim_tail(c, tail, alen);
    lemma_claim_arith(c, tail, hc, head, alen);
    let b1 = write_bytes(bytes, c + TAIL_POSITION_OFFSET, i64_bytes(next_tail as i64));
    let b2 = write_bytes(b1, c + HEAD_CACHE_POSITION_OFFSET, i64_bytes(h as i64));
    lemma_i64_round_trip(bytes, c + TAIL_POSITION_OFFSET, next_tail as i64);
    lemma_i64_round_trip(b1, c + HEAD_CACHE_POSITION_OFFSET, h as i64);
    lemma_data_writes_keep_trailer(b2, c, tail, alen, c + TAIL_POSITION_OFFSET);
    lemma_data_writes_keep_trailer(b2, c, tail, alen, c + HEAD_CACHE_POSITION_OFFSET);
    lemma_data_writes_keep_trailer(b2, c, tail, alen, c + HEAD_POSITION_OFFSET);
    lemma_data_writes_keep_trailer(b2, c, tail, alen, c + CORRELATION_COUNTER_OFFSET);
    lemma_data_writes_keep_trailer(b2, c, tail, alen, c + CONSUMER_HEARTBEAT_OFFSET);
    lemma_i64_frame(bytes, c + TAIL_POSITION_OFFSET, i64_bytes(next_tail as i64), c + HEAD_POSITION_OFFSET);
    lemma_i64_frame(b1, c + HEAD_CACHE_POSITION_OFFSET, i64_bytes(h as i64), c + HEAD_POSITION_OFFSET);
    lemma_i64_frame(b1, c + HEAD_CACHE_POSITION_OFFSET, i64_bytes(h as i64), c + TAIL_POSITION_OFFSET);
    lemma_i64_frame(bytes, c + TAIL_POSITION_OFFSET, i64_bytes(next_tail as i64), c + CORRELATION_COUNTER_OFFSET);
    lemma_i64_frame(b1, c + HEAD_CACHE_POSITION_OFFSET, i64_bytes(h as i64), c + CORRELATION_COUNTER_OFFSET);
    lemma_i64_frame(bytes, c + TAIL_POSITION_OFFSET, i64_bytes(next_tail as i64), c + CONSUMER_HEARTBEAT_OFFSET);
    lemma_i64_frame(b1, c + HEAD_CACHE_POSITION_OFFSET, i64_bytes(h as i64), c + CONSUMER_HEARTBEAT_OFFSET);
}

/// A single-producer, single-consumer ring buffer of framed messages over one byte region:
/// a data region of `capacity` bytes (a power of two) followed by a trailer of cursors.
///
/// Each record is an 8-byte header (a 32-bit length, negative while claimed, and a
/// 32-bit type id) followed by its payload, aligned to 8 bytes.
pub struct OneToOneRingBuffer {
    capacity: i32,
    max_msg_length: i32,
    tail_position_index: i32,
    head_cache_position_index: i32,
    head_position_index: i32,
    correlation_id_counter_index: i32,
    consumer_heartbeat_index: i32,
    buffer: UnsafeBuffer,
}

impl OneToOneRingBuffer {
    /// Size of the data region.
    pub closed spec fn data_capacity(&self) -> int {
        self.capacity as int
    }

    /// The whole byte region, data and trailer.
    pub closed spec fn bytes(&self) -> Seq<u8> {
        self.buffer@
    }

    /// The underlying byte region.
    pub closed spec fn region(&self) -> UnsafeBuffer {
        self.buffer
    }

    /// The fields other than the region are those of `other`.
    pub closed spec fn same_layout(&self, other: &Self) -> bool {
        &&& self.capacity == other.capacity
        &&& self.max_msg_length == other.max_msg_length
        &&& self.tail_position_index == other.tail_position_index
        &&& self.head_cache_position_index == other.head_cache_position_index
        &&& self.head_position_index == other.head_position_index
        &&& self.correlation_id_counter_index == other.correlation_id_counter_index
        &&& self.consumer_heartbeat_index == other.consumer_heartbeat_index
    }

    /// The fields other than the region agree with the data capacity.
    pub closed spec fn layout_ok(&self) -> bool {
        &&& self.buffer@.len() == self.capacity + TRAILER_LENGTH
        &&& self.max_msg_length == spec_max_msg_length(self.capacity as int)
        &&& self.tail_position_index == self.capacity + TAIL_POSITION_OFFSET
        &&& self.head_cache_position_index == self.capacity + HEAD_CACHE_POSITION_OFFSET
        &&& self.head_position_index == self.capacity + HEAD_POSITION_OFFSET
        &&& self.correlation_id_counter_index == self.capacity + CORRELATION_COUNTER_OFFSET
        &&& self.consumer_heartbeat_index == self.capacity + CONSUMER_HEARTBEAT_OFFSET
    }

    /// The producer's position: bytes claimed so far.
    pub open spec fn tail(&self) -> int {
        i64_at(self.bytes(), self.data_capacity() + TAIL_POSITION_OFFSET) as int
    }

    /// The producer's last reading of the consumer's position.
    pub open spec fn head_cache(&self) -> int {
        i64_at(self.bytes(), self.data_capacity() + HEAD_CACHE_POSITION_OFFSET) as int
    }

    /// The consumer's position: bytes consumed so far.
    pub open spec fn head(&self) -> int {
        i64_at(self.bytes(), self.data_capacity() + HEAD_POSITION_OFFSET) as int
    }

    pub open spec fn correlation_counter(&self) -> int {
        i64_at(self.bytes(), self.data_capacity() + CORRELATION_COUNTER_OFFSET) as int
    }

    pub open spec fn heartbeat(&self) -> int {
        i64_at(self.bytes(), self.data_capacity() + CONSUMER_HEARTBEAT_OFFSET) as int
    }

    /// Largest payload a single message may have.
    pub open spec fn max_msg_len(&self) -> int {
        spec_max_msg_length(self.data_capacity())
    }

    /// The buffer is well formed.
    pub open spec fn wf(&self) -> bool {
        &&& self.layout_ok()
        &&& is_pow2(self.data_capacity())
        &&& MIN_CAPACITY <= self.data_capacity()
        &&& self.data_capacity() + TRAILER_LENGTH <= i32::MAX
        &&& cursors_ok(self.bytes(), self.data_capacity())
    }

    /// A ring buffer over `buffer`, whose capacity less the trailer is the data capacity.
    pub fn new(buffer: UnsafeBuffer) -> (r: Self)
        requires
            buffer@.len() >= TRAILER_LENGTH,
            is_pow2(buffer@.len() - TRAILER_LENGTH),
            buffer@.len() - TRAILER_LENGTH >= MIN_CAPACITY,
            cursors_ok(buffer@, buffer@.len() - TRAILER_LENGTH),
        ensures
            r.wf(),
            r.data_capacity() == buffer@.len() - TRAILER_LENGTH,
            r.bytes() == buffer@,
            r.region() == buffer,
    {
        let capacity = check_capacity(buffer.capacity(), MIN_CAPACITY);
        buffer.verify_alignment();
        let max_msg_length = if MIN_CAPACITY == capacity {
            0
        } else if capacity / 8 > HEADER_LENGTH {
            capacity / 8
        } else {
            HEADER_LENGTH
        };
        OneToOneRingBuffer {
            capacity,
            max_msg_length,
            tail_position_index: capacity + TAIL_POSITION_OFFSET,
            head_cache_position_index: capacity + HEAD_CACHE_POSITION_OFFSET,
            head_position_index: capacity + HEAD_POSITION_OFFSET,
            correlation_id_counter_index: capacity + CORRELATION_COUNTER_OFFSET,
            consumer_heartbeat_index: capacity + CONSUMER_HEARTBEAT_OFFSET,
            buffer,
        }
    }

    fn check_msg_length(&self, length: i32)
        requires
            0 <= length <= self.max_msg_len(),
            self.wf(),
    {
    }

    /// Reserves room for a record of `record_length` bytes and returns where it starts,
    /// or `INSUFFICIENT_CAPACITY`, leaving the region unchanged.
    fn claim_capacity(&mut self, record_length: i32) -> (r: i32)
        requires
            old(self).wf(),
            HEADER_LENGTH <= record_length <= old(self).max_msg_len() + HEADER_LENGTH,
        ensures
            final(self).wf(),
            final(self).data_capacity() == old(self).data_capacity(),
            ({
                let c = old(self).data_capacity();
                let t = old(self).tail();
                let alen = spec_align(record_length as int, 8);
                if claim_succeeds(c, t, old(self).head_cache(), old(self).head(), alen) {
                    &&& r == claim_index(c, t, alen)
                    &&& final(self).tail() == claim_tail(c, t, alen)
                    &&& final(self).head() == old(self).head()
                    &&& final(self).bytes() == reserved_bytes(
                        old(self).bytes(),
                        c,
                        t,
                        claim_head(c, t, old(self).head_cache(), old(self).head(), alen),
                        alen,
                    )
                } else {
                    &&& r == INSUFFICIENT_CAPACITY
                    &&& final(self).bytes() == old(self).bytes()
                }
            }),
    {
        let ghost c = self.capacity as int;
        let ghost bytes0 = self.buffer@;
        let aligned_record_length = align(record_length, ALIGNMENT);
        let required_capacity = aligned_record_length + HEADER_LENGTH;
        let cap = self.capacity;
        proof {
            lemma_pow2_multiple_of_eight(c);
            lemma_mod_of_multiple_of_eight(old(self).tail(), c);
        }
        let head_cache = self.buffer.get_long(self.head_cache_position_index);
        let tail = self.buffer.get_long(self.tail_position_index);
        let mut head = head_cache;
        if required_capacity > cap - (tail - head_cache) as i32 {
            head = self.buffer.get_long_volatile(self.head_position_index);
            if required_capacity > cap - (tail - head) as i32 {
                return INSUFFICIENT_CAPACITY;
            }
        }
        let record_index = (tail % (cap as i64)) as i32;
        let to_buffer_end_length = cap - record_index;
        let mut write_index = record_index;
        let mut padding: i32 = 0;
        if aligned_record_length != to_buffer_end_length && required_capacity
            > to_buffer_end_length {
            if required_capacity > (head % (cap as i64)) as i32 {
                head = self.buffer.get_long_volatile(self.head_position_index);
                if required_capacity > (head % (cap as i64)) as i32 {
                    return INSUFFICIENT_CAPACITY;
                }
            }
            write_index = 0;
            padding = to_buffer_end_length;
        }
        if tail > i64::MAX - (aligned_record_length + padding) as i64 {
            return INSUFFICIENT_CAPACITY;
        }
        let next_tail = tail + (aligned_record_length + padding) as i64;
        proof {
            let alen = aligned_record_length as int;
            assert(head == claim_head(c, tail as int, head_cache as int, old(self).head(), alen));
            assert(next_tail == claim_tail(c, tail as int, alen));
            vstd::arithmetic::div_mod::lemma_mod_bound(tail as int, c);
        }
        self.buffer.put_long_ordered(self.tail_position_index, next_tail);
        self.buffer.put_long(self.head_cache_position_index, head);
        if padding != 0 {
            self.buffer.put_int_ordered(length_offset(record_index), padding);
            self.buffer.put_int(type_offset(record_index), PADDING_MSG_TYPE_ID);
        }
        let zero_index = if write_index + aligned_record_length == cap {
            0
        } else {
            write_index + aligned_record_length
        };
        self.buffer.put_long(zero_index, 0);
        proof {
            let alen = aligned_record_length as int;
            assert(self.buffer@ == reserved_bytes(bytes0, c, tail as int, head as int, alen));
            lemma_reserved_cursors(bytes0, c, alen);
        }
        write_index
    }

    fn compute_record_index(&self, index: i32) -> (r: i32)
        requires
            self.wf(),
            HEADER_LENGTH <= index <= self.data_capacity(),
        ensures
            r == index - HEADER_LENGTH,
    {
        index - HEADER_LENGTH
    }

    /// The length field of a record that is claimed and not yet published.
    fn verify_claimed_space_not_released(&self, buffer: &UnsafeBuffer, record_index: i32) -> (r:
        i32)
        requires
            0 <= record_index,
            record_index + 4 <= buffer@.len(),
            is_claimed(buffer@, record_index as int),
        ensures
            r == i32_at(buffer@, record_index as int),
            i32::MIN < r < 0,
    {
        buffer.get_int(length_offset(record_index))
    }

    /// A 32-bit write inside the data region leaves the trailer as it is.
    proof fn lemma_header_write_keeps_cursors(&self, at: int, v: i32)
        requires
            self.wf(),
            0 <= at,
            at + 4 <= self.data_capacity(),
        ensures
            ({
                let w = write_bytes(self.bytes(), at, i32_bytes(v));
                let c = self.data_capacity();
                &&& i64_at(w, c + TAIL_POSITION_OFFSET) == i64_at(self.bytes(), c + TAIL_POSITION_OFFSET)
                &&& i64_at(w, c + HEAD_CACHE_POSITION_OFFSET) == i64_at(self.bytes(), c + HEAD_CACHE_POSITION_OFFSET)
                &&& i64_at(w, c + HEAD_POSITION_OFFSET) == i64_at(self.bytes(), c + HEAD_POSITION_OFFSET)
                &&& i64_at(w, c + CORRELATION_COUNTER_OFFSET) == i64_at(self.bytes(), c + CORRELATION_COUNTER_OFFSET)
                &&& i64_at(w, c + CONSUMER_HEARTBEAT_OFFSET) == i64_at(self.bytes(), c + CONSUMER_HEARTBEAT_OFFSET)
            }),
    {
        self.lemma_data_write_keeps_cursors(at, i32_bytes(v));
    }

    /// A write inside the data region leaves the trailer as it is.
    proof fn lemma_data_write_keeps_cursors(&self, at: int, t: Seq<u8>)
        requires
            self.wf(),
            0 <= at,
            at + t.len() <= self.data_capacity(),
        ensures
            ({
                let w = write_bytes(self.bytes(), at, t);
                let c = self.data_capacity();
                &&& i64_at(w, c + TAIL_POSITION_OFFSET) == i64_at(self.bytes(), c + TAIL_POSITION_OFFSET)
                &&& i64_at(w, c + HEAD_CACHE_POSITION_OFFSET) == i64_at(self.bytes(), c + HEAD_CACHE_POSITION_OFFSET)
                &&& i64_at(w, c + HEAD_POSITION_OFFSET) == i64_at(self.bytes(), c + HEAD_POSITION_OFFSET)
                &&& i64_at(w, c + CORRELATION_COUNTER_OFFSET) == i64_at(self.bytes(), c + CORRELATION_COUNTER_OFFSET)
                &&& i64_at(w, c + CONSUMER_HEARTBEAT_OFFSET) == i64_at(self.bytes(), c + CONSUMER_HEARTBEAT_OFFSET)
            }),
    {
        let c = self.data_capacity();
        lemma_i64_frame(self.bytes(), at, t, c + TAIL_POSITION_OFFSET);
        lemma_i64_frame(self.bytes(), at, t, c + HEAD_CACHE_POSITION_OFFSET);
        lemma_i64_frame(self.bytes(), at, t, c + HEAD_POSITION_OFFSET);
        lemma_i64_frame(self.bytes(), at, t, c + CORRELATION_COUNTER_OFFSET);
        lemma_i64_frame(self.bytes(), at, t, c + CONSUMER_HEARTBEAT_OFFSET);
    }

    /// Offset in the data region of the consumer's position.
    pub open spec fn read_start(&self) -> int {
        self.head() % self.data_capacity()
    }

    /// Bytes a reader may scan: the published span, up to the end of the region.
    pub open spec fn read_block(&self) -> int {
        let to_end = self.data_capacity() - self.read_start();
        let available = self.tail() - self.head();
        if available < to_end {
            available
        } else {
            to_end
        }
    }

    /// What a read of at most `limit` messages consumes and delivers now.
    pub open spec fn pending(&self, limit: int) -> (int, Seq<Delivery>) {
        scan(self.bytes(), self.read_start(), self.read_block(), limit, 0, Seq::empty())
    }

    /// What a controlled read of at most `limit` messages consumes, counts and delivers
    /// when its handler answers with `acts`.
    pub open spec fn controlled_pending(&self, limit: int, acts: Seq<Action>) -> (int, int, Seq<
        Delivery,
    >) {
        controlled_scan(
            self.bytes(),
            self.read_start(),
            self.read_block(),
            limit,
            acts,
            0,
            0,
            Seq::empty(),
        )
    }

}

impl RingBuffer for OneToOneRingBuffer {
    open spec fn ring_wf(&self) -> bool {
        self.wf()
    }

    open spec fn ring_bytes(&self) -> Seq<u8> {
        self.bytes()
    }

    open spec fn ring_capacity(&self) -> int {
        self.data_capacity()
    }

    open spec fn ring_max_msg_length(&self) -> int {
        self.max_msg_len()
    }

    fn capacity(&self) -> (r: i32)
        ensures
            r == self.data_capacity(),
    {
        self.capacity
    }

    fn max_msg_length(&self) -> (r: i32)
        ensures
            r == self.max_msg_len(),
    {
        self.max_msg_length
    }

    /// Claims room for a message of `length` bytes with type `msg_type_id` and returns
    /// the offset of its payload, or `INSUFFICIENT_CAPACITY` with the region unchanged.
    ///
    /// The claimed record is not delivered to readers until it is committed or aborted.
    fn try_claim(&mut self, msg_type_id: i32, length: i32) -> (r: i32)
        ensures
            final(self).wf(),
            final(self).data_capacity() == old(self).data_capacity(),
            ({
                let c = old(self).data_capacity();
                let t = old(self).tail();
                let alen = aligned_record_length(length as int);
                let h = claim_head(c, t, old(self).head_cache(), old(self).head(), alen);
                let idx = claim_index(c, t, alen);
                if claim_succeeds(c, t, old(self).head_cache(), old(self).head(), alen) {
                    &&& r == idx + HEADER_LENGTH
                    &&& final(self).bytes() == claimed_bytes(
                        reserved_bytes(old(self).bytes(), c, t, h, alen),
                        idx,
                        msg_type_id,
                        length as int,
                    )
                    &&& final(self).tail() == claim_tail(c, t, alen)
                    &&& final(self).head() == old(self).head()
                } else {
                    &&& r == INSUFFICIENT_CAPACITY
                    &&& final(self).bytes() == old(self).bytes()
                }
            }),
    {
        check_type_id(msg_type_id);
        self.check_msg_length(length);
        let record_length = length + HEADER_LENGTH;
        let record_index = self.claim_capacity(record_length);
        if record_index == INSUFFICIENT_CAPACITY {
            return record_index;
        }
        proof {
            self.lemma_header_write_keeps_cursors(record_index as int, -record_length as i32);
        }
        self.buffer.put_int_ordered(length_offset(record_index), -record_length);
        proof {
            self.lemma_header_write_keeps_cursors(record_index + 4, msg_type_id);
        }
        self.buffer.put_int(type_offset(record_index), msg_type_id);
        encoded_msg_offset(record_index)
    }

    /// Writes a message of `length` bytes taken from `src_buffer` at `offset`, with type
    /// `msg_type_id`; returns false, with the region unchanged, when there is no room.
    fn write(&mut self, msg_type_id: i32, src_buffer: &UnsafeBuffer, offset: i32, length: i32) -> (r:
        bool)
        ensures
            final(self).wf(),
            final(self).data_capacity() == old(self).data_capacity(),
            ({
                let c = old(self).data_capacity();
                let t = old(self).tail();
                let alen = aligned_record_length(length as int);
                let h = claim_head(c, t, old(self).head_cache(), old(self).head(), alen);
                let idx = claim_index(c, t, alen);
                if claim_succeeds(c, t, old(self).head_cache(), old(self).head(), alen) {
                    &&& r
                    &&& final(self).bytes() == written_bytes(
                        reserved_bytes(old(self).bytes(), c, t, h, alen),
                        idx,
                        msg_type_id,
                        src_buffer@.subrange(offset as int, offset + length),
                    )
                    &&& final(self).tail() == claim_tail(c, t, alen)
                    &&& final(self).head() == old(self).head()
                } else {
                    &&& !r
                    &&& final(self).bytes() == old(self).bytes()
                }
            }),
    {
        check_type_id(msg_type_id);
        self.check_msg_length(length);
        let record_length = length + HEADER_LENGTH;
        let ghost c = self.data_capacity();
        let ghost alen = aligned_record_length(length as int);
        proof {
            lemma_pow2_multiple_of_eight(c);
            if claim_succeeds(c, self.tail(), self.head_cache(), self.head(), alen) {
                lemma_claim_arith(c, self.tail(), self.head_cache(), self.head(), alen);
            }
        }
        let record_index = self.claim_capacity(record_length);
        if record_index == INSUFFICIENT_CAPACITY {
            return false;
        }
        proof {
            self.lemma_header_write_keeps_cursors(record_index as int, -record_length as i32);
        }
        self.buffer.put_int_ordered(length_offset(record_index), -record_length);
        proof {
            self.lemma_data_write_keeps_cursors(
                record_index + HEADER_LENGTH,
                src_buffer@.subrange(offset as int, offset + length),
            );
        }
        self.buffer.put_bytes2(encoded_msg_offset(record_index), src_buffer, offset, length);
        proof {
            self.lemma_header_write_keeps_cursors(record_index + 4, msg_type_id);
        }
        self.buffer.put_int(type_offset(record_index), msg_type_id);
        proof {
            self.lemma_header_write_keeps_cursors(record_index as int, record_length);
        }
        self.buffer.put_int_ordered(length_offset(record_index), record_length);
        true
    }

    /// Reads every message available now; see `read0`.
    fn read<F>(&mut self, func: F) -> (r: i32) where F: Fn(i32, &UnsafeBuffer, i32, i32)
        ensures
            final(self).wf(),
            final(self).data_capacity() == old(self).data_capacity(),
            ({
                let (consumed, msgs) = old(self).pending(i32::MAX as int);
                &&& r == msgs.len()
                &&& final(self).bytes() == consumed_bytes(
                    old(self).bytes(),
                    old(self).data_capacity(),
                    old(self).head(),
                    consumed,
                )
                &&& forall|k: int|
                    0 <= k < msgs.len() ==> func.ensures(
                        (msgs[k].0, &old(self).region(), msgs[k].1, msgs[k].2),
                        (),
                    )
            }),
    {
        self.read0(func, i32::MAX)
    }

    /// Hands the published messages from the consumer's position to `func`, at most
    /// `message_count_limit` of them and none past the end of the region, skipping padding;
    /// then advances the consumer's position past all the records it went over.
    /// Returns the number of messages handed over.
    #[verifier::rlimit(50)]
    #[verifier::spinoff_prover]
    fn read0<F>(&mut self, func: F, message_count_limit: i32) -> (r: i32) where
        F: Fn(i32, &UnsafeBuffer, i32, i32),

        ensures
            final(self).wf(),
            final(self).data_capacity() == old(self).data_capacity(),
            ({
                let (consumed, msgs) = old(self).pending(message_count_limit as int);
                &&& r == msgs.len()
                &&& final(self).bytes() == consumed_bytes(
                    old(self).bytes(),
                    old(self).data_capacity(),
                    old(self).head(),
                    consumed,
                )
                &&& forall|k: int|
                    0 <= k < msgs.len() ==> func.ensures(
                        (msgs[k].0, &old(self).region(), msgs[k].1, msgs[k].2),
                        (),
                    )
            }),
    {
        let ghost c = self.data_capacity();
        let ghost bytes0 = self.bytes();
        let head_position_index = self.head_position_index;
        let head = self.buffer.get_long(head_position_index);
        let tail = self.buffer.get_long_volatile(self.tail_position_index);
        let capacity = self.capacity;
        let head_index = (head % (capacity as i64)) as i32;
        let contiguous_block_length = capacity - head_index;
        let available = (tail - head) as i32;
        let block = if available < contiguous_block_length {
            available
        } else {
            contiguous_block_length
        };
        proof {
            lemma_pow2_multiple_of_eight(c);
            lemma_mod_of_multiple_of_eight(head as int, c);
            vstd::arithmetic::div_mod::lemma_mod_bound(head as int, c);
            assert(block == self.read_block() && head_index == self.read_start());
        }
        let mut bytes_read: i32 = 0;
        let mut messages_read: i32 = 0;
        let ghost mut msgs: Seq<Delivery> = Seq::empty();
        loop
            invariant
                self.same_layout(old(self)),
                self.region() == old(self).region(),
                old(self).wf(),
                bytes0 == old(self).bytes(),
                c == old(self).data_capacity(),
                c % 8 == 0,
                head == old(self).head(),
                head_index == old(self).read_start(),
                block == old(self).read_block(),
                head_position_index == c + HEAD_POSITION_OFFSET,
                0 <= head_index,
                head_index % 8 == 0,
                head_index + block <= c,
                0 <= block <= tail - head,
                block % 8 == 0,
                0 <= bytes_read <= block,
                bytes_read % 8 == 0,
                messages_read == msgs.len(),
                forall|t: i32, b: &UnsafeBuffer, i: i32, l: i32| func.requires((t, b, i, l)),
                scan(bytes0, head_index as int, block as int, message_count_limit as int, 0, Seq::empty())
                    == scan(bytes0, head_index as int, block as int, message_count_limit as int, bytes_read as int, msgs),
                forall|k: int|
                    0 <= k < msgs.len() ==> func.ensures((msgs[k].0, &self.region(), msgs[k].1, msgs[k].2), ()),
            ensures
                scan(bytes0, head_index as int, block as int, message_count_limit as int, 0, Seq::empty())
                    == (bytes_read as int, msgs),
            decreases block - bytes_read,
        {
            if bytes_read >= block || messages_read >= message_count_limit {
                proof {
                    lemma_scan_end(bytes0, head_index as int, block as int, message_count_limit as int, bytes_read as int, msgs);
                }
                break;
            }
            let record_index = head_index + bytes_read;
            let record_length = self.buffer.get_int_volatile(length_offset(record_index));
            if record_length <= 0 || record_length > block - bytes_read {
                proof {
                    assert(spec_align(record_length as int, 8) > block - bytes_read <==> record_length
                        > block - bytes_read);
                    lemma_scan_end(bytes0, head_index as int, block as int, message_count_limit as int, bytes_read as int, msgs);
                }
                break;
            }
            proof {
                lemma_scan_step(bytes0, head_index as int, block as int, message_count_limit as int, bytes_read as int, msgs);
            }
            let aligned_length = align(record_length, ALIGNMENT);
            bytes_read = bytes_read + aligned_length;
            let message_type_id = self.buffer.get_int(type_offset(record_index));
            if message_type_id == PADDING_MSG_TYPE_ID {
                continue;
            }
            func(message_type_id, &self.buffer, record_index + HEADER_LENGTH, record_length - HEADER_LENGTH);
            proof {
                msgs = msgs.push(delivery_at(bytes0, record_index as int));
            }
            messages_read = messages_read + 1;
        }
        if bytes_read > 0 {
            proof {
                lemma_i64_round_trip(bytes0, c + HEAD_POSITION_OFFSET, (head + bytes_read) as i64);
                lemma_i64_frame(bytes0, c + HEAD_POSITION_OFFSET, i64_bytes((head + bytes_read) as i64), c + TAIL_POSITION_OFFSET);
                lemma_i64_frame(bytes0, c + HEAD_POSITION_OFFSET, i64_bytes((head + bytes_read) as i64), c + HEAD_CACHE_POSITION_OFFSET);
            }
            self.buffer.put_long_ordered(head_position_index, head + bytes_read as i64);
        }
        messages_read
    }

    /// Reads every message available now under the handler's control; see
    /// `controlled_read0`.
    fn controlled_read<F>(&mut self, func: F) -> (r: i32) where
        F: Fn(i32, &UnsafeBuffer, i32, i32) -> Action,

        ensures
            final(self).wf(),
            final(self).data_capacity() == old(self).data_capacity(),
            exists|acts: Seq<Action>|
                {
                    let res = #[trigger] old(self).controlled_pending(i32::MAX as int, acts);
                    &&& acts.len() == res.2.len()
                    &&& r == res.1
                    &&& final(self).bytes() == consumed_bytes(
                        old(self).bytes(),
                        old(self).data_capacity(),
                        old(self).head(),
                        res.0,
                    )
                    &&& forall|j: int|
                        0 <= j < acts.len() ==> answers(
                            func,
                            res.2[j],
                            acts[j],
                            old(self).bytes().subrange(0, old(self).data_capacity()),
                        )
                },
    {
        self.controlled_read0(func, i32::MAX)
    }

    /// Hands the published messages from the consumer's position to `func`, at most
    /// `message_count_limit` of them and none past the end of the region, skipping padding,
    /// and acts on each answer: `CONTINUE` goes on; `BREAK` stops after this message;
    /// `COMMIT` publishes the consumer's position past this message at once and goes on;
    /// `ABORT` stops before this message, which stays to be read again.
    /// Returns the number of messages consumed.
    #[verifier::rlimit(50)]
    #[verifier::spinoff_prover]
    fn controlled_read0<F>(&mut self, func: F, message_count_limit: i32) -> (r: i32) where
        F: Fn(i32, &UnsafeBuffer, i32, i32) -> Action,

        ensures
            final(self).wf(),
            final(self).data_capacity() == old(self).data_capacity(),
            exists|acts: Seq<Action>|
                {
                    let res = #[trigger] old(self).controlled_pending(
                        message_count_limit as int,
                        acts,
                    );
                    &&& acts.len() == res.2.len()
                    &&& r == res.1
                    &&& final(self).bytes() == consumed_bytes(
                        old(self).bytes(),
                        old(self).data_capacity(),
                        old(self).head(),
                        res.0,
                    )
                    &&& forall|j: int|
                        0 <= j < acts.len() ==> answers(
                            func,
                            res.2[j],
                            acts[j],
                            old(self).bytes().subrange(0, old(self).data_capacity()),
                        )
                },
    {
        let ghost c = self.data_capacity();
        let ghost bytes0 = self.bytes();
        let ghost data = bytes0.subrange(0, c);
        let head_position_index = self.head_position_index;
        let head = self.buffer.get_long(head_position_index);
        let tail = self.buffer.get_long_volatile(self.tail_position_index);
        let capacity = self.capacity;
        let head_index = (head % (capacity as i64)) as i32;
        let contiguous_block_length = capacity - head_index;
        let available = (tail - head) as i32;
        let block = if available < contiguous_block_length {
            available
        } else {
            contiguous_block_length
        };
        proof {
            lemma_pow2_multiple_of_eight(c);
            lemma_mod_of_multiple_of_eight(head as int, c);
            vstd::arithmetic::div_mod::lemma_mod_bound(head as int, c);
            assert(block == self.read_block() && head_index == self.read_start());
        }
        let ghost start = head_index as int;
        let ghost lim = message_count_limit as int;
        let mut bytes_read: i32 = 0;
        let mut committed: i32 = 0;
        let mut messages_read: i32 = 0;
        let ghost mut msgs: Seq<Delivery> = Seq::empty();
        let ghost mut acts: Seq<Action> = Seq::empty();
        proof {
            reveal(all_answered);
            reveal(controlled_progress);
        }
        loop
            invariant_except_break
                controlled_progress(bytes0, start, block as int, lim, acts, bytes_read as int, messages_read as int, msgs),
            invariant
                self.same_layout(old(self)),
                old(self).wf(),
                bytes0 == old(self).bytes(),
                data == bytes0.subrange(0, c),
                c == old(self).data_capacity(),
                self.bytes() == consumed_bytes(bytes0, c, head as int, committed as int),
                c % 8 == 0,
                head == old(self).head(),
                tail == old(self).tail(),
                head_index == old(self).read_start(),
                block == old(self).read_block(),
                start == head_index,
                lim == message_count_limit,
                head_position_index == c + HEAD_POSITION_OFFSET,
                0 <= head_index,
                head_index % 8 == 0,
                head_index + block <= c,
                0 <= block <= tail - head,
                block % 8 == 0,
                0 <= committed <= bytes_read <= block,
                bytes_read % 8 == 0,
                committed % 8 == 0,
                acts.len() == msgs.len(),
                0 <= messages_read <= msgs.len(),
                forall|t: i32, b: &UnsafeBuffer, i: i32, l: i32| func.requires((t, b, i, l)),
                all_answered(func, msgs, acts, data),
            ensures
                controlled_scan(bytes0, start, block as int, lim, acts, 0, 0, Seq::empty())
                    == (bytes_read as int, messages_read as int, msgs),
            decreases block - bytes_read,
        {
            if bytes_read >= block || messages_read >= message_count_limit {
                proof {
                    lemma_controlled_end(bytes0, start, block as int, lim, acts, bytes_read as int, messages_read as int, msgs);
                }
                break;
            }
            let record_index = head_index + bytes_read;
            proof {
                lemma_i32_frame(bytes0, c + HEAD_POSITION_OFFSET, i64_bytes((head + committed) as i64), record_index as int);
                lemma_i32_frame(bytes0, c + HEAD_POSITION_OFFSET, i64_bytes((head + committed) as i64), record_index + 4);
            }
            let record_length = self.buffer.get_int_volatile(length_offset(record_index));
            if record_length <= 0 || record_length > block - bytes_read {
                proof {
                    assert(spec_align(record_length as int, 8) > block - bytes_read <==> record_length
                        > block - bytes_read);
                    lemma_controlled_end(bytes0, start, block as int, lim, acts, bytes_read as int, messages_read as int, msgs);
                }
                break;
            }
            let aligned_length = align(record_length, ALIGNMENT);
            let ghost done0 = bytes_read as int;
            bytes_read = bytes_read + aligned_length;
            let message_type_id = self.buffer.get_int(type_offset(record_index));
            if message_type_id == PADDING_MSG_TYPE_ID {
                proof {
                    lemma_controlled_skip(bytes0, start, block as int, lim, acts, done0, messages_read as int, msgs);
                }
                continue;
            }
            let action = func(message_type_id, &self.buffer, record_index + HEADER_LENGTH, record_length - HEADER_LENGTH);
            let ghost m = delivery_at(bytes0, record_index as int);
            let ghost msgs0 = msgs;
            let ghost acts0 = acts;
            let ghost count0 = messages_read as int;
            proof {
                assert(self.region()@.subrange(0, c) =~= data);
                assert(func.ensures((m.0, &self.region(), m.1, m.2), action));
                assert(answers(func, m, action, data));
                lemma_answered_push(func, msgs, acts, data, m, action);
                msgs = msgs.push(m);
                acts = acts.push(action);
            }
            match action {
                Action::ABORT => {
                    bytes_read = bytes_read - aligned_length;
                    proof {
                        lemma_controlled_stop_on(bytes0, start, block as int, lim, acts0, done0, count0, msgs0, action);
                    }
                    break;
                },
                Action::BREAK => {
                    messages_read = messages_read + 1;
                    proof {
                        lemma_controlled_stop_on(bytes0, start, block as int, lim, acts0, done0, count0, msgs0, action);
                    }
                    break;
                },
                Action::COMMIT => {
                    messages_read = messages_read + 1;
                    proof {
                        lemma_controlled_deliver(bytes0, start, block as int, lim, acts0, done0, count0, msgs0, action);
                        lemma_overwrite(bytes0, c + HEAD_POSITION_OFFSET, i64_bytes((head + committed) as i64), i64_bytes((head + bytes_read) as i64));
                    }
                    self.buffer.put_long_ordered(head_position_index, head + bytes_read as i64);
                    committed = bytes_read;
                },
                Action::CONTINUE => {
                    messages_read = messages_read + 1;
                    proof {
                        lemma_controlled_deliver(bytes0, start, block as int, lim, acts0, done0, count0, msgs0, action);
                    }
                },
            }
        }
        if bytes_read > committed {
            proof {
                lemma_overwrite(bytes0, c + HEAD_POSITION_OFFSET, i64_bytes((head + committed) as i64), i64_bytes((head + bytes_read) as i64));
            }
            self.buffer.put_long_ordered(head_position_index, head + bytes_read as i64);
        }
        proof {
            lemma_i64_round_trip(bytes0, c + HEAD_POSITION_OFFSET, (head + bytes_read) as i64);
            lemma_i64_frame(bytes0, c + HEAD_POSITION_OFFSET, i64_bytes((head + bytes_read) as i64), c + TAIL_POSITION_OFFSET);
            lemma_i64_frame(bytes0, c + HEAD_POSITION_OFFSET, i64_bytes((head + bytes_read) as i64), c + HEAD_CACHE_POSITION_OFFSET);
            assert(old(self).controlled_pending(message_count_limit as int, acts) == (bytes_read as int, messages_read as int, msgs));
            reveal(all_answered);
        }
        messages_read
    }

    /// Returns the correlation counter and advances it by one (wrapping).
    fn next_correlation_id(&mut self) -> (r: i64)
        ensures
            final(self).wf(),
            final(self).data_capacity() == old(self).data_capacity(),
            r == old(self).correlation_counter(),
            final(self).bytes() == write_bytes(
                old(self).bytes(),
                old(self).data_capacity() + CORRELATION_COUNTER_OFFSET,
                i64_bytes(r.wrapping_add(1)),
            ),
    {
        let ghost c = self.data_capacity();
        let r = self.buffer.get_and_add_long(self.correlation_id_counter_index, 1);
        proof {
            lemma_i64_frame(old(self).bytes(), c + CORRELATION_COUNTER_OFFSET, i64_bytes(r.wrapping_add(1)), c + TAIL_POSITION_OFFSET);
            lemma_i64_frame(old(self).bytes(), c + CORRELATION_COUNTER_OFFSET, i64_bytes(r.wrapping_add(1)), c + HEAD_CACHE_POSITION_OFFSET);
            lemma_i64_frame(old(self).bytes(), c + CORRELATION_COUNTER_OFFSET, i64_bytes(r.wrapping_add(1)), c + HEAD_POSITION_OFFSET);
        }
        r
    }

    /// Mutable access to the underlying region, for filling in claimed payloads.
    fn buffer(&mut self) -> (r: &mut UnsafeBuffer)
        ensures
            *r == old(self).region(),
            final(self).region() == *final(r),
            final(self).same_layout(old(self)),
    {
        &mut self.buffer
    }

    /// Publishes the consumer's heartbeat time.
    fn put_consumer_heartbeat_time(&mut self, time: i64)
        ensures
            final(self).wf(),
            final(self).data_capacity() == old(self).data_capacity(),
            final(self).bytes() == write_bytes(
                old(self).bytes(),
                old(self).data_capacity() + CONSUMER_HEARTBEAT_OFFSET,
                i64_bytes(time),
            ),
            final(self).heartbeat() == time,
    {
        let ghost c = self.data_capacity();
        proof {
            lemma_i64_round_trip(self.bytes(), c + CONSUMER_HEARTBEAT_OFFSET, time);
            lemma_i64_frame(self.bytes(), c + CONSUMER_HEARTBEAT_OFFSET, i64_bytes(time), c + TAIL_POSITION_OFFSET);
            lemma_i64_frame(self.bytes(), c + CONSUMER_HEARTBEAT_OFFSET, i64_bytes(time), c + HEAD_CACHE_POSITION_OFFSET);
            lemma_i64_frame(self.bytes(), c + CONSUMER_HEARTBEAT_OFFSET, i64_bytes(time), c + HEAD_POSITION_OFFSET);
        }
        self.buffer.put_long_ordered(self.consumer_heartbeat_index, time);
    }

    /// The consumer's last published heartbeat time.
    fn consumer_heartbeat_time(&self) -> (r: i64)
        ensures
            r == self.heartbeat(),
    {
        self.buffer.get_long_volatile(self.consumer_heartbeat_index)
    }

    /// The producer's position.
    fn producer_position(&self) -> (r: i64)
        ensures
            r == self.tail(),
    {
        self.buffer.get_long_volatile(self.tail_position_index)
    }

    /// The consumer's position.
    fn consumer_position(&self) -> (r: i64)
        ensures
            r == self.head(),
    {
        self.buffer.get_long_volatile(self.head_position_index)
    }

    /// Bytes between the consumer's and the producer's positions, kept within
    /// `0 ..= capacity`. The head is read before and after the tail, and again until
    /// the two readings agree.
    fn size(&self) -> (r: i32)
        ensures
            0 <= r <= self.data_capacity(),
            r == self.tail() - self.head(),
    {
        let mut head_before: i64;
        let mut tail: i64;
        let mut head_after = self.buffer.get_long_volatile(self.head_position_index);
        loop
            invariant
                self.wf(),
                head_after == self.head(),
            ensures
                head_after == self.head(),
                tail == self.tail(),
            decreases 0nat,
        {
            head_before = head_after;
            tail = self.buffer.get_long_volatile(self.tail_position_index);
            head_after = self.buffer.get_long_volatile(self.head_position_index);
            if head_before == head_after {
                break;
            }
        }
        let size = tail - head_after;
        if size < 0 {
            return 0;
        } else if size > self.capacity as i64 {
            return self.capacity;
        }
        size as i32
    }

    /// A single-producer buffer never has a stalled claim of another producer to unblock.
    fn unblock(&self) -> (r: bool)
        ensures
            !r,
    {
        false
    }

    /// Publishes the claimed record whose payload starts at `index`.
    fn commit(&mut self, index: i32)
        ensures
            final(self).wf(),
            final(self).data_capacity() == old(self).data_capacity(),
            final(self).bytes() == committed_bytes(old(self).bytes(), index as int),
    {
        let record_index = self.compute_record_index(index);
        let record_length = self.verify_claimed_space_not_released(&self.buffer, record_index);
        proof {
            self.lemma_header_write_keeps_cursors(record_index as int, -record_length as i32);
        }
        self.buffer.put_int_ordered(length_offset(record_index), -record_length);
    }

    /// Turns the claimed record whose payload starts at `index` into padding and publishes
    /// it, so that readers skip it.
    fn abort(&mut self, index: i32)
        ensures
            final(self).wf(),
            final(self).data_capacity() == old(self).data_capacity(),
            final(self).bytes() == aborted_bytes(old(self).bytes(), index as int),
    {
        let record_index = self.compute_record_index(index);
        let record_length = self.verify_claimed_space_not_released(&self.buffer, record_index);
        proof {
            self.lemma_header_write_keeps_cursors(record_index + 4, PADDING_MSG_TYPE_ID);
        }
        self.buffer.put_int(type_offset(record_index), PADDING_MSG_TYPE_ID);
        proof {
            self.lemma_header_write_keeps_cursors(record_index as int, -record_length as i32);
        }
        self.buffer.put_int_ordered(length_offset(record_index), -record_length);
    }
}

/// A claim fails whenever the room between the consumer's position and the producer's
/// is less than the aligned record length plus a header; `try_claim` then returns
/// `INSUFFICIENT_CAPACITY` and leaves the region, tail and headers included, unchanged.
pub proof fn lemma_claim_needs_room(c: int, tail: int, head_cache: int, head: int, alen: int)
    requires
        head_cache <= head,
        !fits(c, tail, head, alen),
    ensures
        !claim_succeeds(c, tail, head_cache, head, alen),
{
}

/// A successful claim that does not fit before the end of the region writes a padding
/// record of exactly the bytes from the tail's offset to the end, and places the message's
/// header at offset zero.
pub proof fn lemma_wrapping_claim_layout(before: OneToOneRingBuffer, msg_type_id: i32, length: int)
    requires
        before.wf(),
        msg_type_id >= 1,
        0 <= length <= before.max_msg_len(),
        claim_succeeds(
            before.data_capacity(),
            before.tail(),
            before.head_cache(),
            before.head(),
            aligned_record_length(length),
        ),
        wraps(before.data_capacity(), before.tail(), aligned_record_length(length)),
    ensures
        ({
            let c = before.data_capacity();
            let t = before.tail();
            let alen = aligned_record_length(length);
            let h = claim_head(c, t, before.head_cache(), before.head(), alen);
            let after = claimed_bytes(reserved_bytes(before.bytes(), c, t, h, alen), 0, msg_type_id, length);
            &&& claim_index(c, t, alen) == 0
            &&& i32_at(after, t % c) == c - t % c
            &&& i32_at(after, t % c + 4) == PADDING_MSG_TYPE_ID
            &&& i32_at(after, 0) == -(length + HEADER_LENGTH)
            &&& i32_at(after, 4) == msg_type_id
        }),
{
    let c = before.data_capacity();
    let t = before.tail();
    let alen = aligned_record_length(length);
    let h = claim_head(c, t, before.head_cache(), before.head(), alen);
    let idx = t % c;
    lemma_pow2_multiple_of_eight(c);
    lemma_claim_arith(c, t, before.head_cache(), before.head(), alen);
    let b0 = before.bytes();
    let b1 = write_bytes(b0, c + TAIL_POSITION_OFFSET, i64_bytes(claim_tail(c, t, alen) as i64));
    let b2 = write_bytes(b1, c + HEAD_CACHE_POSITION_OFFSET, i64_bytes(h as i64));
    let with_len = write_bytes(b2, idx, i32_bytes((c - idx) as i32));
    let with_pad = write_bytes(with_len, idx + 4, i32_bytes(PADDING_MSG_TYPE_ID));
    let r = write_bytes(with_pad, alen, i64_bytes(0));
    let a1 = write_bytes(r, 0, i32_bytes(-(length + HEADER_LENGTH) as i32));
    let a2 = write_bytes(a1, 4, i32_bytes(msg_type_id));
    assert(r == reserved_bytes(b0, c, t, h, alen));
    lemma_i32_round_trip(b2, idx, (c - idx) as i32);
    lemma_i32_frame(with_len, idx + 4, i32_bytes(PADDING_MSG_TYPE_ID), idx);
    lemma_i32_frame(with_pad, alen, i64_bytes(0), idx);
    lemma_i32_frame(r, 0, i32_bytes(-(length + HEADER_LENGTH) as i32), idx);
    lemma_i32_frame(a1, 4, i32_bytes(msg_type_id), idx);
    lemma_i32_round_trip(with_len, idx + 4, PADDING_MSG_TYPE_ID);
    lemma_i32_frame(with_pad, alen, i64_bytes(0), idx + 4);
    lemma_i32_frame(r, 0, i32_bytes(-(length + HEADER_LENGTH) as i32), idx + 4);
    lemma_i32_frame(a1, 4, i32_bytes(msg_type_id), idx + 4);
    lemma_i32_round_trip(r, 0, -(length + HEADER_LENGTH) as i32);
    lemma_i32_frame(a1, 4, i32_bytes(msg_type_id), 0);
    lemma_i32_round_trip(a1, 4, msg_type_id);
}

/// Each message carries the type stored in its record's header, which is not the padding id.
pub open spec fn typed_deliveries(bytes: Seq<u8>, msgs: Seq<Delivery>) -> bool {
    forall|k: int|
        0 <= k < msgs.len() ==> (#[trigger] msgs[k]).0 != PADDING_MSG_TYPE_ID && i32_at(
            bytes,
            msgs[k].1 - 4,
        ) == msgs[k].0
}

/// Every message a read hands over carries the type stored in its record's header, and
/// that type is never the padding id.
pub proof fn lemma_scan_delivers_typed_records(
    bytes: Seq<u8>,
    start: int,
    block: int,
    limit: int,
    done: int,
    msgs: Seq<Delivery>,
)
    requires
        0 <= start,
        0 <= done,
        start + block + HEADER_LENGTH <= i32::MAX,
        typed_deliveries(bytes, msgs),
    ensures
        typed_deliveries(bytes, scan(bytes, start, block, limit, done, msgs).1),
    decreases block - done,
{
    if done >= block || msgs.len() >= limit || scan_stops_at(bytes, start + done, block - done) {
    } else {
        let idx = start + done;
        let next = done + spec_align(record_len_at(bytes, idx), 8);
        if i32_at(bytes, idx + 4) == PADDING_MSG_TYPE_ID {
            lemma_scan_delivers_typed_records(bytes, start, block, limit, next, msgs);
        } else {
            let msgs1 = msgs.push(delivery_at(bytes, idx));
            lemma_scan_delivers_typed_records(bytes, start, block, limit, next, msgs1);
        }
    }
}

/// An aborted record is never passed to a handler: after `abort(index)` no message of a
/// read has its payload at `index`, since the record's type field holds the padding id.
pub proof fn lemma_aborted_record_skipped(before: OneToOneRingBuffer, after: OneToOneRingBuffer, index: int, limit: int)
    requires
        before.wf(),
        HEADER_LENGTH <= index <= before.data_capacity(),
        is_claimed(before.bytes(), index - HEADER_LENGTH),
        after.wf(),
        after.data_capacity() == before.data_capacity(),
        after.bytes() == aborted_bytes(before.bytes(), index),
    ensures
        i32_at(after.bytes(), index - 4) == PADDING_MSG_TYPE_ID,
        forall|k: int| 0 <= k < after.pending(limit).1.len() ==> after.pending(limit).1[k].1 != index,
{
    let c = before.data_capacity();
    let b1 = write_bytes(before.bytes(), index - 4, i32_bytes(PADDING_MSG_TYPE_ID));
    lemma_i32_round_trip(before.bytes(), index - 4, PADDING_MSG_TYPE_ID);
    lemma_i32_frame(b1, index - HEADER_LENGTH, i32_bytes(-i32_at(before.bytes(), index - HEADER_LENGTH) as i32), index - 4);
    vstd::arithmetic::div_mod::lemma_mod_bound(after.head(), c);
    lemma_scan_delivers_typed_records(after.bytes(), after.read_start(), after.read_block(), limit, 0, Seq::empty());
}

proof fn lemma_i32_agree(a: Seq<u8>, b: Seq<u8>, i: int)
    requires
        0 <= i,
        i + 4 <= a.len(),
        i + 4 <= b.len(),
        a[i] == b[i] && a[i + 1] == b[i + 1] && a[i + 2] == b[i + 2] && a[i + 3] == b[i + 3],
    ensures
        i32_at(a, i) == i32_at(b, i),
{
    reveal(i32_at);
}

/// A read over a block that grew, of bytes that agree on the old block, goes the same way
/// through the old block when the old read went all the way through it.
proof fn lemma_scan_extends(
    old_bytes: Seq<u8>,
    new_bytes: Seq<u8>,
    start: int,
    old_block: int,
    new_block: int,
    limit: int,
    done: int,
    msgs: Seq<Delivery>,
)
    requires
        0 <= start,
        0 <= done <= old_block <= new_block,
        start + old_block <= old_bytes.len(),
        start + old_block <= new_bytes.len(),
        forall|j: int| start + done <= j < start + old_block ==> new_bytes[j] == old_bytes[j],
        scan(old_bytes, start, old_block, limit, done, msgs).0 == old_block,
        scan(old_bytes, start, old_block, limit, done, msgs).1.len() < limit,
    ensures
        scan(new_bytes, start, new_block, limit, done, msgs) == scan(
            new_bytes,
            start,
            new_block,
            limit,
            old_block,
            scan(old_bytes, start, old_block, limit, done, msgs).1,
        ),
    decreases old_block - done,
{
    if done == old_block {
    } else {
        let idx = start + done;
        assert(!scan_stops_at(old_bytes, idx, old_block - done));
        assert(msgs.len() < limit);
        let alen = spec_align(record_len_at(old_bytes, idx), 8);
        assert(alen >= 8);
        lemma_i32_agree(new_bytes, old_bytes, idx);
        lemma_i32_agree(new_bytes, old_bytes, idx + 4);
        if i32_at(old_bytes, idx + 4) == PADDING_MSG_TYPE_ID {
            lemma_scan_extends(old_bytes, new_bytes, start, old_block, new_block, limit, done + alen, msgs);
        } else {
            assert(delivery_at(new_bytes, idx) == delivery_at(old_bytes, idx));
            lemma_scan_extends(
                old_bytes,
                new_bytes,
                start,
                old_block,
                new_block,
                limit,
                done + alen,
                msgs.push(delivery_at(old_bytes, idx)),
            );
        }
    }
}

/// Messages are delivered in the order they were written, unchanged: when every record
/// between the consumer and the producer is published and lies before the end of the
/// region, a message written behind them (without wrapping) is delivered right after
/// them by the next read, with its type id, its length, and its payload bytes at its
/// payload offset.
pub proof fn lemma_write_appends_to_pending(
    before: OneToOneRingBuffer,
    after: OneToOneRingBuffer,
    msg_type_id: i32,
    payload: Seq<u8>,
    limit: int,
)
    requires
        before.wf(),
        before.tail() - before.head() < before.data_capacity() - before.read_start(),
        before.pending(limit).0 == before.tail() - before.head(),
        before.pending(limit).1.len() < limit,
        msg_type_id >= 1,
        payload.len() <= before.max_msg_len(),
        claim_succeeds(
            before.data_capacity(),
            before.tail(),
            before.head_cache(),
            before.head(),
            aligned_record_length(payload.len() as int),
        ),
        !wraps(before.data_capacity(), before.tail(), aligned_record_length(payload.len() as int)),
        after.wf(),
        after.data_capacity() == before.data_capacity(),
        after.head() == before.head(),
        after.tail() == claim_tail(before.data_capacity(), before.tail(), aligned_record_length(payload.len() as int)),
        after.bytes() == written_bytes(
            reserved_bytes(
                before.bytes(),
                before.data_capacity(),
                before.tail(),
                claim_head(
                    before.data_capacity(),
                    before.tail(),
                    before.head_cache(),
                    before.head(),
                    aligned_record_length(payload.len() as int),
                ),
                aligned_record_length(payload.len() as int),
            ),
            before.tail() % before.data_capacity(),
            msg_type_id,
            payload,
        ),
    ensures
        ({
            let idx = before.tail() % before.data_capacity();
            &&& after.pending(limit) == (
                before.tail() - before.head() + aligned_record_length(payload.len() as int),
                before.pending(limit).1.push(
                    (msg_type_id, (idx + HEADER_LENGTH) as i32, payload.len() as i32),
                ),
            )
            &&& after.bytes().subrange(idx + HEADER_LENGTH, idx + HEADER_LENGTH + payload.len()) == payload
        }),
{
    let c = before.data_capacity();
    let t = before.tail();
    let hd = before.head();
    let alen = aligned_record_length(payload.len() as int);
    let idx = t % c;
    let start = hd % c;
    let h = claim_head(c, t, before.head_cache(), hd, alen);
    lemma_pow2_multiple_of_eight(c);
    lemma_claim_arith(c, t, before.head_cache(), hd, alen);
    vstd::arithmetic::div_mod::lemma_mod_bound(hd, c);
    vstd::arithmetic::div_mod::lemma_fundamental_div_mod(hd, c);
    let used = t - hd;
    assert(idx == start + used) by {
        let q = hd / c;
        assert(t == q * c + (start + used)) by (nonlinear_arith)
            requires
                hd == c * q + start,
                t == hd + used,
        ;
        vstd::arithmetic::div_mod::lemma_fundamental_div_mod_converse(t, c, q, start + used);
    }
    let rl = payload.len() + HEADER_LENGTH;
    let r = reserved_bytes(before.bytes(), c, t, h, alen);
    let x1 = write_bytes(r, idx, i32_bytes(-rl as i32));
    let x2 = write_bytes(x1, idx + HEADER_LENGTH, payload);
    let x3 = write_bytes(x2, idx + 4, i32_bytes(msg_type_id));
    let w = write_bytes(x3, idx, i32_bytes(rl as i32));
    assert(w == after.bytes());
    let z = next_record_index(c, idx + alen);
    assert(z == 0 ==> start >= 8);
    assert forall|j: int| start <= j < start + used implies w[j] == before.bytes()[j] by {}
    assert(after.read_start() == start);
    assert(after.read_block() == used + alen);
    let old_res = before.pending(limit);
    lemma_scan_extends(before.bytes(), w, start, used, used + alen, limit, 0, Seq::empty());
    lemma_i32_round_trip(x3, idx, rl as i32);
    lemma_i32_round_trip(x2, idx + 4, msg_type_id);
    lemma_i32_frame(x3, idx, i32_bytes(rl as i32), idx + 4);
    assert(w.subrange(idx + HEADER_LENGTH, idx + HEADER_LENGTH + payload.len()) =~= payload);
    let m = delivery_at(w, idx);
    assert(m == (msg_type_id, (idx + HEADER_LENGTH) as i32, payload.len() as i32));
    assert(!scan_stops_at(w, idx, alen));
    assert(scan(w, start, used + alen, limit, used + alen, old_res.1.push(m)) == (used + alen, old_res.1.push(m)));
}

/// A read that starts `shift` bytes further into the same bytes sees the rest of the
/// same records.
proof fn lemma_scan_shift(
    old_bytes: Seq<u8>,
    new_bytes: Seq<u8>,
    start: int,
    block: int,
    shift: int,
    limit: int,
    done: int,
    msgs: Seq<Delivery>,
)
    requires
        0 <= start,
        0 <= shift,
        0 <= done,
        shift + done <= block,
        start + block + HEADER_LENGTH <= old_bytes.len(),
        start + block + HEADER_LENGTH <= new_bytes.len(),
        forall|j: int| start + shift + done <= j < start + block ==> new_bytes[j] == old_bytes[j],
    ensures
        scan(new_bytes, start + shift, block - shift, limit, done, msgs) == (
            scan(old_bytes, start, block, limit, shift + done, msgs).0 - shift,
            scan(old_bytes, start, block, limit, shift + done, msgs).1,
        ),
    decreases block - shift - done,
{
    let idx = start + shift + done;
    if shift + done >= block || msgs.len() >= limit {
    } else if block - shift - done < HEADER_LENGTH {
        assert(scan_stops_at(old_bytes, idx, block - shift - done));
        assert(scan_stops_at(new_bytes, idx, block - shift - done));
    } else {
        lemma_i32_agree(new_bytes, old_bytes, idx);
        if scan_stops_at(old_bytes, idx, block - shift - done) {
        } else {
            let alen = spec_align(record_len_at(old_bytes, idx), 8);
            assert(alen >= 8);
            lemma_i32_agree(new_bytes, old_bytes, idx + 4);
            if i32_at(old_bytes, idx + 4) == PADDING_MSG_TYPE_ID {
                lemma_scan_shift(old_bytes, new_bytes, start, block, shift, limit, done + alen, msgs);
            } else {
                assert(delivery_at(new_bytes, idx) == delivery_at(old_bytes, idx));
                lemma_scan_shift(
                    old_bytes,
                    new_bytes,
                    start,
                    block,
                    shift,
                    limit,
                    done + alen,
                    msgs.push(delivery_at(old_bytes, idx)),
                );
            }
        }
    }
}

/// Each message is delivered once: after a read that consumed `consumed` bytes without
/// reaching the end of the region, the next read goes on from the first record the
/// previous one did not consume, over the same bytes.
pub proof fn lemma_read_resumes(before: OneToOneRingBuffer, after: OneToOneRingBuffer, limit: int, next_limit: int)
    requires
        before.wf(),
        before.read_start() + before.pending(limit).0 < before.data_capacity(),
        after.wf(),
        after.data_capacity() == before.data_capacity(),
        after.bytes() == consumed_bytes(
            before.bytes(),
            before.data_capacity(),
            before.head(),
            before.pending(limit).0,
        ),
    ensures
        ({
            let rest = scan(
                before.bytes(),
                before.read_start(),
                before.read_block(),
                next_limit,
                before.pending(limit).0,
                Seq::empty(),
            );
            after.pending(next_limit) == (rest.0 - before.pending(limit).0, rest.1)
        }),
{
    let c = before.data_capacity();
    let hd = before.head();
    let t = before.tail();
    let start = before.read_start();
    let block = before.read_block();
    let consumed = before.pending(limit).0;
    lemma_pow2_multiple_of_eight(c);
    vstd::arithmetic::div_mod::lemma_mod_bound(hd, c);
    vstd::arithmetic::div_mod::lemma_fundamental_div_mod(hd, c);
    lemma_scan_bounds(before.bytes(), start, block, limit, 0, Seq::empty());
    if consumed > 0 {
        lemma_i64_round_trip(before.bytes(), c + HEAD_POSITION_OFFSET, (hd + consumed) as i64);
        lemma_i64_frame(before.bytes(), c + HEAD_POSITION_OFFSET, i64_bytes((hd + consumed) as i64), c + TAIL_POSITION_OFFSET);
    }
    assert(after.head() == hd + consumed);
    assert(after.tail() == t);
    assert(after.read_start() == start + consumed) by {
        let q = hd / c;
        assert(hd + consumed == q * c + (start + consumed)) by (nonlinear_arith)
            requires
                hd == c * q + start,
        ;
        vstd::arithmetic::div_mod::lemma_fundamental_div_mod_converse(hd + consumed, c, q, start + consumed);
    }
    assert(after.read_block() == block - consumed);
    assert forall|j: int| start + consumed <= j < start + block implies after.bytes()[j] == before.bytes()[j] by {}
    lemma_scan_shift(before.bytes(), after.bytes(), start, block, consumed, next_limit, 0, Seq::empty());
}

/// A read consumes no more than its block.
proof fn lemma_scan_bounds(bytes: Seq<u8>, start: int, block: int, limit: int, done: int, msgs: Seq<Delivery>)
    requires
        0 <= done <= block,
    ensures
        done <= scan(bytes, start, block, limit, done, msgs).0 <= block,
    decreases block - done,
{
    if done >= block || msgs.len() >= limit || scan_stops_at(bytes, start + done, block - done) {
    } else {
        let idx = start + done;
        let next = done + spec_align(record_len_at(bytes, idx), 8);
        if i32_at(bytes, idx + 4) == PADDING_MSG_TYPE_ID {
            lemma_scan_bounds(bytes, start, block, limit, next, msgs);
        } else {
            lemma_scan_bounds(bytes, start, block, limit, next, msgs.push(delivery_at(bytes, idx)));
        }
    }
}

} // verus!
