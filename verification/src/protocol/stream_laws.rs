//! What holds of streams over several events.

use vstd::prelude::*;
use crate::protocol::packet::CONTROL_STREAM;
use crate::protocol::stream_model as model;
use crate::protocol::stream_model::{
    ManagerModel, StreamModel, StreamState, UnackedModel, INITIAL_RTO, KEEPALIVE_INTERVAL,
    MAX_PING_LOSS, MAX_RETRANSMITS, MAX_RTO, STREAM_WINDOW,
};
use crate::protocol::window;
use crate::time;
use crate::time::Instant;

verus! {

/// Whether the sequence numbers never fall.
pub open spec fn is_sorted(buffer: Seq<(u64, Seq<u8>)>) -> bool {
    forall|i: int, j: int| 0 <= i <= j < buffer.len() ==> (#[trigger] buffer[i]).0 <= (
    #[trigger] buffer[j]).0
}

/// The payloads of the packets numbered `seq`, in order.
pub open spec fn numbered(buffer: Seq<(u64, Seq<u8>)>, seq: nat) -> Seq<Seq<u8>>
    decreases buffer.len(),
{
    if buffer.len() == 0 {
        Seq::empty()
    } else {
        let front = numbered(buffer.drop_last(), seq);
        if buffer.last().0 == seq {
            front.push(buffer.last().1)
        } else {
            front
        }
    }
}

/// Whether `payload` came first of the packets numbered `seq`.
pub open spec fn came_first(buffer: Seq<(u64, Seq<u8>)>, seq: nat, payload: Seq<u8>) -> bool {
    numbered(buffer, seq).len() > 0 && numbered(buffer, seq)[0] == payload
}

/// Where a packet goes in a sorted buffer: behind those with its number or less.
pub proof fn lemma_rank(sorted: Seq<(u64, Seq<u8>)>, seq: u64)
    requires
        is_sorted(sorted),
    ensures
        model::rank(sorted, seq) <= sorted.len(),
        forall|i: int| 0 <= i < model::rank(sorted, seq) ==> (#[trigger] sorted[i]).0 <= seq,
        forall|i: int|
            model::rank(sorted, seq) <= i < sorted.len() ==> (#[trigger] sorted[i]).0 > seq,
    decreases sorted.len(),
{
    if sorted.len() > 0 && sorted.last().0 > seq {
        let front = sorted.drop_last();
        lemma_rank(front, seq);
        assert forall|i: int| 0 <= i < model::rank(sorted, seq) implies (#[trigger] sorted[i]).0
            <= seq by {
            assert(front[i] == sorted[i]);
        }
        assert forall|i: int|
            model::rank(sorted, seq) <= i < sorted.len() implies (#[trigger] sorted[i]).0 > seq by {
            if i < front.len() {
                assert(front[i] == sorted[i]);
            }
        }
    }
}

/// A buffer holds a number exactly where there is a payload under it.
pub proof fn lemma_numbered_none(buffer: Seq<(u64, Seq<u8>)>, seq: nat)
    ensures
        numbered(buffer, seq).len() == 0 <==> !model::holds(buffer, seq),
    decreases buffer.len(),
{
    if buffer.len() > 0 {
        let front = buffer.drop_last();
        lemma_numbered_none(front, seq);
        if model::holds(buffer, seq) {
            let i = choose|i: int| 0 <= i < buffer.len() && (#[trigger] buffer[i]).0 == seq;
            if i < front.len() {
                assert(front[i].0 == seq);
            }
        }
        if model::holds(front, seq) {
            let i = choose|i: int| 0 <= i < front.len() && (#[trigger] front[i]).0 == seq;
            assert(buffer[i].0 == seq);
        }
        if buffer.last().0 == seq {
            assert(buffer[buffer.len() - 1].0 == seq);
        }
    }
}

proof fn lemma_numbered_append(a: Seq<(u64, Seq<u8>)>, b: Seq<(u64, Seq<u8>)>, seq: nat)
    ensures
        numbered(a + b, seq) == numbered(a, seq) + numbered(b, seq),
    decreases b.len(),
{
    if b.len() > 0 {
        lemma_numbered_append(a, b.drop_last(), seq);
        assert((a + b).drop_last() =~= a + b.drop_last());
    } else {
        assert(a + b =~= a);
    }
}

/// Sorting puts the packets in the order of their numbers and keeps, of each
/// number, what there is and the order in which it came.
pub proof fn law_sorting_is_stable(buffer: Seq<(u64, Seq<u8>)>)
    ensures
        is_sorted(model::by_seq(buffer)),
        model::by_seq(buffer).len() == buffer.len(),
        forall|seq: nat| #[trigger]
            numbered(model::by_seq(buffer), seq) == numbered(buffer, seq),
    decreases buffer.len(),
{
    if buffer.len() > 0 {
        let front = buffer.drop_last();
        let p = buffer.last();
        law_sorting_is_stable(front);
        let sorted = model::by_seq(front);
        lemma_rank(sorted, p.0);
        let r = model::rank(sorted, p.0) as int;
        let whole = model::by_seq(buffer);
        assert(whole == sorted.insert(r, p));
        assert forall|i: int, j: int| 0 <= i <= j < whole.len() implies (#[trigger] whole[i]).0 <= (
        #[trigger] whole[j]).0 by {
            let i0 = if i < r { i } else { i - 1 };
            let j0 = if j < r { j } else { j - 1 };
            if i != r && j != r {
                assert(sorted[i0].0 <= sorted[j0].0);
            } else if i != r {
                assert(sorted[i0].0 <= p.0);
            } else if j != r {
                assert(sorted[j0].0 > p.0);
            }
        }
        assert forall|seq: nat| #[trigger] numbered(whole, seq) == numbered(buffer, seq) by {
            let low = sorted.take(r);
            let high = sorted.skip(r);
            assert(sorted =~= low + high);
            assert(whole =~= low.push(p) + high);
            assert(low.push(p) =~= low + seq![p]);
            lemma_numbered_append(low, high, seq);
            lemma_numbered_append(low.push(p), high, seq);
            assert(low.push(p).drop_last() =~= low);
            if seq == p.0 {
                lemma_numbered_none(high, seq);
                if model::holds(high, seq) {
                    let i = choose|i: int| 0 <= i < high.len() && (#[trigger] high[i]).0 == seq;
                    assert(sorted[r + i].0 > p.0);
                }
                assert(numbered(high, seq) =~= Seq::empty());
            }
            assert(numbered(sorted, seq) == numbered(front, seq));
            assert(numbered(whole, seq) =~= numbered(buffer, seq));
        }
    }
}

proof fn lemma_numbered_remove(buffer: Seq<(u64, Seq<u8>)>, i: int, seq: nat)
    requires
        model::is_first(buffer, buffer[i].0 as nat, i),
    ensures
        seq != buffer[i].0 ==> numbered(buffer.remove(i), seq) == numbered(buffer, seq),
        seq == buffer[i].0 ==> numbered(buffer, seq) == seq![buffer[i].1] + numbered(
            buffer.remove(i),
            seq,
        ),
{
    let low = buffer.take(i);
    let high = buffer.skip(i + 1);
    assert(buffer.remove(i) =~= low + high);
    assert(buffer =~= low.push(buffer[i]) + high);
    lemma_numbered_append(low, high, seq);
    lemma_numbered_append(low.push(buffer[i]), high, seq);
    assert(low.push(buffer[i]).drop_last() =~= low);
    if seq == buffer[i].0 {
        lemma_numbered_none(low, seq);
        if model::holds(low, seq) {
            let j = choose|j: int| 0 <= j < low.len() && (#[trigger] low[j]).0 == seq;
            assert(buffer[j].0 != seq);
        }
        assert(numbered(low, seq) =~= Seq::empty());
        assert(numbered(buffer, seq) =~= seq![buffer[i].1] + numbered(buffer.remove(i), seq));
    }
}

/// Where numbers lie in their circle.
pub proof fn lemma_circle(from: nat, to: nat, k: nat)
    requires
        from <= u64::MAX,
        to <= u64::MAX,
    ensures
        model::distance(from, to) <= u64::MAX,
        model::distance(from, to) == 0 <==> from == to,
        to != from ==> model::distance(from, to) == model::distance(model::nth(from, 1), to) + 1,
        model::distance(model::nth(from, 1), from) == u64::MAX,
        0 < k <= u64::MAX ==> model::nth(from, k) != from,
        k <= u64::MAX ==> model::distance(from, model::nth(from, k)) == k,
        model::nth(from, model::distance(from, to)) == to,
{
}

proof fn lemma_drain_order(buffer: Seq<(u64, Seq<u8>)>, next: nat)
    requires
        next <= u64::MAX,
        buffer.len() <= u64::MAX,
    ensures
        !model::holds(model::drain(buffer, next).rest, model::drain(buffer, next).next),
        forall|k: int|
            0 <= k < model::drain(buffer, next).delivered.len() ==> came_first(
                buffer,
                model::nth(next, k as nat),
                #[trigger] model::drain(buffer, next).delivered[k],
            ),
        forall|seq: nat|
            #![trigger numbered(model::drain(buffer, next).rest, seq)]
            seq <= u64::MAX ==> numbered(model::drain(buffer, next).rest, seq)
                == if model::distance(next, seq) < model::drain(buffer, next).delivered.len() {
                numbered(buffer, seq).drop_first()
            } else {
                numbered(buffer, seq)
            },
    decreases buffer.len(),
{
    let all = model::drain(buffer, next);
    model::lemma_nth(next, 0, 0);
    if model::holds(buffer, next) {
        model::lemma_first_exists(buffer, next);
        let i = model::first_at(buffer, next);
        let rest = buffer.remove(i);
        let second = model::nth(next, 1);
        let tail = model::drain(rest, second);
        model::lemma_nth(next, 1, 0);
        lemma_drain_order(rest, second);
        model::lemma_drain_counts(rest, second);
        model::lemma_drain_counts(buffer, next);
        assert forall|k: int| 0 <= k < all.delivered.len() implies came_first(
            buffer,
            model::nth(next, k as nat),
            #[trigger] all.delivered[k],
        ) by {
            lemma_numbered_remove(buffer, i, model::nth(next, k as nat));
            if k > 0 {
                assert(tail.delivered[k - 1] == all.delivered[k]);
                model::lemma_nth(next, 1, (k - 1) as nat);
                lemma_circle(next, next, k as nat);
                assert(came_first(rest, model::nth(next, k as nat), all.delivered[k]));
            }
        }
        assert forall|seq: nat|
            #![trigger numbered(all.rest, seq)]
            seq <= u64::MAX implies numbered(all.rest, seq) == if model::distance(next, seq)
            < all.delivered.len() {
            numbered(buffer, seq).drop_first()
        } else {
            numbered(buffer, seq)
        } by {
            lemma_numbered_remove(buffer, i, seq);
            lemma_circle(next, seq, 0);
            assert(numbered(tail.rest, seq) == numbered(all.rest, seq));
            if seq == next {
                assert(numbered(buffer, seq).drop_first() =~= numbered(rest, seq));
            }
        }
    }
}

/// A packet that is due goes to the application at once, and behind it, number
/// by number, the first that came of each number that was waiting. Nothing
/// that is due then is left waiting, and nothing else leaves the buffer.
pub proof fn law_delivery_is_in_order(
    stream: StreamModel,
    seq: u64,
    payload: Seq<u8>,
    now: Instant,
)
    requires
        stream.receiver_wf(),
        seq == stream.recv_seq,
        stream.recv_window.fits(payload.len()),
    ensures
        stream.delivered(seq, payload).len() > 0,
        stream.delivered(seq, payload)[0] == payload,
        forall|k: int|
            1 <= k < stream.delivered(seq, payload).len() ==> came_first(
                stream.recv_buffer,
                model::nth(seq as nat, k as nat),
                #[trigger] stream.delivered(seq, payload)[k],
            ),
        stream.after_data(seq, payload, now).recv_seq == model::nth(
            seq as nat,
            stream.delivered(seq, payload).len(),
        ),
        stream.after_data(seq, payload, now).receiver_wf(),
        stream.delivered(seq, payload).len() <= stream.recv_buffer.len() + 1,
        !model::holds(
            stream.after_data(seq, payload, now).recv_buffer,
            stream.after_data(seq, payload, now).recv_seq,
        ),
        forall|n: nat|
            #![trigger numbered(stream.after_data(seq, payload, now).recv_buffer, n)]
            n <= u64::MAX ==> numbered(stream.after_data(seq, payload, now).recv_buffer, n)
                == if 0 < model::distance(seq as nat, n) < stream.delivered(seq, payload).len() {
                numbered(stream.recv_buffer, n).drop_first()
            } else {
                numbered(stream.recv_buffer, n)
            },
{
    let buffer = model::by_seq(stream.recv_buffer);
    let next = model::nth(seq as nat, 1);
    law_sorting_is_stable(stream.recv_buffer);
    model::lemma_nth(seq as nat, 1, 0);
    lemma_drain_order(buffer, next);
    model::lemma_drain_counts(buffer, next);
    let all = model::drain(buffer, next);
    model::lemma_nth(seq as nat, 1, all.delivered.len());
    assert forall|k: int| 1 <= k < stream.delivered(seq, payload).len() implies came_first(
        stream.recv_buffer,
        model::nth(seq as nat, k as nat),
        #[trigger] stream.delivered(seq, payload)[k],
    ) by {
        assert(all.delivered[k - 1] == stream.delivered(seq, payload)[k]);
        model::lemma_nth(seq as nat, 1, (k - 1) as nat);
        let n = model::nth(seq as nat, k as nat);
        assert(numbered(buffer, n) == numbered(stream.recv_buffer, n));
    }
    assert forall|n: nat|
        #![trigger numbered(stream.after_data(seq, payload, now).recv_buffer, n)]
        n <= u64::MAX implies numbered(stream.after_data(seq, payload, now).recv_buffer, n) == if 0
        < model::distance(seq as nat, n) < stream.delivered(seq, payload).len() {
        numbered(stream.recv_buffer, n).drop_first()
    } else {
        numbered(stream.recv_buffer, n)
    } by {
        lemma_circle(seq as nat, n, 0);
        assert(numbered(all.rest, n) == if model::distance(next, n) < all.delivered.len() {
            numbered(buffer, n).drop_first()
        } else {
            numbered(buffer, n)
        });
        assert(numbered(buffer, n) == numbered(stream.recv_buffer, n));
    }
}

/// The stream after a row of data packets, each with its number, its payload
/// and the time at which it came.
pub open spec fn after_arrivals(
    stream: StreamModel,
    arrivals: Seq<(u64, Seq<u8>, Instant)>,
) -> StreamModel
    decreases arrivals.len(),
{
    if arrivals.len() == 0 {
        stream
    } else {
        let last = arrivals.last();
        after_arrivals(stream, arrivals.drop_last()).after_data(last.0, last.1, last.2)
    }
}

/// All that a row of data packets hands to the application.
pub open spec fn delivered_by(
    stream: StreamModel,
    arrivals: Seq<(u64, Seq<u8>, Instant)>,
) -> Seq<Seq<u8>>
    decreases arrivals.len(),
{
    if arrivals.len() == 0 {
        Seq::empty()
    } else {
        let front = arrivals.drop_last();
        let last = arrivals.last();
        delivered_by(stream, front) + after_arrivals(stream, front).delivered(last.0, last.1)
    }
}

/// Whether each packet in a buffer carries what the sender put under its number.
pub open spec fn is_genuine(
    buffer: Seq<(u64, Seq<u8>)>,
    data: spec_fn(nat) -> Seq<u8>,
) -> bool {
    forall|i: int|
        0 <= i < buffer.len() ==> (#[trigger] buffer[i]).1 == data(buffer[i].0 as nat)
}

proof fn lemma_genuine_numbered(
    buffer: Seq<(u64, Seq<u8>)>,
    data: spec_fn(nat) -> Seq<u8>,
    seq: nat,
)
    requires
        is_genuine(buffer, data),
    ensures
        forall|k: int|
            0 <= k < numbered(buffer, seq).len() ==> (#[trigger] numbered(buffer, seq)[k]) == data(
                seq,
            ),
    decreases buffer.len(),
{
    if buffer.len() > 0 {
        let front = buffer.drop_last();
        assert forall|i: int| 0 <= i < front.len() implies (#[trigger] front[i]).1 == data(
            front[i].0 as nat,
        ) by {
            assert(buffer[i] == front[i]);
        }
        lemma_genuine_numbered(front, data, seq);
        let payloads = numbered(buffer, seq);
        assert(buffer[buffer.len() - 1].1 == data(buffer[buffer.len() - 1].0 as nat));
        assert forall|k: int| 0 <= k < payloads.len() implies (#[trigger] payloads[k]) == data(
            seq,
        ) by {
            if k < numbered(front, seq).len() {
                assert(payloads[k] == numbered(front, seq)[k]);
            }
        }
    }
}

proof fn lemma_genuine_by_seq(buffer: Seq<(u64, Seq<u8>)>, data: spec_fn(nat) -> Seq<u8>)
    requires
        is_genuine(buffer, data),
    ensures
        is_genuine(model::by_seq(buffer), data),
    decreases buffer.len(),
{
    if buffer.len() > 0 {
        let front = buffer.drop_last();
        assert forall|i: int| 0 <= i < front.len() implies (#[trigger] front[i]).1 == data(
            front[i].0 as nat,
        ) by {
            assert(buffer[i] == front[i]);
        }
        lemma_genuine_by_seq(front, data);
        law_sorting_is_stable(front);
        let sorted = model::by_seq(front);
        let p = buffer.last();
        lemma_rank(sorted, p.0);
        let r = model::rank(sorted, p.0) as int;
        let whole = model::by_seq(buffer);
        assert(buffer[buffer.len() - 1] == p);
        assert forall|i: int| 0 <= i < whole.len() implies (#[trigger] whole[i]).1 == data(
            whole[i].0 as nat,
        ) by {
            if i < r {
                assert(whole[i] == sorted[i]);
            } else if i > r {
                assert(whole[i] == sorted[i - 1]);
            } else {
                assert(whole[i] == p);
            }
        }
    }
}

proof fn lemma_genuine_drain(
    buffer: Seq<(u64, Seq<u8>)>,
    next: nat,
    data: spec_fn(nat) -> Seq<u8>,
)
    requires
        is_genuine(buffer, data),
    ensures
        is_genuine(model::drain(buffer, next).rest, data),
    decreases buffer.len(),
{
    if model::holds(buffer, next) {
        model::lemma_first_exists(buffer, next);
        let i = model::first_at(buffer, next);
        let rest = buffer.remove(i);
        assert forall|j: int| 0 <= j < rest.len() implies (#[trigger] rest[j]).1 == data(
            rest[j].0 as nat,
        ) by {
            assert(rest[j] == buffer[if j < i { j } else { j + 1 }]);
        }
        lemma_genuine_drain(rest, model::nth(next, 1), data);
    }
}

/// The application gets what was sent, in the order in which it was sent,
/// without a gap and nothing twice: whatever packets come, in whatever order
/// and how often, as long as each carries what the sender put under its number.
pub proof fn law_stream_is_faithful(
    stream: StreamModel,
    arrivals: Seq<(u64, Seq<u8>, Instant)>,
    data: spec_fn(nat) -> Seq<u8>,
)
    requires
        stream.receiver_wf(),
        is_genuine(stream.recv_buffer, data),
        forall|i: int|
            0 <= i < arrivals.len() ==> (#[trigger] arrivals[i]).1 == data(arrivals[i].0 as nat),
    ensures
        after_arrivals(stream, arrivals).receiver_wf(),
        after_arrivals(stream, arrivals).recv_seq == model::nth(
            stream.recv_seq,
            delivered_by(stream, arrivals).len(),
        ),
        forall|k: int|
            0 <= k < delivered_by(stream, arrivals).len() ==> (#[trigger] delivered_by(
                stream,
                arrivals,
            )[k]) == data(model::nth(stream.recv_seq, k as nat)),
        is_genuine(after_arrivals(stream, arrivals).recv_buffer, data),
    decreases arrivals.len(),
{
    model::lemma_nth(stream.recv_seq, 0, 0);
    if arrivals.len() > 0 {
        let front = arrivals.drop_last();
        let last = arrivals.last();
        assert forall|i: int| 0 <= i < front.len() implies (#[trigger] front[i]).1 == data(
            front[i].0 as nat,
        ) by {
            assert(arrivals[i] == front[i]);
        }
        law_stream_is_faithful(stream, front, data);
        assert(arrivals[arrivals.len() - 1] == last);
        let before = after_arrivals(stream, front);
        let due = before.delivered(last.0, last.1);
        let got = delivered_by(stream, front);
        model::lemma_nth(before.recv_seq, 0, 0);
        model::lemma_nth(stream.recv_seq, got.len(), due.len());
        if before.recv_window.fits(last.1.len()) && last.0 == before.recv_seq {
            law_delivery_is_in_order(before, last.0, last.1, last.2);
            lemma_genuine_by_seq(before.recv_buffer, data);
            lemma_genuine_drain(
                model::by_seq(before.recv_buffer),
                model::nth(before.recv_seq, 1),
                data,
            );
            assert forall|k: int| 0 <= k < due.len() implies (#[trigger] due[k]) == data(
                model::nth(before.recv_seq, k as nat),
            ) by {
                if k > 0 {
                    let n = model::nth(before.recv_seq, k as nat);
                    lemma_genuine_numbered(before.recv_buffer, data, n);
                    assert(came_first(before.recv_buffer, n, due[k]));
                    assert(numbered(before.recv_buffer, n)[0] == data(n));
                }
            }
        }
        assert forall|k: int| 0 <= k < delivered_by(stream, arrivals).len() implies (
        #[trigger] delivered_by(stream, arrivals)[k]) == data(
            model::nth(stream.recv_seq, k as nat),
        ) by {
            if k < got.len() {
                assert(got[k] == delivered_by(stream, arrivals)[k]);
            } else {
                assert(due[k - got.len()] == delivered_by(stream, arrivals)[k]);
                model::lemma_nth(stream.recv_seq, got.len(), (k - got.len()) as nat);
            }
        }
    }
}

/// A packet that is due is never left waiting, and no more packets are waiting
/// than are kept, whatever packets come.
pub proof fn law_nothing_due_is_left_waiting(
    stream: StreamModel,
    arrivals: Seq<(u64, Seq<u8>, Instant)>,
)
    requires
        stream.receiver_wf(),
        !model::holds(stream.recv_buffer, stream.recv_seq),
    ensures
        after_arrivals(stream, arrivals).receiver_wf(),
        after_arrivals(stream, arrivals).recv_buffer.len() <= model::REORDER_LIMIT,
        !model::holds(
            after_arrivals(stream, arrivals).recv_buffer,
            after_arrivals(stream, arrivals).recv_seq,
        ),
    decreases arrivals.len(),
{
    if arrivals.len() > 0 {
        let last = arrivals.last();
        law_nothing_due_is_left_waiting(stream, arrivals.drop_last());
        let before = after_arrivals(stream, arrivals.drop_last());
        let after = before.after_data(last.0, last.1, last.2);
        if before.recv_window.fits(last.1.len()) && last.0 == before.recv_seq {
            law_delivery_is_in_order(before, last.0, last.1, last.2);
        } else if model::holds(after.recv_buffer, after.recv_seq) {
            let i = choose|i: int|
                0 <= i < after.recv_buffer.len() && (#[trigger] after.recv_buffer[i]).0
                    == after.recv_seq;
            if i < before.recv_buffer.len() {
                assert(before.recv_buffer[i].0 == before.recv_seq);
            }
        }
    }
}

/// The manager after a row of data packets on one stream.
pub open spec fn manager_after(
    manager: ManagerModel,
    id: u16,
    arrivals: Seq<(u64, Seq<u8>, Instant)>,
) -> ManagerModel
    decreases arrivals.len(),
{
    if arrivals.len() == 0 {
        manager
    } else {
        let last = arrivals.last();
        manager_after(manager, id, arrivals.drop_last()).after_data(id, last.0, last.1, last.2)
    }
}

/// All that they hand to the application.
pub open spec fn manager_delivered(
    manager: ManagerModel,
    id: u16,
    arrivals: Seq<(u64, Seq<u8>, Instant)>,
) -> Seq<Seq<u8>>
    decreases arrivals.len(),
{
    if arrivals.len() == 0 {
        Seq::empty()
    } else {
        let front = arrivals.drop_last();
        let last = arrivals.last();
        manager_delivered(manager, id, front) + manager_after(manager, id, front).delivered(
            id,
            last.0,
            last.1,
        )
    }
}

proof fn lemma_manager_row(
    manager: ManagerModel,
    id: u16,
    arrivals: Seq<(u64, Seq<u8>, Instant)>,
)
    requires
        manager.streams.contains_key(id),
    ensures
        manager_after(manager, id, arrivals).streams.contains_key(id),
        manager_after(manager, id, arrivals).streams[id] == after_arrivals(
            manager.streams[id],
            arrivals,
        ),
        manager_delivered(manager, id, arrivals) == delivered_by(manager.streams[id], arrivals),
    decreases arrivals.len(),
{
    if arrivals.len() > 0 {
        lemma_manager_row(manager, id, arrivals.drop_last());
    }
}

/// What the manager hands out over a row of data packets on one stream, in
/// whatever order and however often they come, is what was sent from the packet
/// that was due on: in order, without a gap, and nothing twice. What is due then
/// comes right after it; at most so many packets are waiting as are kept, and
/// none of them is due.
pub proof fn law_data_is_delivered_in_order(
    manager: ManagerModel,
    id: u16,
    arrivals: Seq<(u64, Seq<u8>, Instant)>,
    data: spec_fn(nat) -> Seq<u8>,
)
    requires
        manager.wf(),
        manager.streams.contains_key(id),
        manager.streams[id].recv_buffer.len() == 0,
        forall|i: int|
            0 <= i < arrivals.len() ==> (#[trigger] arrivals[i]).1 == data(arrivals[i].0 as nat),
    ensures
        ({
            let first = manager.streams[id].recv_seq;
            let out = manager_delivered(manager, id, arrivals);
            let after = manager_after(manager, id, arrivals).streams[id];
            &&& manager_after(manager, id, arrivals).streams.contains_key(id)
            &&& forall|k: int|
                0 <= k < out.len() ==> (#[trigger] out[k]) == data(model::nth(first, k as nat))
            &&& after.recv_seq == model::nth(first, out.len())
            &&& first + out.len() <= u64::MAX ==> after.recv_seq == first + out.len()
            &&& after.recv_buffer.len() <= model::REORDER_LIMIT
            &&& !model::holds(after.recv_buffer, after.recv_seq)
        }),
{
    let stream = manager.streams[id];
    lemma_manager_row(manager, id, arrivals);
    law_stream_is_faithful(stream, arrivals, data);
    law_nothing_due_is_left_waiting(stream, arrivals);
}

/// A packet that comes one too early is handed over behind the one that it
/// overtook.
pub proof fn law_overtaking_is_undone(
    stream: StreamModel,
    first: Seq<u8>,
    second: Seq<u8>,
    then: Instant,
    now: Instant,
)
    requires
        stream.receiver_wf(),
        stream.recv_window.fits(first.len() + second.len()),
        stream.recv_buffer.len() < model::REORDER_LIMIT,
        !model::holds(stream.recv_buffer, model::nth(stream.recv_seq, 1)),
        !model::holds(stream.recv_buffer, model::nth(stream.recv_seq, 2)),
    ensures
        ({
            let early = model::nth(stream.recv_seq, 1) as u64;
            let waiting = stream.after_data(early, second, then);
            &&& stream.delivered(early, second) == Seq::<Seq<u8>>::empty()
            &&& waiting.delivered(stream.recv_seq as u64, first) == seq![first, second]
            &&& waiting.after_data(stream.recv_seq as u64, first, now).recv_seq == model::nth(
                stream.recv_seq,
                2,
            )
        }),
{
    let r = stream.recv_seq;
    let one = model::nth(r, 1);
    let two = model::nth(r, 2);
    let early = one as u64;
    model::lemma_nth(r, 1, 1);
    lemma_circle(r, one, 1);
    lemma_circle(one, two, 1);
    assert(window::is_after(early as int, r as int));
    let waiting = stream.after_data(early, second, then);
    let buffer = waiting.recv_buffer;
    assert(buffer == stream.recv_buffer.push((early, second)));
    assert(buffer.drop_last() =~= stream.recv_buffer);
    lemma_numbered_none(stream.recv_buffer, one);
    lemma_numbered_none(stream.recv_buffer, two);
    assert(numbered(buffer, one) =~= seq![second]);
    assert(numbered(buffer, two) =~= Seq::empty());
    law_sorting_is_stable(buffer);
    let sorted = model::by_seq(buffer);
    assert(numbered(sorted, one) == numbered(buffer, one));
    assert(numbered(sorted, two) == numbered(buffer, two));
    lemma_numbered_none(sorted, one);
    model::lemma_first_exists(sorted, one);
    let i = model::first_at(sorted, one);
    lemma_numbered_remove(sorted, i, one);
    lemma_numbered_remove(sorted, i, two);
    let rest = sorted.remove(i);
    lemma_numbered_none(rest, two);
    let tail = model::drain(rest, two);
    assert(tail.delivered =~= Seq::empty());
    assert(model::drain(sorted, one).delivered =~= seq![second]);
    assert(waiting.delivered(r as u64, first) =~= seq![first, second]);
}

/// A packet that was delivered before is not delivered again, and changes
/// neither what is due nor what is waiting.
pub proof fn law_old_packet_is_dropped(
    stream: StreamModel,
    seq: u64,
    payload: Seq<u8>,
    now: Instant,
)
    requires
        window::is_after(stream.recv_seq as int, seq as int),
        stream.recv_seq <= u64::MAX,
    ensures
        stream.delivered(seq, payload) == Seq::<Seq<u8>>::empty(),
        stream.after_data(seq, payload, now).recv_seq == stream.recv_seq,
        stream.after_data(seq, payload, now).recv_buffer == stream.recv_buffer,
{
}

/// What is acknowledged to the other end never falls before the numbers begin
/// anew.
pub proof fn law_acknowledgement_never_falls(
    stream: StreamModel,
    arrivals: Seq<(u64, Seq<u8>, Instant)>,
)
    requires
        stream.receiver_wf(),
        stream.recv_seq + delivered_by(stream, arrivals).len() <= u64::MAX,
    ensures
        after_arrivals(stream, arrivals).current_ack() >= stream.current_ack(),
{
    lemma_advance(stream, arrivals);
}

proof fn lemma_advance(stream: StreamModel, arrivals: Seq<(u64, Seq<u8>, Instant)>)
    requires
        stream.receiver_wf(),
    ensures
        after_arrivals(stream, arrivals).receiver_wf(),
        after_arrivals(stream, arrivals).recv_seq == model::nth(
            stream.recv_seq,
            delivered_by(stream, arrivals).len(),
        ),
    decreases arrivals.len(),
{
    model::lemma_nth(stream.recv_seq, 0, 0);
    if arrivals.len() > 0 {
        let front = arrivals.drop_last();
        let last = arrivals.last();
        lemma_advance(stream, front);
        let before = after_arrivals(stream, front);
        model::lemma_nth(before.recv_seq, 0, 0);
        model::lemma_nth(
            stream.recv_seq,
            delivered_by(stream, front).len(),
            before.delivered(last.0, last.1).len(),
        );
        if before.recv_window.fits(last.1.len()) && last.0 == before.recv_seq {
            law_delivery_is_in_order(before, last.0, last.1, last.2);
        }
    }
}

/// An acknowledgement takes off the queue exactly the packets up to its
/// number; the others stay in their order.
pub proof fn law_ack_takes_what_it_covers(stream: StreamModel, ack_num: u64)
    ensures
        stream.after_ack(ack_num).unacked == model::uncovered(stream.unacked, ack_num),
        forall|i: int|
            0 <= i < stream.after_ack(ack_num).unacked.len() ==> (#[trigger] stream.after_ack(
                ack_num,
            ).unacked[i]).seq > ack_num,
        forall|p: UnackedModel|
            stream.unacked.contains(p) && p.seq > ack_num ==> #[trigger] stream.after_ack(
                ack_num,
            ).unacked.contains(p),
{
    if model::uncovered(stream.unacked, ack_num).len() >= stream.unacked.len() {
        model::lemma_queue_parts(stream.unacked, ack_num);
        model::lemma_uncovered_all(stream.unacked, ack_num);
    }
    let open = |p: UnackedModel| p.seq > ack_num;
    assert forall|i: int| 0 <= i < stream.after_ack(ack_num).unacked.len() implies (
    #[trigger] stream.after_ack(ack_num).unacked[i]).seq > ack_num by {
        stream.unacked.lemma_filter_pred(open, i);
    }
    assert forall|p: UnackedModel|
        stream.unacked.contains(p) && p.seq > ack_num implies #[trigger] stream.after_ack(
        ack_num,
    ).unacked.contains(p) by {
        let i = choose|i: int| 0 <= i < stream.unacked.len() && stream.unacked[i] == p;
        stream.unacked.lemma_filter_contains(open, i);
    }
}

/// Whether a packet is the first in the queue above a number.
pub open spec fn is_first_above(
    unacked: Seq<UnackedModel>,
    ack_num: u64,
    p: UnackedModel,
) -> bool {
    model::uncovered(unacked, ack_num).len() > 0 && model::uncovered(unacked, ack_num)[0] == p
}

/// Whether a packet is the first in the queue above one of the numbers.
pub open spec fn is_pointed_at(
    unacked: Seq<UnackedModel>,
    hints: Set<u64>,
    p: UnackedModel,
) -> bool {
    exists|a: u64| hints.contains(a) && #[trigger] is_first_above(unacked, a, p)
}

proof fn lemma_uncovered_front(unacked: Seq<UnackedModel>, ack_num: u64)
    requires
        unacked.len() > 0,
    ensures
        model::uncovered(unacked, ack_num) == if unacked[0].seq > ack_num {
            seq![unacked[0]] + model::uncovered(unacked.drop_first(), ack_num)
        } else {
            model::uncovered(unacked.drop_first(), ack_num)
        },
{
    let open = |p: UnackedModel| p.seq > ack_num;
    let rest = unacked.drop_first();
    rest.lemma_filter_prepend(unacked[0], open);
    assert(seq![unacked[0]] + rest =~= unacked);
}

/// Whether a packet was due: it had waited, or was pointed at.
spec fn was_due(
    unacked: Seq<UnackedModel>,
    hints: Set<u64>,
    rto: nat,
    now: Instant,
    p: UnackedModel,
) -> bool {
    time::elapsed(now, p.sent_at) >= rto || is_pointed_at(unacked, hints, p)
}

proof fn lemma_rescan_sent(
    unacked: Seq<UnackedModel>,
    hints: Set<u64>,
    rto: nat,
    now: Instant,
)
    ensures
        forall|k: int|
            0 <= k < model::rescan(unacked, hints, rto, now).sent.len() ==> unacked.contains(
                #[trigger] model::rescan(unacked, hints, rto, now).sent[k],
            ),
        rto <= MAX_RTO ==> forall|k: int|
            0 <= k < model::rescan(unacked, hints, rto, now).sent.len() ==> was_due(
                unacked,
                hints,
                rto,
                now,
                #[trigger] model::rescan(unacked, hints, rto, now).sent[k],
            ),
        forall|k: int|
            0 <= k < model::rescan(unacked, hints, rto, now).sent.len() ==> (
            #[trigger] model::rescan(unacked, hints, rto, now).sent[k]).retransmits
                < MAX_RETRANSMITS,
        rto <= MAX_RTO ==> rto <= model::rescan(unacked, hints, rto, now).rto <= MAX_RTO,
    decreases unacked.len(),
{
    if unacked.len() > 0 {
        let all = model::rescan(unacked, hints, rto, now);
        let head = unacked[0];
        let rest = unacked.drop_first();
        let left = model::hints_from(hints, head.seq);
        let waits = !model::goes_out(head, hints, rto, now);
        if !waits || !model::has_waited(head, rto, now) {
            let after = if waits {
                rto
            } else {
                model::backed_off(rto)
            };
            let tail = model::rescan(rest, left, after, now);
            lemma_rescan_sent(rest, left, after, now);
            assert forall|k: int| 0 <= k < all.sent.len() implies unacked.contains(
                #[trigger] all.sent[k],
            ) && all.sent[k].retransmits < MAX_RETRANSMITS && (rto <= MAX_RTO ==> was_due(
                unacked,
                hints,
                rto,
                now,
                all.sent[k],
            )) by {
                if !waits && k == 0 {
                    assert(unacked[0] == all.sent[k]);
                    if model::is_hinted(hints, head.seq) {
                        let a = choose|a: u64| #[trigger] hints.contains(a) && a < head.seq;
                        lemma_uncovered_front(unacked, a);
                        assert(is_first_above(unacked, a, head));
                    }
                } else {
                    let j = if waits {
                        k
                    } else {
                        k - 1
                    };
                    assert(tail.sent[j] == all.sent[k]);
                    let i = choose|i: int| 0 <= i < rest.len() && rest[i] == tail.sent[j];
                    assert(unacked[i + 1] == all.sent[k]);
                    if is_pointed_at(rest, left, tail.sent[j]) {
                        let a = choose|a: u64|
                            left.contains(a) && #[trigger] is_first_above(rest, a, tail.sent[j]);
                        lemma_uncovered_front(unacked, a);
                        assert(is_first_above(unacked, a, all.sent[k]));
                    }
                }
            }
        }
    }
}

/// What goes out again was recorded before, has not been sent too often, and has
/// waited for at least the waiting time of the stream or is the packet behind an
/// acknowledgement that has come too often.
pub proof fn law_only_due_packets_are_resent(stream: StreamModel, now: Instant)
    requires
        stream.rto <= MAX_RTO,
    ensures
        forall|k: int|
            0 <= k < stream.rescanned(now).sent.len() ==> stream.unacked.contains(
                #[trigger] stream.rescanned(now).sent[k],
            ) && stream.rescanned(now).sent[k].retransmits < MAX_RETRANSMITS && (time::elapsed(
                now,
                stream.rescanned(now).sent[k].sent_at,
            ) >= stream.rto || is_pointed_at(
                stream.unacked,
                stream.hints(),
                stream.rescanned(now).sent[k],
            )),
{
    lemma_rescan_sent(stream.unacked, stream.hints(), stream.rto, now);
    assert forall|k: int| 0 <= k < stream.rescanned(now).sent.len() implies (time::elapsed(
        now,
        (#[trigger] stream.rescanned(now).sent[k]).sent_at,
    ) >= stream.rto || is_pointed_at(
        stream.unacked,
        stream.hints(),
        stream.rescanned(now).sent[k],
    )) by {
        assert(was_due(
            stream.unacked,
            stream.hints(),
            stream.rto,
            now,
            stream.rescanned(now).sent[k],
        ));
    }
}

proof fn lemma_rescan_hint(
    unacked: Seq<UnackedModel>,
    hints: Set<u64>,
    rto: nat,
    now: Instant,
    a: u64,
)
    requires
        hints.contains(a),
        model::uncovered(unacked, a).len() > 0,
        model::uncovered(unacked, a)[0].retransmits < MAX_RETRANSMITS,
        !model::rescan(unacked, hints, rto, now).dead,
    ensures
        model::rescan(unacked, hints, rto, now).sent.contains(model::uncovered(unacked, a)[0]),
        model::rescan(unacked, hints, rto, now).answered.contains(a),
    decreases unacked.len(),
{
    if unacked.len() == 0 {
        reveal(Seq::filter);
    } else {
        let all = model::rescan(unacked, hints, rto, now);
        let head = unacked[0];
        let rest = unacked.drop_first();
        let left = model::hints_from(hints, head.seq);
        lemma_uncovered_front(unacked, a);
        if head.seq > a {
            assert(model::is_hinted(hints, head.seq));
            assert(all.sent[0] == head);
        } else {
            let waits = !model::goes_out(head, hints, rto, now);
            let after = if waits {
                rto
            } else {
                model::backed_off(rto)
            };
            let tail = model::rescan(rest, left, after, now);
            lemma_rescan_hint(rest, left, after, now, a);
            let p = model::uncovered(rest, a)[0];
            let k = choose|k: int| 0 <= k < tail.sent.len() && tail.sent[k] == p;
            assert(all.sent[if waits { k } else { k + 1 }] == p);
        }
    }
}

/// Fast retransmit: when an acknowledgement has come often enough without
/// covering anything, the first packet above it goes out again at the next look,
/// however short it has waited, unless it was sent too often or the stream is
/// given up. That packet is not pointed at again, and the counts stay as they
/// are.
pub proof fn law_fast_retransmit(stream: StreamModel, ack_num: u64, now: Instant)
    requires
        stream.ack_count(ack_num) >= model::DUP_ACK_LIMIT,
        !stream.answered.contains(ack_num),
        model::uncovered(stream.unacked, ack_num).len() > 0,
        model::uncovered(stream.unacked, ack_num)[0].retransmits < MAX_RETRANSMITS,
        !stream.rescanned(now).dead,
    ensures
        stream.rescanned(now).sent.contains(model::uncovered(stream.unacked, ack_num)[0]),
        !stream.after_resend(now).hints().contains(ack_num),
        stream.after_resend(now).dup_acks == stream.dup_acks,
{
    lemma_rescan_hint(stream.unacked, stream.hints(), stream.rto, now, ack_num);
}

proof fn lemma_idle_look(unacked: Seq<UnackedModel>, hints: Set<u64>, rto: nat, now: Instant)
    requires
        model::rescan(unacked, hints, rto, now).sent.len() == 0,
    ensures
        model::rescan(unacked, hints, rto, now).unacked == unacked,
        model::rescan(unacked, hints, rto, now).rto == rto,
        model::rescan(unacked, hints, rto, now).answered == Set::<u64>::empty(),
    decreases unacked.len(),
{
    if unacked.len() > 0 {
        let head = unacked[0];
        let rest = unacked.drop_first();
        if !model::goes_out(head, hints, rto, now) && !model::has_waited(head, rto, now) {
            lemma_idle_look(rest, model::hints_from(hints, head.seq), rto, now);
            assert(seq![head] + rest =~= unacked);
        }
    }
}

/// A look that sends nothing on a stream leaves it as it is.
pub proof fn law_idle_look_changes_nothing(stream: StreamModel, now: Instant)
    requires
        stream.rescanned(now).sent.len() == 0,
    ensures
        stream.after_resend(now) == stream,
{
    lemma_idle_look(stream.unacked, stream.hints(), stream.rto, now);
    assert(stream.after_resend(now) =~= stream);
}

/// A look that sends nothing and gives up no stream leaves all of them as they
/// are.
pub proof fn law_idle_look_keeps_the_streams(manager: ManagerModel, now: Instant)
    requires
        forall|id: u16| #[trigger]
            manager.streams.contains_key(id) ==> {
                &&& !manager.streams[id].rescanned(now).dead
                &&& manager.streams[id].rescanned(now).sent.len() == 0
            },
    ensures
        manager.after_resend(now) == manager,
{
    assert forall|id: u16| #[trigger] manager.streams.contains_key(id) implies
        manager.streams[id].after_resend(now) == manager.streams[id] by {
        law_idle_look_changes_nothing(manager.streams[id], now);
    }
    assert(manager.after_resend(now).streams =~= manager.streams);
}

proof fn lemma_nothing_due(unacked: Seq<UnackedModel>, hints: Set<u64>, rto: nat, now: Instant)
    requires
        forall|i: int|
            0 <= i < unacked.len() ==> time::elapsed(now, (#[trigger] unacked[i]).sent_at) < rto,
        forall|i: int, a: u64|
            0 <= i < unacked.len() && #[trigger] hints.contains(a) ==> (
            #[trigger] unacked[i]).seq <= a,
    ensures
        model::rescan(unacked, hints, rto, now).sent.len() == 0,
        !model::rescan(unacked, hints, rto, now).dead,
    decreases unacked.len(),
{
    if unacked.len() > 0 {
        let head = unacked[0];
        let rest = unacked.drop_first();
        let left = model::hints_from(hints, head.seq);
        assert(!model::is_hinted(hints, head.seq));
        assert forall|i: int| 0 <= i < rest.len() implies time::elapsed(
            now,
            (#[trigger] rest[i]).sent_at,
        ) < rto by {
            assert(unacked[i + 1] == rest[i]);
        }
        assert forall|i: int, a: u64|
            0 <= i < rest.len() && #[trigger] left.contains(a) implies (#[trigger] rest[i]).seq
            <= a by {
            assert(hints.contains(a));
            assert(unacked[i + 1] == rest[i]);
        }
        lemma_nothing_due(rest, left, rto, now);
    }
}

/// A stream on which no packet has waited for the waiting time, and none stands
/// behind an acknowledgement that has come too often, is left alone: nothing is
/// sent on it, and it does not change.
pub proof fn law_nothing_due_nothing_sent(stream: StreamModel, now: Instant)
    requires
        forall|i: int|
            0 <= i < stream.unacked.len() ==> time::elapsed(
                now,
                (#[trigger] stream.unacked[i]).sent_at,
            ) < stream.rto,
        forall|i: int, a: u64|
            0 <= i < stream.unacked.len() && #[trigger] stream.hints().contains(a) ==> (
            #[trigger] stream.unacked[i]).seq <= a,
    ensures
        stream.rescanned(now).sent.len() == 0,
        !stream.rescanned(now).dead,
        stream.after_resend(now) == stream,
{
    lemma_nothing_due(stream.unacked, stream.hints(), stream.rto, now);
    law_idle_look_changes_nothing(stream, now);
}

/// Three acknowledgements of the same number that cover nothing send the first
/// packet of the queue again at once.
pub proof fn law_three_duplicates_resend(stream: StreamModel, ack_num: u64, now: Instant)
    requires
        stream.ack_count(ack_num) == 0,
        stream.answers_wf(),
        stream.unacked.len() > 0,
        forall|i: int|
            0 <= i < stream.unacked.len() ==> (#[trigger] stream.unacked[i]).seq > ack_num,
        stream.unacked[0].retransmits < MAX_RETRANSMITS,
    ensures
        ({
            let after = stream.after_ack(ack_num).after_ack(ack_num).after_ack(ack_num);
            &&& after.unacked == stream.unacked
            &&& after.rescanned(now).sent.len() > 0
            &&& after.rescanned(now).sent[0] == stream.unacked[0]
        }),
{
    lemma_uncovered_is_all(stream.unacked, ack_num);
    let one = stream.after_ack(ack_num);
    let two = one.after_ack(ack_num);
    let three = two.after_ack(ack_num);
    assert(three.ack_count(ack_num) == 3);
    assert(three.hints().contains(ack_num));
    assert(model::is_hinted(three.hints(), stream.unacked[0].seq));
}

/// Where an acknowledgement covers nothing, the whole queue stays open.
pub proof fn lemma_uncovered_is_all(unacked: Seq<UnackedModel>, ack_num: u64)
    requires
        forall|i: int| 0 <= i < unacked.len() ==> (#[trigger] unacked[i]).seq > ack_num,
    ensures
        model::uncovered(unacked, ack_num) == unacked,
    decreases unacked.len(),
{
    if unacked.len() > 0 {
        let front = unacked.drop_last();
        assert forall|i: int| 0 <= i < front.len() implies (#[trigger] front[i]).seq
            > ack_num by {
            assert(unacked[i] == front[i]);
        }
        lemma_uncovered_is_all(front, ack_num);
        model::lemma_queue_push(front, unacked.last(), ack_num);
        assert(front.push(unacked.last()) =~= unacked);
    } else {
        reveal(Seq::filter);
    }
}

proof fn lemma_second_look(
    unacked: Seq<UnackedModel>,
    hints: Set<u64>,
    rto: nat,
    now: Instant,
    later: nat,
)
    requires
        0 < rto <= MAX_RTO,
        !model::rescan(unacked, hints, rto, now).dead,
        later >= model::rescan(unacked, hints, rto, now).rto,
    ensures
        ({
            let once = model::rescan(unacked, hints, rto, now);
            let again = model::rescan(
                once.unacked,
                hints.difference(once.answered),
                later,
                now,
            );
            again.sent.len() == 0 && !again.dead
        }),
    decreases unacked.len(),
{
    let all = model::rescan(unacked, hints, rto, now);
    lemma_rescan_sent(unacked, hints, rto, now);
    if unacked.len() > 0 {
        let head = unacked[0];
        let rest = unacked.drop_first();
        let left = model::hints_from(hints, head.seq);
        let waits = !model::goes_out(head, hints, rto, now);
        let after = if waits {
            rto
        } else {
            model::backed_off(rto)
        };
        let tail = model::rescan(rest, left, after, now);
        model::lemma_rescan_answers(rest, left, after, now);
        lemma_second_look(rest, left, after, now, later);
        let open = hints.difference(all.answered);
        let first = all.unacked[0];
        assert(all.unacked.drop_first() =~= tail.unacked);
        assert(model::hints_from(open, first.seq) =~= left.difference(tail.answered));
        assert(time::elapsed(now, first.sent_at) < later);
        if model::is_hinted(open, first.seq) {
            let a = choose|a: u64| #[trigger] open.contains(a) && a < first.seq;
            assert(hints.contains(a));
            assert(model::is_hinted(hints, head.seq));
        }
        assert(!model::goes_out(first, open, later, now));
    }
}

/// A second look at the same moment sends nothing and changes nothing: no packet
/// goes out twice, no waiting time grows further, no other stream is given up.
pub proof fn law_second_look_is_idle(manager: ManagerModel, now: Instant, ids: Seq<u16>)
    requires
        forall|id: u16| #[trigger]
            manager.streams.contains_key(id) ==> INITIAL_RTO <= manager.streams[id].rto <= MAX_RTO,
        forall|i: int|
            0 <= i < ids.len() ==> manager.after_resend(now).streams.contains_key(
                #[trigger] ids[i],
            ),
    ensures
        manager.after_resend(now).after_resend(now) == manager.after_resend(now),
        model::resent_of(manager.after_resend(now).streams, ids, now).len() == 0,
    decreases ids.len(),
{
    let once = manager.after_resend(now);
    assert forall|id: u16| #[trigger] once.streams.contains_key(id) implies {
        &&& !once.streams[id].rescanned(now).dead
        &&& once.streams[id].rescanned(now).sent.len() == 0
        &&& once.streams[id].after_resend(now) == once.streams[id]
    } by {
        assert(manager.streams.contains_key(id));
        let stream = manager.streams[id];
        let after = stream.after_resend(now);
        assert(after.hints() =~= stream.hints().difference(stream.rescanned(now).answered));
        lemma_rescan_sent(stream.unacked, stream.hints(), stream.rto, now);
        lemma_second_look(stream.unacked, stream.hints(), stream.rto, now, after.rto);
        law_idle_look_changes_nothing(after, now);
    }
    assert(once.after_resend(now).streams =~= once.streams);
    if ids.len() > 0 {
        let front = ids.drop_last();
        assert forall|i: int| 0 <= i < front.len() implies once.streams.contains_key(
            #[trigger] front[i],
        ) by {
            assert(ids[i] == front[i]);
        }
        law_second_look_is_idle(manager, now, front);
        assert(ids[ids.len() - 1] == ids.last());
        assert(once.streams.contains_key(ids.last()));
    }
}

/// What was acknowledged is not sent again.
pub proof fn law_acknowledged_is_not_resent(stream: StreamModel, ack_num: u64, now: Instant)
    ensures
        forall|k: int|
            0 <= k < stream.after_ack(ack_num).rescanned(now).sent.len() ==> (
            #[trigger] stream.after_ack(ack_num).rescanned(now).sent[k]).seq > ack_num,
{
    let after = stream.after_ack(ack_num);
    law_ack_takes_what_it_covers(stream, ack_num);
    lemma_rescan_sent(after.unacked, after.hints(), after.rto, now);
    assert forall|k: int| 0 <= k < after.rescanned(now).sent.len() implies (
    #[trigger] after.rescanned(now).sent[k]).seq > ack_num by {
        let p = after.rescanned(now).sent[k];
        let i = choose|i: int| 0 <= i < after.unacked.len() && after.unacked[i] == p;
        assert(after.unacked[i].seq > ack_num);
    }
}

/// Whether a stream waits neither too briefly nor too long, and has sent no
/// packet too often.
pub open spec fn is_patient(stream: StreamModel) -> bool {
    &&& INITIAL_RTO <= stream.rto <= MAX_RTO
    &&& forall|i: int|
        0 <= i < stream.unacked.len() ==> (#[trigger] stream.unacked[i]).retransmits
            <= MAX_RETRANSMITS
}

proof fn lemma_rescan_marks(
    unacked: Seq<UnackedModel>,
    hints: Set<u64>,
    rto: nat,
    now: Instant,
)
    requires
        forall|i: int|
            0 <= i < unacked.len() ==> (#[trigger] unacked[i]).retransmits <= MAX_RETRANSMITS,
    ensures
        forall|i: int|
            0 <= i < model::rescan(unacked, hints, rto, now).unacked.len() ==> (
            #[trigger] model::rescan(unacked, hints, rto, now).unacked[i]).retransmits
                <= MAX_RETRANSMITS,
    decreases unacked.len(),
{
    if unacked.len() > 0 {
        let all = model::rescan(unacked, hints, rto, now);
        let head = unacked[0];
        let rest = unacked.drop_first();
        let left = model::hints_from(hints, head.seq);
        let waits = !model::goes_out(head, hints, rto, now);
        if !waits || !model::has_waited(head, rto, now) {
            let after = if waits {
                rto
            } else {
                model::backed_off(rto)
            };
            lemma_rescan_marks(rest, left, after, now);
            let tail = model::rescan(rest, left, after, now);
            assert forall|i: int| 0 <= i < all.unacked.len() implies (
            #[trigger] all.unacked[i]).retransmits <= MAX_RETRANSMITS by {
                if i > 0 {
                    assert(all.unacked[i] == tail.unacked[i - 1]);
                }
            }
        }
    }
}

/// A stream begins patient and stays so, whatever is sent, acknowledged or
/// received on it: the waiting time lies between its first value and its
/// limit, and no packet goes out again more often than allowed.
pub proof fn law_patience_is_kept(
    stream: StreamModel,
    state: StreamState,
    seq: u64,
    payload: Seq<u8>,
    ack_num: u64,
    now: Instant,
)
    requires
        is_patient(stream),
    ensures
        is_patient(StreamModel::fresh(state, now)),
        is_patient(stream.after_record(seq, payload, now)),
        is_patient(stream.after_ack(ack_num)),
        is_patient(stream.after_data(seq, payload, now)),
        is_patient(stream.after_resend(now)),
{
    law_ack_takes_what_it_covers(stream, ack_num);
    let after = stream.after_ack(ack_num);
    let open = |p: UnackedModel| p.seq > ack_num;
    assert forall|i: int| 0 <= i < after.unacked.len() implies (
    #[trigger] after.unacked[i]).retransmits <= MAX_RETRANSMITS by {
        stream.unacked.lemma_filter_contains_rev(open, after.unacked[i]);
        let j = choose|j: int|
            0 <= j < stream.unacked.len() && stream.unacked[j] == after.unacked[i];
        assert(stream.unacked[j].retransmits <= MAX_RETRANSMITS);
    }
    lemma_rescan_sent(stream.unacked, stream.hints(), stream.rto, now);
    lemma_rescan_marks(stream.unacked, stream.hints(), stream.rto, now);
    let sent = stream.after_record(seq, payload, now);
    assert forall|i: int| 0 <= i < sent.unacked.len() implies (
    #[trigger] sent.unacked[i]).retransmits <= MAX_RETRANSMITS by {
        if i < stream.unacked.len() {
            assert(sent.unacked[i] == stream.unacked[i]);
        }
    }
}

/// Each packet that goes out again doubles the waiting time of the stream, up
/// to the limit.
pub proof fn law_resending_backs_off(stream: StreamModel, now: Instant)
    requires
        stream.unacked.len() > 0,
        time::elapsed(now, stream.unacked[0].sent_at) >= stream.rto,
        stream.unacked[0].retransmits < MAX_RETRANSMITS,
        stream.rto <= MAX_RTO,
    ensures
        stream.rescanned(now).sent.len() > 0,
        stream.rescanned(now).sent[0] == stream.unacked[0],
        stream.after_resend(now).rto >= model::backed_off(stream.rto),
        stream.after_resend(now).congestion == stream.congestion.after_loss(),
{
    lemma_rescan_sent(
        stream.unacked.drop_first(),
        model::hints_from(stream.hints(), stream.unacked[0].seq),
        model::backed_off(stream.rto),
        now,
    );
}

/// A stream on whose first packet the retransmissions are used up is gone
/// after the packet has waited once more.
pub proof fn law_exhausted_stream_is_given_up(manager: ManagerModel, id: u16, now: Instant)
    requires
        manager.streams.contains_key(id),
        manager.streams[id].unacked.len() > 0,
        time::elapsed(now, manager.streams[id].unacked[0].sent_at) >= manager.streams[id].rto,
        manager.streams[id].unacked[0].retransmits >= MAX_RETRANSMITS,
    ensures
        !manager.after_resend(now).streams.contains_key(id),
        manager.streams[id].resent(id, now).len() == 0,
{
}

/// Whether a packet is among those of a stream, has waited for `rto`, and was sent
/// too often.
pub open spec fn has_exhausted(unacked: Seq<UnackedModel>, rto: nat, now: Instant) -> bool {
    exists|i: int|
        0 <= i < unacked.len() && model::has_waited(#[trigger] unacked[i], rto, now)
            && unacked[i].retransmits >= MAX_RETRANSMITS
}

proof fn lemma_dead_has_exhausted(
    unacked: Seq<UnackedModel>,
    hints: Set<u64>,
    rto: nat,
    now: Instant,
)
    requires
        rto <= MAX_RTO,
        model::rescan(unacked, hints, rto, now).dead,
    ensures
        has_exhausted(unacked, rto, now),
    decreases unacked.len(),
{
    let head = unacked[0];
    let rest = unacked.drop_first();
    let out = model::goes_out(head, hints, rto, now);
    if out || !model::has_waited(head, rto, now) {
        let after = if out {
            model::backed_off(rto)
        } else {
            rto
        };
        lemma_dead_has_exhausted(rest, model::hints_from(hints, head.seq), after, now);
        let i = choose|i: int|
            0 <= i < rest.len() && model::has_waited(#[trigger] rest[i], after, now)
                && rest[i].retransmits >= MAX_RETRANSMITS;
        assert(unacked[i + 1] == rest[i]);
    }
}

/// A stream is given up only when a packet that was sent too often has waited for
/// the waiting time once more; an acknowledgement that points at it ends nothing.
pub proof fn law_given_up_only_after_waiting(manager: ManagerModel, id: u16, now: Instant)
    requires
        manager.streams.contains_key(id),
        manager.streams[id].rto <= MAX_RTO,
        !manager.after_resend(now).streams.contains_key(id),
    ensures
        has_exhausted(manager.streams[id].unacked, manager.streams[id].rto, now),
{
    let stream = manager.streams[id];
    lemma_dead_has_exhausted(stream.unacked, stream.hints(), stream.rto, now);
}

/// The bytes on their way never exceed the window of the stream.
pub proof fn law_in_flight_fits_the_window(stream: StreamModel)
    requires
        stream.wf(),
    ensures
        stream.congestion.in_flight == model::bytes_of(stream.unacked),
        model::bytes_of(stream.unacked) <= STREAM_WINDOW,
{
}

/// A stream that this end opens never has the number of the control stream;
/// nor has one that the other end opens. The other end gets the number that it
/// proposes exactly where that is free.
pub proof fn law_control_stream_is_reserved(
    manager: ManagerModel,
    proposed: u16,
    seq: u64,
    now: Instant,
)
    requires
        manager.wf(),
    ensures
        manager.next_stream_id != CONTROL_STREAM,
        manager.after_allocate(now).next_stream_id != CONTROL_STREAM,
        manager.accepted_id(proposed) != CONTROL_STREAM,
        manager.after_syn(proposed, seq, now).next_stream_id != CONTROL_STREAM,
        manager.is_free(proposed) ==> manager.accepted_id(proposed) == proposed,
{
}

/// What happens on one stream leaves the others as they are.
pub proof fn law_streams_are_independent(
    manager: ManagerModel,
    id: u16,
    other: u16,
    seq: u64,
    payload: Seq<u8>,
    ack_num: u64,
    now: Instant,
)
    requires
        id != other,
        manager.streams.contains_key(other),
    ensures
        manager.after_record(id, seq, payload, now).streams.contains_key(other),
        manager.after_record(id, seq, payload, now).streams[other] == manager.streams[other],
        manager.after_ack(id, ack_num).streams.contains_key(other),
        manager.after_ack(id, ack_num).streams[other] == manager.streams[other],
        manager.after_data(id, seq, payload, now).streams.contains_key(other),
        manager.after_data(id, seq, payload, now).streams[other] == manager.streams[other],
        manager.without(id).streams.contains_key(other),
        manager.without(id).streams[other] == manager.streams[other],
{
}

/// On a stream that was removed nothing happens any more: nothing is sent, no
/// acknowledgement counts, no data is delivered.
pub proof fn law_removed_stream_is_deaf(
    manager: ManagerModel,
    id: u16,
    seq: u64,
    payload: Seq<u8>,
    ack_num: u64,
    now: Instant,
)
    ensures
        manager.without(id).after_record(id, seq, payload, now) == manager.without(id),
        manager.without(id).after_ack(id, ack_num) == manager.without(id),
        manager.without(id).after_data(id, seq, payload, now) == manager.without(id),
        manager.without(id).delivered(id, seq, payload) == Seq::<Seq<u8>>::empty(),
        manager.without(id).current_ack(id) == 0,
{
}

/// The manager after a row of probes, each of which was due and was sent.
pub open spec fn after_probes(manager: ManagerModel, times: Seq<Instant>) -> ManagerModel
    decreases times.len(),
{
    if times.len() == 0 {
        manager
    } else {
        after_probes(manager, times.drop_last()).after_ping_check(times.last()).after_ping(
            times.last(),
        )
    }
}

/// Probes without an answer that follow one another at the interval are each
/// due, and each but the first counts the one before it as lost; so the
/// connection is lost with the probe after the third.
pub proof fn law_unanswered_probes_are_counted(manager: ManagerModel, times: Seq<Instant>)
    requires
        manager.last_ping_sent is None,
        manager.ping_loss_count == 0,
        forall|i: int|
            0 <= i < times.len() ==> time::elapsed(#[trigger] times[i], manager.last_activity)
                >= KEEPALIVE_INTERVAL,
        forall|i: int, j: int|
            0 <= i && j == i + 1 && j < times.len() ==> time::elapsed(
                #[trigger] times[j],
                #[trigger] times[i],
            ) >= KEEPALIVE_INTERVAL,
    ensures
        forall|n: int|
            0 <= n < times.len() ==> (#[trigger] after_probes(manager, times.take(n))).ping_due(
                times[n],
            ),
        after_probes(manager, times).ping_loss_count == if times.len() == 0 {
            0int
        } else {
            times.len() - 1
        },
        after_probes(manager, times).last_ping_sent == if times.len() == 0 {
            None
        } else {
            Some(times.last())
        },
        after_probes(manager, times).last_activity == manager.last_activity,
        after_probes(manager, times).is_lost() <==> times.len() > MAX_PING_LOSS,
    decreases times.len(),
{
    if times.len() > 0 {
        let front = times.drop_last();
        let n = times.len() - 1;
        assert forall|i: int| 0 <= i < front.len() implies time::elapsed(
            #[trigger] front[i],
            manager.last_activity,
        ) >= KEEPALIVE_INTERVAL by {
            assert(times[i] == front[i]);
        }
        assert forall|i: int, j: int| 0 <= i && j == i + 1 && j < front.len() implies time::elapsed(
            #[trigger] front[j],
            #[trigger] front[i],
        ) >= KEEPALIVE_INTERVAL by {
            assert(times[i] == front[i]);
            assert(times[j] == front[j]);
        }
        law_unanswered_probes_are_counted(manager, front);
        assert(times.take(n) =~= front);
        if n > 0 {
            assert(time::elapsed(times[n], times[n - 1]) >= KEEPALIVE_INTERVAL);
        }
        assert forall|k: int| 0 <= k < times.len() implies (
        #[trigger] after_probes(manager, times.take(k))).ping_due(times[k]) by {
            if k < n {
                assert(front.take(k) =~= times.take(k));
                assert(after_probes(manager, front.take(k)).ping_due(front[k]));
            }
        }
    }
}

/// An answer wipes out all losses, and no probe is due until the tunnel has
/// been quiet for the interval again.
pub proof fn law_answer_revives(manager: ManagerModel, now: Instant, later: Instant)
    ensures
        !manager.after_pong(now).is_lost(),
        manager.after_pong(now).ping_due(later) <==> time::elapsed(later, now)
            >= KEEPALIVE_INTERVAL,
        manager.after_pong(now).after_ping_check(later) == manager.after_pong(now),
{
}

/// No probe is due, and none is counted as lost, while the tunnel is active.
pub proof fn law_no_probe_while_active(manager: ManagerModel, now: Instant)
    requires
        time::elapsed(now, manager.last_activity) < KEEPALIVE_INTERVAL,
    ensures
        !manager.ping_due(now),
        manager.after_ping_check(now) == manager,
{
}

/// A packet is queued only where both windows have room for it, and then the
/// bytes on their way fit both; one that is not queued leaves the queue as it
/// is.
pub proof fn law_windows_are_respected(
    stream: StreamModel,
    seq: u64,
    payload: Seq<u8>,
    now: Instant,
)
    requires
        stream.wf(),
    ensures
        ({
            let after = stream.after_record(seq, payload, now);
            if stream.accepts(payload.len()) {
                &&& after.unacked == stream.unacked.push(
                    UnackedModel { seq, payload, sent_at: now, retransmits: 0 },
                )
                &&& after.congestion.in_flight <= after.congestion.cwnd
                &&& after.congestion.in_flight <= STREAM_WINDOW
            } else {
                &&& after.unacked == stream.unacked
                &&& after.congestion == stream.congestion
            }
        }),
{
    model::lemma_queue_push(
        stream.unacked,
        UnackedModel { seq, payload, sent_at: now, retransmits: 0 },
        0,
    );
}

/// An acknowledgement that covers every packet leaves nothing on its way.
pub proof fn law_full_acknowledgement_empties(stream: StreamModel, ack_num: u64)
    requires
        stream.wf(),
        forall|i: int|
            0 <= i < stream.unacked.len() ==> (#[trigger] stream.unacked[i]).seq <= ack_num,
    ensures
        stream.after_ack(ack_num).unacked.len() == 0,
        stream.after_ack(ack_num).congestion.in_flight == 0,
{
    let after = stream.after_ack(ack_num);
    law_ack_takes_what_it_covers(stream, ack_num);
    if after.unacked.len() > 0 {
        let open = |p: UnackedModel| p.seq > ack_num;
        stream.unacked.lemma_filter_contains_rev(open, after.unacked[0]);
        let j = choose|j: int|
            0 <= j < stream.unacked.len() && stream.unacked[j] == after.unacked[0];
        assert(stream.unacked[j].seq <= ack_num);
    }
    model::lemma_queue_parts(stream.unacked, ack_num);
}

proof fn lemma_rescan_keeps(
    unacked: Seq<UnackedModel>,
    hints: Set<u64>,
    rto: nat,
    now: Instant,
    i: int,
)
    requires
        0 <= i < unacked.len(),
    ensures
        model::rescan(unacked, hints, rto, now).unacked.len() == unacked.len(),
        model::rescan(unacked, hints, rto, now).unacked[i].seq == unacked[i].seq,
        model::rescan(unacked, hints, rto, now).unacked[i].payload == unacked[i].payload,
        rto <= MAX_RTO && !model::rescan(unacked, hints, rto, now).dead && time::elapsed(
            now,
            unacked[i].sent_at,
        ) >= MAX_RTO ==> model::rescan(unacked, hints, rto, now).sent.contains(unacked[i]),
    decreases unacked.len(),
{
    model::lemma_rescan_keeps_bytes(unacked, hints, rto, now);
    let all = model::rescan(unacked, hints, rto, now);
    let head = unacked[0];
    let rest = unacked.drop_first();
    let left = model::hints_from(hints, head.seq);
    let waits = !model::goes_out(head, hints, rto, now);
    if !waits || !model::has_waited(head, rto, now) {
        let after = if waits {
            rto
        } else {
            model::backed_off(rto)
        };
        let tail = model::rescan(rest, left, after, now);
        if i > 0 {
            lemma_rescan_keeps(rest, left, after, now, i - 1);
            assert(rest[i - 1] == unacked[i]);
            assert(all.unacked[i] == tail.unacked[i - 1]);
            if tail.sent.contains(unacked[i]) {
                let k = choose|k: int| 0 <= k < tail.sent.len() && tail.sent[k] == unacked[i];
                assert(all.sent[if waits { k } else { k + 1 }] == unacked[i]);
            }
        } else if !waits {
            assert(all.sent[0] == unacked[0]);
        }
    }
}

/// A packet stays in the queue, with its number and its payload, until it is
/// acknowledged: sending, receiving and sending again do not take it off.
pub proof fn law_queue_is_kept(
    stream: StreamModel,
    i: int,
    seq: u64,
    payload: Seq<u8>,
    now: Instant,
)
    requires
        0 <= i < stream.unacked.len(),
    ensures
        i < stream.after_record(seq, payload, now).unacked.len(),
        stream.after_record(seq, payload, now).unacked[i] == stream.unacked[i],
        stream.after_data(seq, payload, now).unacked == stream.unacked,
        stream.after_resend(now).unacked.len() == stream.unacked.len(),
        stream.after_resend(now).unacked[i].seq == stream.unacked[i].seq,
        stream.after_resend(now).unacked[i].payload == stream.unacked[i].payload,
{
    lemma_rescan_keeps(stream.unacked, stream.hints(), stream.rto, now, i);
}

/// A packet that has waited for the longest waiting time goes out again, unless
/// the stream is given up.
pub proof fn law_overdue_packet_goes_out(stream: StreamModel, i: int, now: Instant)
    requires
        0 <= i < stream.unacked.len(),
        stream.rto <= MAX_RTO,
        time::elapsed(now, stream.unacked[i].sent_at) >= MAX_RTO,
        !stream.rescanned(now).dead,
    ensures
        stream.rescanned(now).sent.contains(stream.unacked[i]),
{
    lemma_rescan_keeps(stream.unacked, stream.hints(), stream.rto, now, i);
}

} // verus!
