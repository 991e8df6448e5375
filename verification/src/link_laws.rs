//! What the reliability layer promises.

use vstd::prelude::*;

use crate::frame::{PacketView, CHUNK_SIZE};
use crate::link;
use crate::link::{InboundView, OutboundView, PendingView, ReceivedView, MAX_RESENDS, REMEMBERED};
use crate::reassembly;
use crate::seqs;

verus! {

/// The payloads of `packets`, one behind the other.
pub open spec fn joined(packets: Seq<PacketView>) -> Seq<u8>
    decreases packets.len(),
{
    if packets.len() == 0 {
        Seq::empty()
    } else {
        joined(packets.drop_last()) + packets.last().payload
    }
}

proof fn lemma_joined_prefix(
    o: OutboundView,
    payload: Seq<u8>,
    ordered: bool,
    unix: u64,
    k: int,
)
    requires
        0 <= k <= reassembly::piece_count(payload.len() as int),
    ensures
        joined(o.packets(payload, ordered, unix).take(k)) == payload.take(
            if CHUNK_SIZE * k <= payload.len() {
                CHUNK_SIZE * k
            } else {
                payload.len() as int
            },
        ),
    decreases k,
{
    let all = o.packets(payload, ordered, unix);
    if k == 0 {
        assert(all.take(0) =~= Seq::empty());
        assert(payload.take(0) =~= Seq::empty());
    } else {
        lemma_joined_prefix(o, payload, ordered, unix, k - 1);
        reassembly::lemma_piece_is_inside(payload, k - 1);
        assert(all.take(k).drop_last() =~= all.take(k - 1));
        assert(all.take(k).last() == all[k - 1]);
        let end = if CHUNK_SIZE * k <= payload.len() {
            CHUNK_SIZE * k
        } else {
            payload.len() as int
        };
        assert(joined(all.take(k)) =~= payload.take(end));
    }
}

/// The packets of a message carry its payload cut into pieces of at most
/// 450 bytes, none of them empty; they are numbered consecutively and share one
/// place in the ordered stream. Only a payload over 450 bytes is chunked, and
/// then each packet says which payload its piece is of, where it belongs, and
/// how much and how many there are.
pub proof fn law_packets_carry_the_payload(
    o: OutboundView,
    payload: Seq<u8>,
    ordered: bool,
    unix: u64,
)
    ensures
        ({
            let ps = o.packets(payload, ordered, unix);
            &&& joined(ps) == payload
            &&& (payload.len() > 0 && payload.len() <= 450 ==> ps.len() == 1 && ps[0].payload
                == payload)
            &&& forall|i: int|
                0 <= i < ps.len() ==> {
                    &&& 0 < (#[trigger] ps[i]).payload.len() <= 450
                    &&& ps[i].resend == 0 && ps[i].sent_at == unix
                    &&& ps[i].seq == link::wrap32(o.next_seq + i)
                    &&& ps[i].ordered_index == (if ordered {
                        Some(o.next_ordered)
                    } else {
                        None
                    })
                    &&& (ps[i].chunk is Some <==> payload.len() > 450)
                    &&& payload.len() > 450 ==> {
                        let chunk = ps[i].chunk->Some_0;
                        &&& chunk.id == o.next_chunk
                        &&& chunk.offset == (450 * i) % 0x1_0000_0000
                        &&& chunk.total_size == payload.len() as int % 0x1_0000_0000
                        &&& chunk.count == ps.len() as int % 0x1_0000
                    }
                }
        }),
{
    let ps = o.packets(payload, ordered, unix);
    let n = reassembly::piece_count(payload.len() as int);
    lemma_joined_prefix(o, payload, ordered, unix, n);
    assert(ps.take(n) =~= ps);
    assert(payload.take(payload.len() as int) =~= payload);
    assert(CHUNK_SIZE * n >= payload.len());
    assert forall|i: int| 0 <= i < ps.len() implies 0 < (#[trigger] ps[i]).payload.len()
        <= CHUNK_SIZE by {
        reassembly::lemma_piece_is_inside(payload, i);
    }
    if 0 < payload.len() <= CHUNK_SIZE {
        assert(ps[0].payload =~= payload);
    }
}

/// The ordered stream advances by one per ordered message, and by nothing for
/// the others; the sequence advances by the number of packets.
pub proof fn law_counters_advance(
    o: OutboundView,
    payload: Seq<u8>,
    ordered: bool,
    now: u64,
    unix: u64,
)
    ensures
        ({
            let after = o.queued(payload, ordered, now, unix);
            &&& after.next_ordered == link::wrap32(
                o.next_ordered + (if ordered {
                    1int
                } else {
                    0
                }),
            )
            &&& after.next_seq == link::wrap32(
                o.next_seq + o.packets(payload, ordered, unix).len(),
            )
        }),
{
}

/// Once acked, a packet is no longer waiting; every other packet still is.
pub proof fn law_acked_packet_stops_waiting(o: OutboundView, seq: u32)
    ensures
        forall|p: PendingView|
            #![trigger o.acked(seq).pending.contains(p)]
            o.acked(seq).pending.contains(p) <==> o.pending.contains(p) && p.packet.seq != seq,
{
    let keep = |p: PendingView| p.packet.seq != seq;
    let kept = o.acked(seq).pending;
    seqs::lemma_filter_holds(o.pending, keep);
    assert forall|p: PendingView| kept.contains(p) implies o.pending.contains(p) && p.packet.seq
        != seq by {
        let i = choose|i: int| 0 <= i < kept.len() && kept[i] == p;
        assert(keep(kept[i]));
    }
    assert forall|p: PendingView| o.pending.contains(p) && p.packet.seq != seq implies kept.contains(
        p,
    ) by {
        assert(keep(p));
    }
}

/// A packet that is due is sent once more, with its resend count one higher and
/// nothing else changed, unless it was sent too often; then it is given up.
/// Every retransmit counts itself, up to [`MAX_RESENDS`].
pub proof fn law_unacked_packet_is_sent_again(o: OutboundView, now: u64, p: PendingView)
    requires
        o.pending.contains(p),
        p.due(now),
    ensures
        p.packet.resend < MAX_RESENDS ==> link::retransmitted(o.alive(), now).contains(
            PacketView { resend: (p.packet.resend + 1) as u8, ..p.packet },
        ),
        forall|k: int|
            0 <= k < link::retransmitted(o.alive(), now).len() ==> 1 <= (
            #[trigger] link::retransmitted(o.alive(), now)[k]).resend <= MAX_RESENDS,
        forall|q: PendingView| #[trigger]
            o.retried(now).pending.contains(q) ==> q.packet.resend <= MAX_RESENDS,
{
    let live = |p: PendingView| p.packet.resend < MAX_RESENDS;
    let due = |p: PendingView| p.due(now);
    seqs::lemma_filter_holds(o.pending, live);
    seqs::lemma_filter_holds(o.alive(), due);
    if p.packet.resend < MAX_RESENDS {
        assert(live(p));
        assert(due(p));
        let sent = o.alive().filter(due);
        assert(sent.contains(p));
        let i = choose|i: int| 0 <= i < sent.len() && sent[i] == p;
        assert(link::retransmitted(o.alive(), now)[i] == p.retried(now).packet);
    }
    let all = link::retransmitted(o.alive(), now);
    assert forall|k: int| 0 <= k < all.len() implies 1 <= (#[trigger] all[k]).resend
        <= MAX_RESENDS by {
        let q = o.alive().filter(due)[k];
        assert(due(o.alive().filter(due)[k]) && o.alive().contains(q));
        let j = choose|j: int| 0 <= j < o.alive().len() && o.alive()[j] == q;
        assert(live(o.alive()[j]));
    }
    assert forall|q: PendingView| #[trigger] o.retried(now).pending.contains(q) implies q.packet.resend
        <= MAX_RESENDS by {
        let after = o.retried(now).pending;
        let i = choose|i: int| 0 <= i < after.len() && after[i] == q;
        assert(live(o.alive()[i]));
    }
}

// ---------------------------------------------------------------------------
// Numbers
// ---------------------------------------------------------------------------

/// How many numbers there are.
pub const NUMBERS: u64 = 0x1_0000_0000;

/// How many packets were numbered since the one numbered `seq`, itself included,
/// as long as the counter has not come round to it.
pub open spec fn age(o: OutboundView, seq: u32) -> int {
    (o.next_seq - seq - 1) % 0x1_0000_0000 + 1
}

/// How many packets were numbered since the oldest that waits, itself included.
pub open spec fn lag(o: OutboundView) -> int {
    if o.pending.len() == 0 {
        0
    } else {
        age(o, o.pending[0].packet.seq)
    }
}

/// The packets that wait do so in the order in which they were numbered.
pub open spec fn in_order(o: OutboundView) -> bool {
    forall|i: int, j: int|
        0 <= i < j < o.pending.len() ==> age(o, (#[trigger] o.pending[i]).packet.seq) > age(
            o,
            (#[trigger] o.pending[j]).packet.seq,
        )
}

/// No two of the packets that wait share a number.
pub open spec fn distinctly_numbered(o: OutboundView) -> bool {
    forall|i: int, j: int|
        0 <= i < j < o.pending.len() ==> (#[trigger] o.pending[i]).packet.seq != (
        #[trigger] o.pending[j]).packet.seq
}

/// Packets that wait in order have numbers of their own, and none waits longer
/// than the oldest.
pub proof fn law_packets_in_order_are_distinctly_numbered(o: OutboundView)
    requires
        in_order(o),
    ensures
        distinctly_numbered(o),
        forall|i: int|
            0 <= i < o.pending.len() ==> 1 <= age(o, (#[trigger] o.pending[i]).packet.seq) <= lag(
                o,
            ) <= NUMBERS,
{
    assert forall|i: int| 0 <= i < o.pending.len() implies 1 <= age(
        o,
        (#[trigger] o.pending[i]).packet.seq,
    ) <= lag(o) <= NUMBERS by {
        if i > 0 {
            assert(age(o, o.pending[0].packet.seq) > age(o, o.pending[i].packet.seq));
        }
    }
}

/// Numbering `n` more packets makes those before older by `n`.
proof fn lemma_ages(next: u32, seq: u32, n: int)
    requires
        0 <= n,
        (next - seq - 1) % 0x1_0000_0000 + 1 + n <= NUMBERS,
    ensures
        (link::wrap32(next + n) - seq - 1) % 0x1_0000_0000 == (next - seq - 1) % 0x1_0000_0000 + n,
{
}

/// The `i`th of `n` packets just numbered.
proof fn lemma_age_of_new(next: u32, n: int, i: int)
    requires
        0 <= i < n <= NUMBERS,
    ensures
        (link::wrap32(next + n) - link::wrap32(next + i) - 1) % 0x1_0000_0000 == n - i - 1,
{
}

/// As long as no more packets are numbered than there are numbers, from the
/// oldest that waits on, sending a message keeps the packets that wait in order.
pub proof fn law_queueing_keeps_the_order(
    o: OutboundView,
    payload: Seq<u8>,
    ordered: bool,
    now: u64,
    unix: u64,
)
    requires
        in_order(o),
        lag(o) + o.packets(payload, ordered, unix).len() <= NUMBERS,
    ensures
        in_order(o.queued(payload, ordered, now, unix)),
        lag(o.queued(payload, ordered, now, unix)) <= lag(o) + o.packets(
            payload,
            ordered,
            unix,
        ).len(),
{
    let packets = o.packets(payload, ordered, unix);
    let n = packets.len() as int;
    let m = o.pending.len() as int;
    let after = o.queued(payload, ordered, now, unix);
    let all = after.pending;
    law_packets_in_order_are_distinctly_numbered(o);
    assert forall|i: int| 0 <= i < all.len() implies age(after, (#[trigger] all[i]).packet.seq)
        == if i < m {
        age(o, o.pending[i].packet.seq) + n
    } else {
        n - (i - m)
    } by {
        if i < m {
            assert(all[i] == o.pending[i]);
            lemma_ages(o.next_seq, all[i].packet.seq, n);
        } else {
            assert(all[i].packet == packets[i - m]);
            lemma_age_of_new(o.next_seq, n, i - m);
        }
    }
    assert forall|i: int, j: int| 0 <= i < j < all.len() implies age(
        after,
        (#[trigger] all[i]).packet.seq,
    ) > age(after, (#[trigger] all[j]).packet.seq) by {
        if j < m {
            assert(age(o, o.pending[i].packet.seq) > age(o, o.pending[j].packet.seq));
        } else if i < m {
            assert(age(o, o.pending[i].packet.seq) >= 1);
        }
    }
}

/// What is left of packets in order is in order, whoever is taken out.
proof fn lemma_filter_keeps_order(o: OutboundView, f: spec_fn(PendingView) -> bool)
    requires
        in_order(o),
    ensures
        in_order(OutboundView { pending: o.pending.filter(f), ..o }),
        lag(OutboundView { pending: o.pending.filter(f), ..o }) <= lag(o),
{
    let kept = o.pending.filter(f);
    let left = OutboundView { pending: kept, ..o };
    let older = |p: PendingView, q: PendingView| age(o, p.packet.seq) > age(o, q.packet.seq);
    assert forall|i: int, j: int| 0 <= i < j < o.pending.len() implies older(
        #[trigger] o.pending[i],
        #[trigger] o.pending[j],
    ) by {}
    seqs::lemma_filter_keeps_order(o.pending, f, older);
    assert forall|i: int, j: int| 0 <= i < j < kept.len() implies age(
        left,
        (#[trigger] kept[i]).packet.seq,
    ) > age(left, (#[trigger] kept[j]).packet.seq) by {
        assert(older(kept[i], kept[j]));
    }
    law_packets_in_order_are_distinctly_numbered(o);
    seqs::lemma_filter_holds(o.pending, f);
    if kept.len() > 0 {
        assert(f(kept[0]) && o.pending.contains(kept[0]));
        let k = choose|k: int| 0 <= k < o.pending.len() && o.pending[k] == kept[0];
        assert(age(o, o.pending[k].packet.seq) <= lag(o));
    }
}

/// An ack keeps the packets that wait in order, and none waits longer for it.
pub proof fn law_acking_keeps_the_order(o: OutboundView, seq: u32)
    requires
        in_order(o),
    ensures
        in_order(o.acked(seq)),
        lag(o.acked(seq)) <= lag(o),
{
    lemma_filter_keeps_order(o, |p: PendingView| p.packet.seq != seq);
}

/// Retransmitting keeps the packets that wait in order, and none waits longer
/// for it.
pub proof fn law_retransmitting_keeps_the_order(o: OutboundView, now: u64)
    requires
        in_order(o),
    ensures
        in_order(o.retried(now)),
        lag(o.retried(now)) <= lag(o),
{
    let live = |p: PendingView| p.packet.resend < MAX_RESENDS;
    lemma_filter_keeps_order(o, live);
    let left = OutboundView { pending: o.alive(), ..o };
    let after = o.retried(now);
    assert forall|i: int| 0 <= i < after.pending.len() implies (
    #[trigger] after.pending[i]).packet.seq == left.pending[i].packet.seq by {
        assert(after.pending[i] == left.pending[i].retried(now));
    }
    assert forall|i: int, j: int| 0 <= i < j < after.pending.len() implies age(
        after,
        (#[trigger] after.pending[i]).packet.seq,
    ) > age(after, (#[trigger] after.pending[j]).packet.seq) by {
        assert(age(left, left.pending[i].packet.seq) > age(left, left.pending[j].packet.seq));
    }
}

/// What may happen to the sending half of a link.
pub enum Step {
    Queue { payload: Seq<u8>, ordered: bool, now: u64, unix: u64 },
    Ack { seq: u32 },
    Retry { now: u64 },
}

/// The sending half of a link after a step.
pub open spec fn stepped(o: OutboundView, step: Step) -> OutboundView {
    match step {
        Step::Queue { payload, ordered, now, unix } => o.queued(payload, ordered, now, unix),
        Step::Ack { seq } => o.acked(seq),
        Step::Retry { now } => o.retried(now),
    }
}

/// The sending half of a link after `steps`, one after the other.
pub open spec fn after_steps(o: OutboundView, steps: Seq<Step>) -> OutboundView
    decreases steps.len(),
{
    if steps.len() == 0 {
        o
    } else {
        stepped(after_steps(o, steps.drop_last()), steps.last())
    }
}

/// A step numbers no more packets than there are numbers, from the oldest that
/// waits on.
pub open spec fn leaves_room(o: OutboundView, step: Step) -> bool {
    match step {
        Step::Queue { payload, ordered, unix, .. } => lag(o) + o.packets(
            payload,
            ordered,
            unix,
        ).len() <= NUMBERS,
        _ => true,
    }
}

/// Whatever is sent, acked and retransmitted over a link that starts with
/// nothing waiting: as long as no more packets are numbered than there are
/// numbers, from the oldest that waits on, no two of the packets that wait ever
/// share a number.
pub proof fn law_waiting_packets_are_distinctly_numbered(o: OutboundView, steps: Seq<Step>)
    requires
        o.pending.len() == 0,
        forall|k: int|
            #![trigger steps.take(k)]
            0 <= k < steps.len() ==> leaves_room(after_steps(o, steps.take(k)), steps[k]),
    ensures
        in_order(after_steps(o, steps)),
        distinctly_numbered(after_steps(o, steps)),
    decreases steps.len(),
{
    if steps.len() > 0 {
        let init = steps.drop_last();
        let before = after_steps(o, init);
        assert forall|k: int|
            #![trigger init.take(k)]
            0 <= k < init.len() implies leaves_room(after_steps(o, init.take(k)), init[k]) by {
            assert(init.take(k) =~= steps.take(k));
        }
        law_waiting_packets_are_distinctly_numbered(o, init);
        assert(steps.take(steps.len() - 1) =~= init);
        assert(leaves_room(before, steps.last()));
        match steps.last() {
            Step::Queue { payload, ordered, now, unix } => {
                law_queueing_keeps_the_order(before, payload, ordered, now, unix);
            },
            Step::Ack { seq } => {
                law_acking_keeps_the_order(before, seq);
            },
            Step::Retry { now } => {
                law_retransmitting_keeps_the_order(before, now);
            },
        }
    }
    law_packets_in_order_are_distinctly_numbered(after_steps(o, steps));
}

/// The state after `packets` came in, one after the other.
pub open spec fn after_all(s: InboundView, packets: Seq<PacketView>) -> InboundView
    decreases packets.len(),
{
    if packets.len() == 0 {
        s
    } else {
        after_all(s, packets.drop_last()).received(packets.last()).0
    }
}

/// `seq` is among the last `m + 1` sequences remembered.
spec fn recent(processed: Seq<u32>, seq: u32, m: int) -> bool {
    &&& processed.len() <= REMEMBERED
    &&& exists|i: int|
        0 <= i < processed.len() && i >= processed.len() - 1 - m && #[trigger] processed[i] == seq
}

proof fn lemma_stays_recent(s: InboundView, p: PacketView, later: Seq<PacketView>)
    requires
        s.processed.len() <= REMEMBERED,
        !s.processed.contains(p.seq),
        later.len() < REMEMBERED,
    ensures
        recent(after_all(s.received(p).0, later).processed, p.seq, later.len() as int),
    decreases later.len(),
{
    let first = s.received(p).0;
    assert(first.processed == link::remembering(s.processed, p.seq));
    if later.len() == 0 {
        assert(first.processed[first.processed.len() - 1] == p.seq);
    } else {
        let q = later.last();
        let before = after_all(first, later.drop_last());
        lemma_stays_recent(s, p, later.drop_last());
        let i = choose|i: int|
            0 <= i < before.processed.len() && i >= before.processed.len() - 1 - (later.len() - 1)
                && #[trigger] before.processed[i] == p.seq;
        let after = before.received(q).0;
        if before.processed.contains(q.seq) {
            assert(after.processed[i] == p.seq);
        } else {
            assert(after.processed == link::remembering(before.processed, q.seq));
            if before.processed.len() + 1 > REMEMBERED {
                assert(after.processed[i - 1] == p.seq);
            } else {
                assert(after.processed[i] == p.seq);
            }
        }
    }
}

/// A packet that was processed is not applied again when it is retransmitted,
/// as long as fewer than [`REMEMBERED`] others came in between.
pub proof fn law_retransmit_is_not_applied_twice(
    s: InboundView,
    p: PacketView,
    later: Seq<PacketView>,
    again: PacketView,
)
    requires
        s.processed.len() <= REMEMBERED,
        !s.processed.contains(p.seq),
        later.len() < REMEMBERED,
        again.seq == p.seq,
    ensures
        ({
            let now = after_all(s.received(p).0, later);
            now.received(again) == (now, ReceivedView::Again)
        }),
{
    lemma_stays_recent(s, p, later);
}

/// No more than [`REMEMBERED`] sequences are remembered.
pub proof fn law_memory_is_bounded(s: InboundView, p: PacketView)
    requires
        s.processed.len() <= REMEMBERED,
    ensures
        s.received(p).0.processed.len() <= REMEMBERED,
{
}

/// The packets of a message, as they arrive.
pub open spec fn arriving(packets: Seq<PacketView>, order: Seq<int>) -> Seq<PacketView> {
    order.map_values(|i: int| packets[i])
}

/// The packets of a chunked message, in any order, carry its payload.
#[verifier::rlimit(30)]
pub proof fn law_packets_of_a_message_carry_it_in_any_order(
    o: OutboundView,
    payload: Seq<u8>,
    ordered: bool,
    unix: u64,
    order: Seq<int>,
)
    requires
        CHUNK_SIZE < payload.len() <= u32::MAX,
        order.no_duplicates(),
        forall|i: int|
            0 <= i < o.packets(payload, ordered, unix).len() ==> #[trigger] order.contains(i),
        forall|k: int|
            0 <= k < order.len() ==> 0 <= #[trigger] order[k] < o.packets(
                payload,
                ordered,
                unix,
            ).len(),
    ensures
        reassembly::carry(
            arriving(o.packets(payload, ordered, unix), order),
            payload,
            o.next_chunk,
        ),
{
    let all = o.packets(payload, ordered, unix);
    let ps = arriving(all, order);
    let parts = reassembly::parts_of(ps);
    let n = all.len() as int;
    assert forall|k: int| 0 <= k < ps.len() implies {
        &&& reassembly::is_piece(#[trigger] ps[k], o.next_chunk, payload.len())
        &&& parts[k].at == CHUNK_SIZE * order[k]
        &&& parts[k].bytes == reassembly::piece(payload, order[k])
        &&& parts[k].is_of(payload)
        &&& (order[k] + 1 < n ==> parts[k].bytes.len() == CHUNK_SIZE)
    } by {
        assert(ps[k] == all[order[k]]);
        reassembly::lemma_piece_is_inside(payload, order[k]);
    }
    assert forall|i: int, j: int| 0 <= i < j < ps.len() implies (#[trigger] ps[i]).seq != (
    #[trigger] ps[j]).seq by {
        assert(order[i] != order[j]);
        assert(ps[i].seq == link::wrap32(o.next_seq + order[i]));
        assert(ps[j].seq == link::wrap32(o.next_seq + order[j]));
    }
    assert forall|i: int, j: int| 0 <= i < j < parts.len() implies (#[trigger] parts[i]).apart(
        #[trigger] parts[j],
    ) by {
        assert(order[i] != order[j]);
        assert(reassembly::is_piece(ps[i], o.next_chunk, payload.len()));
        assert(reassembly::is_piece(ps[j], o.next_chunk, payload.len()));
        reassembly::lemma_piece_is_inside(payload, order[i]);
        reassembly::lemma_piece_is_inside(payload, order[j]);
    }
    assert forall|b: int| 0 <= b < payload.len() implies #[trigger] reassembly::is_held(
        parts,
        b,
    ) by {
        let i = b / CHUNK_SIZE as int;
        assert(0 <= i < n);
        assert(order.contains(i));
        let k = choose|k: int| 0 <= k < order.len() && order[k] == i;
        assert(reassembly::is_piece(ps[k], o.next_chunk, payload.len()));
        reassembly::lemma_piece_is_inside(payload, order[k]);
        assert(parts[k].holds(b));
    }
    assert forall|k: int| 0 <= k < parts.len() implies (#[trigger] parts[k]).is_of(payload) by {
        assert(reassembly::is_piece(ps[k], o.next_chunk, payload.len()));
    }
}

/// Nothing but the sequences of `packets` was processed in addition.
proof fn lemma_processed_grows(s: InboundView, packets: Seq<PacketView>, seq: u32)
    requires
        !s.processed.contains(seq),
        forall|k: int| 0 <= k < packets.len() ==> (#[trigger] packets[k]).seq != seq,
    ensures
        !after_all(s, packets).processed.contains(seq),
    decreases packets.len(),
{
    if packets.len() > 0 {
        let init = packets.drop_last();
        let p = packets.last();
        let before = after_all(s, init);
        assert(packets[packets.len() - 1] == p);
        lemma_processed_grows(s, init, seq);
        let now = before.received(p).0;
        if now.processed.contains(seq) {
            let grown = before.processed.push(p.seq);
            let j = choose|j: int| 0 <= j < now.processed.len() && now.processed[j] == seq;
            if now.processed == before.processed {
                assert(before.processed.contains(seq));
            } else {
                let i = if grown.len() > REMEMBERED {
                    j + 1
                } else {
                    j
                };
                assert(grown[i] == seq);
                assert(before.processed[i] == seq);
            }
        }
    }
}

/// The pieces of a chunked payload, cut anywhere and arriving in any order, are
/// collected into the payload: each but the last leaves it incomplete, the last
/// completes it, and nothing of it stays behind.
#[verifier::rlimit(30)]
pub proof fn law_pieces_reassemble_in_any_order(
    s: InboundView,
    packets: Seq<PacketView>,
    payload: Seq<u8>,
    id: u32,
)
    requires
        reassembly::carry(packets, payload, id),
        !s.partial.contains_key(id),
        forall|k: int|
            0 <= k < packets.len() ==> !s.processed.contains((#[trigger] packets[k]).seq),
    ensures
        forall|k: int|
            #![trigger packets.take(k)]
            0 <= k < packets.len() ==> after_all(s, packets.take(k)).received(packets[k]).1
                == if k + 1 < packets.len() {
                ReceivedView::Partial
            } else {
                ReceivedView::Whole(payload)
            },
        after_all(s, packets).partial == s.partial,
{
    let n = packets.len();
    let states = Seq::new((n + 1) as nat, |k: int| after_all(s, packets.take(k)));
    let partial = states.map_values(|now: InboundView| now.partial);
    let outs = Seq::new(
        n,
        |k: int|
            match states[k].received(packets[k]).1 {
                ReceivedView::Whole(whole) => Some(whole),
                _ => None,
            },
    );
    let parts = reassembly::parts_of(packets);
    assert(packets.take(0) =~= Seq::empty());
    assert forall|k: int| 0 <= k < n implies {
        &&& reassembly::collects(
            partial[k],
            partial[k + 1],
            id,
            payload.len(),
            parts[k],
            #[trigger] outs[k],
        )
        &&& !states[k].processed.contains(packets[k].seq)
    } by {
        let p = packets[k];
        assert(packets.take(k + 1).drop_last() =~= packets.take(k));
        assert(packets.take(k + 1).last() == p);
        assert(states[k + 1] == states[k].received(p).0);
        lemma_processed_grows(s, packets.take(k), p.seq);
        assert(reassembly::is_piece(p, id, payload.len()));
        assert(states[k].so_far(p.chunk->Some_0) == reassembly::there_of(
            partial[k],
            id,
            payload.len(),
        ));
    }
    reassembly::lemma_parts_are_collected(partial, outs, id, parts, payload);
    assert forall|k: int|
        #![trigger packets.take(k)]
        0 <= k < packets.len() implies after_all(s, packets.take(k)).received(packets[k]).1
        == if k + 1 < packets.len() {
        ReceivedView::Partial
    } else {
        ReceivedView::Whole(payload)
    } by {
        let out = outs[k];
        let there = partial[k];
        assert(states[k] == after_all(s, packets.take(k)));
        assert(parts[k].is_of(payload));
        assert(reassembly::is_piece(packets[k], id, payload.len()));
    }
    assert(packets.take(n as int) =~= packets);
}

// ---------------------------------------------------------------------------
// Packet by packet
// ---------------------------------------------------------------------------

/// A message takes as many packets as it has pieces of 450 bytes, the last of
/// them shorter; all of them wait, behind those that waited before, since they
/// were sent. The counters go on by what was used, modulo 2^32.
pub proof fn law_sent_packets_wait(
    o: OutboundView,
    payload: Seq<u8>,
    ordered: bool,
    now: u64,
    unix: u64,
)
    ensures
        ({
            let after = o.queued(payload, ordered, now, unix);
            let ps = o.packets(payload, ordered, unix);
            let n = o.pending.len() as int;
            &&& 450 * ps.len() >= payload.len() > 450 * (ps.len() - 1)
            &&& after.pending.len() == n + ps.len()
            &&& after.pending.take(n) == o.pending
            &&& forall|i: int|
                0 <= i < ps.len() ==> #[trigger] after.pending[n + i] == (PendingView {
                    packet: ps[i],
                    last_sent: now,
                })
            &&& after.next_seq == (o.next_seq + ps.len()) % 0x1_0000_0000
            &&& after.next_ordered == (if ordered {
                (o.next_ordered + 1) % 0x1_0000_0000
            } else {
                o.next_ordered as int
            })
            &&& after.next_chunk == (if payload.len() > 450 {
                (o.next_chunk + 1) % 0x1_0000_0000
            } else {
                o.next_chunk as int
            })
        }),
{
    let after = o.queued(payload, ordered, now, unix);
    assert(after.pending.take(o.pending.len() as int) =~= o.pending);
}

/// Retransmitting looks at each packet that is not given up: one that was sent a
/// second ago or more counts one more resend and was sent now, any other waits on
/// as it is. Acks and retransmits use up no numbers.
pub proof fn law_retry_is_packet_by_packet(o: OutboundView, now: u64, seq: u32)
    ensures
        ({
            let after = o.retried(now);
            let alive = o.alive();
            &&& after.pending.len() == alive.len()
            &&& forall|i: int|
                0 <= i < alive.len() ==> #[trigger] after.pending[i] == if now
                    >= alive[i].last_sent + 1_000_000_000 {
                    PendingView {
                        packet: PacketView {
                            resend: (alive[i].packet.resend + 1) as u8,
                            ..alive[i].packet
                        },
                        last_sent: now,
                    }
                } else {
                    alive[i]
                }
            &&& after == (OutboundView { pending: after.pending, ..o })
            &&& o.acked(seq) == (OutboundView { pending: o.acked(seq).pending, ..o })
        }),
{
}

/// A piece of a chunked payload goes where it says, into the payload that the
/// first piece under its number announced, and touches no other payload. One that
/// reaches past the end of either goes nowhere, but is remembered like any other.
pub proof fn law_piece_goes_where_it_belongs(s: InboundView, p: PacketView, other: u32)
    requires
        p.chunk is Some,
        !s.processed.contains(p.seq),
        other != p.chunk->Some_0.id,
    ensures
        ({
            let chunk = p.chunk->Some_0;
            let after = s.received(p).0;
            let got = s.received(p).1;
            let known = s.partial.contains_key(chunk.id);
            let size = if known {
                s.partial[chunk.id].buf.len() as int
            } else {
                chunk.total_size as int
            };
            let end = chunk.offset + p.payload.len();
            let have = p.payload.len() + (if known {
                s.partial[chunk.id].have
            } else {
                0
            });
            &&& after.processed == link::remembering(s.processed, p.seq)
            &&& after.partial.contains_key(other) == s.partial.contains_key(other)
            &&& s.partial.contains_key(other) ==> after.partial[other] == s.partial[other]
            &&& (end > size || end > chunk.total_size) <==> got == ReceivedView::PastEnd(chunk.id)
            &&& end > size || end > chunk.total_size ==> after.partial == s.partial
            &&& end <= size && end <= chunk.total_size && have < size ==> {
                let buf = after.partial[chunk.id].buf;
                &&& got == ReceivedView::Partial
                &&& after.partial.contains_key(chunk.id)
                &&& after.partial[chunk.id].have == have
                &&& buf.len() == size
                &&& buf.subrange(chunk.offset as int, end) == p.payload
                &&& known ==> forall|i: int|
                    0 <= i < size && !(chunk.offset <= i < end) ==> #[trigger] buf[i]
                        == s.partial[chunk.id].buf[i]
            }
            &&& end <= size && end <= chunk.total_size && have >= size ==> {
                &&& !after.partial.contains_key(chunk.id)
                &&& got matches ReceivedView::Whole(buf) && buf.len() == size && buf.subrange(
                    chunk.offset as int,
                    end,
                ) == p.payload
            }
        }),
{
    let chunk = p.chunk->Some_0;
    let r = s.so_far(chunk).with(chunk.offset as int, p.payload);
    let end = chunk.offset + p.payload.len();
    if end <= r.buf.len() {
        assert(r.buf.subrange(chunk.offset as int, end) =~= p.payload);
    }
}

} // verus!
