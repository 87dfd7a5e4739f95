//! The retransmission queue of the sending side.
//!
//! The queue holds the packets that are not yet acknowledged, oldest first,
//! each with its status. An entry may be acknowledged out of order, but only
//! the acknowledged entries at the front ever leave the queue.

use crate::config::Config;
use crate::connect::Connection;
use crate::packet::{packet_views, MyPacket, PacketView};
use crate::stage::{cycle_less_than, within_window, SendStatus};
use std::collections::VecDeque;
use vstd::prelude::*;
use vstd::slice::slice_to_vec;

verus! {

/// One entry of the queue.
pub type Entry = (MyPacket, SendStatus);

/// The time that has passed at `now` since `sent`, in milliseconds; none
/// where the clock reads less than at the send.
pub open spec fn elapsed(now: u64, sent: u64) -> int {
    if now >= sent {
        now - sent
    } else {
        0
    }
}

/// The status after the check for a timeout: an entry in flight for longer
/// than `limit` is ready to be sent again.
pub open spec fn aged(status: SendStatus, now: u64, limit: u64) -> SendStatus {
    match status {
        SendStatus::OnFly(sent) => if elapsed(now, sent) > limit {
            SendStatus::Ready
        } else {
            status
        },
        _ => status,
    }
}

/// The status after a send at `now`: an entry that was ready is in flight.
pub open spec fn launched(status: SendStatus, now: u64) -> SendStatus {
    match status {
        SendStatus::Ready => SendStatus::OnFly(now),
        _ => status,
    }
}

/// The queue after the check for timeouts.
pub open spec fn aged_queue(q: Seq<Entry>, now: u64, limit: u64) -> Seq<Entry> {
    q.map_values(|e: Entry| (e.0, aged(e.1, now, limit)))
}

/// The queue after a send at `now`.
pub open spec fn launched_queue(q: Seq<Entry>, now: u64) -> Seq<Entry> {
    q.map_values(|e: Entry| (e.0, launched(e.1, now)))
}

/// The packets of those of the first `n` entries that are ready, in order.
pub open spec fn ready_packets(q: Seq<Entry>, n: int) -> Seq<PacketView>
    decreases n,
{
    if n <= 0 {
        Seq::empty()
    } else if q[n - 1].1 is Ready {
        ready_packets(q, n - 1).push(q[n - 1].0@)
    } else {
        ready_packets(q, n - 1)
    }
}

/// The entry that an acknowledgement of `ack` marks, searched from `from` on:
/// the first entry in flight, where it carries `ack`; where it does not and
/// `ack` lies behind the window, none; else the next entry in flight that
/// carries `ack`.
pub open spec fn ack_target(q: Seq<Entry>, from: int, ack: u8, behind: bool) -> Option<int>
    decreases q.len() - from,
{
    if from < 0 || from >= q.len() {
        None
    } else if q[from].1 is OnFly {
        if q[from].0.code == ack {
            Some(from)
        } else if behind {
            None
        } else {
            ack_target(q, from + 1, ack, behind)
        }
    } else {
        ack_target(q, from + 1, ack, behind)
    }
}

/// The queue after an acknowledgement of `ack`.
pub open spec fn marked(q: Seq<Entry>, ack: u8, behind: bool) -> Seq<Entry> {
    match ack_target(q, 0, ack, behind) {
        Some(i) => q.update(i, (q[i].0, SendStatus::Acked)),
        None => q,
    }
}

/// Whether `code` acknowledges a sequence number.
pub open spec fn is_ack(code: u8, seq_siz: u8) -> bool {
    seq_siz <= code < 2 * seq_siz
}

/// The queue after the first `n` of the received packets: each that
/// acknowledges a sequence number marks the queue, in the order received; the
/// others change nothing. `seq` is the base of the send window.
pub open spec fn after_acks(
    q: Seq<Entry>,
    packets: Seq<PacketView>,
    n: int,
    seq: u8,
    window: u8,
    seq_siz: u8,
) -> Seq<Entry>
    decreases n,
{
    if n <= 0 {
        q
    } else {
        let before = after_acks(q, packets, n - 1, seq, window, seq_siz);
        let code = packets[n - 1].code;
        if is_ack(code, seq_siz) {
            let ack = (code - seq_siz) as u8;
            marked(before, ack, within_window(ack, seq, window, seq_siz))
        } else {
            before
        }
    }
}

/// The number of acknowledged entries at the front of the queue.
pub open spec fn acked_prefix(q: Seq<Entry>) -> nat
    decreases q.len(),
{
    if q.len() == 0 || !(q[0].1 is Acked) {
        0
    } else {
        1 + acked_prefix(q.drop_first())
    }
}

/// The acknowledged prefix is the longest run of acknowledged entries at the
/// front: every entry in it is acknowledged, and the entry behind it, if
/// there is one, is not.
pub proof fn lemma_acked_prefix(q: Seq<Entry>)
    ensures
        acked_prefix(q) <= q.len(),
        forall|i: int| 0 <= i < acked_prefix(q) ==> (#[trigger] q[i]).1 is Acked,
        acked_prefix(q) < q.len() ==> !(q[acked_prefix(q) as int].1 is Acked),
    decreases q.len(),
{
    if q.len() > 0 && q[0].1 is Acked {
        let rest = q.drop_first();
        lemma_acked_prefix(rest);
        assert forall|i: int| 0 <= i < acked_prefix(q) implies (#[trigger] q[i]).1 is Acked by {
            if i > 0 {
                assert(q[i] == rest[i - 1]);
            }
        }
        if acked_prefix(q) < q.len() {
            assert(q[acked_prefix(q) as int] == rest[acked_prefix(rest) as int]);
        }
    }
}

/// An entry in flight leaves that status at the check for timeouts only to
/// become ready, and only when its time has run out.
pub proof fn lemma_aged_in_flight(status: SendStatus, now: u64, limit: u64)
    requires
        status is OnFly,
    ensures
        aged(status, now, limit) == status || (aged(status, now, limit) is Ready && elapsed(
            now,
            status->OnFly_0,
        ) > limit),
{
}

/// A send leaves the entries in flight as they are.
pub proof fn lemma_launched_in_flight(status: SendStatus, now: u64)
    requires
        status is OnFly,
    ensures
        launched(status, now) == status,
{
}

/// Where an acknowledgement marks an entry, that entry is in flight and
/// carries the acknowledged number.
pub proof fn lemma_ack_target(q: Seq<Entry>, from: int, ack: u8, behind: bool)
    requires
        0 <= from,
    ensures
        ack_target(q, from, ack, behind) matches Some(i) ==> from <= i < q.len() && q[i].1 is OnFly
            && q[i].0.code == ack,
    decreases q.len() - from,
{
    if from < q.len() {
        lemma_ack_target(q, from + 1, ack, behind);
    }
}

/// An acknowledgement changes at most one entry: one that is in flight and
/// carries the acknowledged number becomes acknowledged. Every other entry,
/// and every packet, stays as it is.
pub proof fn lemma_marked_in_flight(q: Seq<Entry>, ack: u8, behind: bool, i: int)
    requires
        0 <= i < q.len(),
    ensures
        marked(q, ack, behind).len() == q.len(),
        marked(q, ack, behind)[i].0 == q[i].0,
        marked(q, ack, behind)[i] == q[i] || (q[i].1 is OnFly && q[i].0.code == ack && marked(
            q,
            ack,
            behind,
        )[i].1 is Acked),
{
    lemma_ack_target(q, 0, ack, behind);
}

/// Whatever was received, an entry either keeps its status or was in flight
/// and is now acknowledged, and then one of the received packets acknowledges
/// the number it carries. The packets in the queue stay as they are.
pub proof fn lemma_after_acks_in_flight(
    q: Seq<Entry>,
    packets: Seq<PacketView>,
    n: int,
    seq: u8,
    window: u8,
    seq_siz: u8,
    i: int,
)
    requires
        0 <= n <= packets.len(),
        0 <= i < q.len(),
    ensures
        after_acks(q, packets, n, seq, window, seq_siz).len() == q.len(),
        after_acks(q, packets, n, seq, window, seq_siz)[i].0 == q[i].0,
        after_acks(q, packets, n, seq, window, seq_siz)[i] == q[i] || (q[i].1 is OnFly
            && after_acks(q, packets, n, seq, window, seq_siz)[i].1 is Acked && exists|k: int|
            0 <= k < n && is_ack(#[trigger] packets[k].code, seq_siz) && packets[k].code - seq_siz
                == q[i].0.code),
    decreases n,
{
    if n > 0 {
        lemma_after_acks_in_flight(q, packets, n - 1, seq, window, seq_siz, i);
        let before = after_acks(q, packets, n - 1, seq, window, seq_siz);
        let code = packets[n - 1].code;
        if is_ack(code, seq_siz) {
            let ack = (code - seq_siz) as u8;
            lemma_marked_in_flight(before, ack, within_window(ack, seq, window, seq_siz), i);
            let after = after_acks(q, packets, n, seq, window, seq_siz);
            if after[i] != q[i] {
                if before[i] == q[i] {
                    assert(is_ack(packets[n - 1].code, seq_siz) && packets[n - 1].code - seq_siz
                        == q[i].0.code);
                }
            }
        }
    }
}

/// Whether an entry is due to be sent: it is ready, or it has been in flight
/// for longer than `limit`.
pub open spec fn due(status: SendStatus, now: u64, limit: u64) -> bool {
    match status {
        SendStatus::Ready => true,
        SendStatus::OnFly(sent) => elapsed(now, sent) > limit,
        SendStatus::Acked => false,
    }
}

/// The packets of those of the first `n` entries that are due, in order.
pub open spec fn due_packets(q: Seq<Entry>, n: int, now: u64, limit: u64) -> Seq<PacketView>
    decreases n,
{
    if n <= 0 {
        Seq::empty()
    } else if due(q[n - 1].1, now, limit) {
        due_packets(q, n - 1, now, limit).push(q[n - 1].0@)
    } else {
        due_packets(q, n - 1, now, limit)
    }
}

/// The batch of a cycle holds the packets of the entries that are due, in the
/// order of the queue, and no others: neither those in flight within the
/// timeout nor the acknowledged ones. After the send each entry that was due
/// is in flight since `now`, and every other entry is as it was.
pub proof fn lemma_batch_is_due(q: Seq<Entry>, n: int, now: u64, limit: u64)
    requires
        0 <= n <= q.len(),
    ensures
        ready_packets(aged_queue(q, now, limit), n) == due_packets(q, n, now, limit),
        forall|i: int|
            0 <= i < q.len() ==> (#[trigger] launched_queue(aged_queue(q, now, limit), now)[i])
                == (q[i].0, if due(q[i].1, now, limit) {
                SendStatus::OnFly(now)
            } else {
                q[i].1
            }),
    decreases n,
{
    if n > 0 {
        lemma_batch_is_due(q, n - 1, now, limit);
    }
}

/// The queue with its first `k` entries acknowledged and the others as they
/// are.
pub open spec fn acked_upto(q: Seq<Entry>, k: int) -> Seq<Entry> {
    Seq::new(
        q.len(),
        |i: int|
            (q[i].0, if i < k {
                SendStatus::Acked
            } else {
                q[i].1
            }),
    )
}

/// The received packets acknowledge the entries of the queue one by one, in
/// the order of the queue.
pub open spec fn acks_in_order(q: Seq<Entry>, packets: Seq<PacketView>, seq_siz: u8) -> bool {
    &&& packets.len() == q.len()
    &&& forall|i: int|
        0 <= i < q.len() ==> (#[trigger] q[i]).0.code < seq_siz && packets[i].code == q[i].0.code
            + seq_siz
}

proof fn lemma_ack_target_skips(q: Seq<Entry>, from: int, k: int, ack: u8, behind: bool)
    requires
        0 <= from <= k < q.len(),
        forall|j: int| from <= j < k ==> !((#[trigger] q[j]).1 is OnFly),
        q[k].1 is OnFly,
        q[k].0.code == ack,
    ensures
        ack_target(q, from, ack, behind) == Some(k),
    decreases k - from,
{
    if from < k {
        assert(!(q[from].1 is OnFly));
        lemma_ack_target_skips(q, from + 1, k, ack, behind);
    }
}

proof fn lemma_acked_prefix_of_all(q: Seq<Entry>)
    requires
        forall|i: int| 0 <= i < q.len() ==> (#[trigger] q[i]).1 is Acked,
    ensures
        acked_prefix(q) == q.len(),
    decreases q.len(),
{
    if q.len() > 0 {
        let rest = q.drop_first();
        assert forall|i: int| 0 <= i < rest.len() implies (#[trigger] rest[i]).1 is Acked by {
            assert(rest[i] == q[i + 1]);
        }
        lemma_acked_prefix_of_all(rest);
    }
}

/// Where every entry is in flight and the received packets acknowledge the
/// entries one by one in the order of the queue, each of the first `k`
/// packets marks its entry, wherever the window stands.
pub proof fn lemma_acks_in_order(
    q: Seq<Entry>,
    packets: Seq<PacketView>,
    k: int,
    seq: u8,
    window: u8,
    seq_siz: u8,
)
    requires
        acks_in_order(q, packets, seq_siz),
        forall|i: int| 0 <= i < q.len() ==> (#[trigger] q[i]).1 is OnFly,
        0 <= k <= q.len(),
    ensures
        after_acks(q, packets, k, seq, window, seq_siz) == acked_upto(q, k),
        k == q.len() ==> acked_prefix(after_acks(q, packets, k, seq, window, seq_siz)) == q.len(),
    decreases k,
{
    if k > 0 {
        lemma_acks_in_order(q, packets, k - 1, seq, window, seq_siz);
        let before = acked_upto(q, k - 1);
        assert(q[k - 1].0.code < seq_siz);
        let code = packets[k - 1].code;
        let ack = (code - seq_siz) as u8;
        assert(is_ack(code, seq_siz));
        assert(before[k - 1] == q[k - 1]);
        assert forall|j: int| 0 <= j < k - 1 implies !((#[trigger] before[j]).1 is OnFly) by {}
        lemma_ack_target_skips(before, 0, k - 1, ack, within_window(ack, seq, window, seq_siz));
        assert(before.update(k - 1, (before[k - 1].0, SendStatus::Acked)) =~= acked_upto(q, k));
    } else {
        assert(acked_upto(q, 0) =~= q);
    }
    if k == q.len() {
        lemma_acked_prefix_of_all(acked_upto(q, k));
    }
}

/// The queue in the middle of a sender's cycle: the timeouts are looked at,
/// the ready entries are sent at `now`, and the received packets have marked
/// the queue. `seq` is the base of the send window.
pub open spec fn cycle_marked(
    q: Seq<Entry>,
    now: u64,
    limit: u64,
    packets: Seq<PacketView>,
    seq: u8,
    window: u8,
    seq_siz: u8,
) -> Seq<Entry> {
    after_acks(
        launched_queue(aged_queue(q, now, limit), now),
        packets,
        packets.len() as int,
        seq,
        window,
        seq_siz,
    )
}

/// Some received packet acknowledges the sequence number `code`.
pub open spec fn acknowledged_by(packets: Seq<PacketView>, code: u8, seq_siz: u8) -> bool {
    exists|k: int|
        0 <= k < packets.len() && is_ack(#[trigger] packets[k].code, seq_siz) && packets[k].code
            - seq_siz == code
}

/// What one cycle of the sender does to the queue, whatever is received.
///
/// No packet in the queue changes and no entry changes its place. Once the
/// batch is sent no entry is ready. An entry becomes acknowledged only where
/// a received packet acknowledges the number it carries. An entry in flight
/// leaves that status only in two ways: when its time has run out it is sent
/// again, and is then in flight since `now`; when a received packet
/// acknowledges its number it is acknowledged. Otherwise it stays in flight
/// since the time it was sent. The entries that leave the queue are the
/// acknowledged entries at its front, and the entry behind them, if there is
/// one, is not acknowledged.
pub proof fn lemma_sender_cycle(
    q: Seq<Entry>,
    now: u64,
    limit: u64,
    packets: Seq<PacketView>,
    seq: u8,
    window: u8,
    seq_siz: u8,
)
    ensures
        cycle_marked(q, now, limit, packets, seq, window, seq_siz).len() == q.len(),
        acked_prefix(cycle_marked(q, now, limit, packets, seq, window, seq_siz)) <= q.len(),
        forall|i: int|
            0 <= i < q.len() ==> {
                let after = #[trigger] cycle_marked(q, now, limit, packets, seq, window, seq_siz)[i];
                &&& after.0 == q[i].0
                &&& !(after.1 is Ready)
                &&& after.1 is Acked ==> q[i].1 is Acked || acknowledged_by(
                    packets,
                    q[i].0.code,
                    seq_siz,
                )
                &&& q[i].1 is OnFly ==> {
                    ||| after.1 == q[i].1 && elapsed(now, q[i].1->OnFly_0) <= limit
                    ||| after.1 == SendStatus::OnFly(now) && elapsed(now, q[i].1->OnFly_0) > limit
                    ||| after.1 is Acked && acknowledged_by(packets, q[i].0.code, seq_siz)
                }
            },
        forall|i: int|
            0 <= i < acked_prefix(cycle_marked(q, now, limit, packets, seq, window, seq_siz))
                ==> (#[trigger] cycle_marked(q, now, limit, packets, seq, window, seq_siz)[i]).1
                is Acked,
        acked_prefix(cycle_marked(q, now, limit, packets, seq, window, seq_siz)) < q.len() ==> !(
        cycle_marked(q, now, limit, packets, seq, window, seq_siz)[acked_prefix(
            cycle_marked(q, now, limit, packets, seq, window, seq_siz),
        ) as int].1 is Acked),
{
    let sent = launched_queue(aged_queue(q, now, limit), now);
    let marked = cycle_marked(q, now, limit, packets, seq, window, seq_siz);
    lemma_acked_prefix(marked);
    assert(sent.len() == q.len());
    if q.len() > 0 {
        lemma_after_acks_in_flight(sent, packets, packets.len() as int, seq, window, seq_siz, 0);
    } else {
        lemma_after_acks_keeps_empty(sent, packets, packets.len() as int, seq, window, seq_siz);
    }
    assert forall|i: int| 0 <= i < q.len() implies {
        let after = #[trigger] marked[i];
        &&& after.0 == q[i].0
        &&& !(after.1 is Ready)
        &&& after.1 is Acked ==> q[i].1 is Acked || acknowledged_by(packets, q[i].0.code, seq_siz)
        &&& q[i].1 is OnFly ==> {
            ||| after.1 == q[i].1 && elapsed(now, q[i].1->OnFly_0) <= limit
            ||| after.1 == SendStatus::OnFly(now) && elapsed(now, q[i].1->OnFly_0) > limit
            ||| after.1 is Acked && acknowledged_by(packets, q[i].0.code, seq_siz)
        }
    } by {
        lemma_after_acks_in_flight(sent, packets, packets.len() as int, seq, window, seq_siz, i);
        assert(sent[i].0 == q[i].0);
        assert(sent[i].1 == launched(aged(q[i].1, now, limit), now));
    }
}

/// Acknowledgements leave an empty queue empty.
proof fn lemma_after_acks_keeps_empty(
    q: Seq<Entry>,
    packets: Seq<PacketView>,
    n: int,
    seq: u8,
    window: u8,
    seq_siz: u8,
)
    requires
        q.len() == 0,
    ensures
        after_acks(q, packets, n, seq, window, seq_siz) == q,
    decreases n,
{
    if n > 0 {
        lemma_after_acks_keeps_empty(q, packets, n - 1, seq, window, seq_siz);
    }
}

/// Makes the entries that have been in flight for longer than the timeout
/// ready to be sent again.
pub fn expire(queue: &mut VecDeque<Entry>, cfg: &Config, now: u64)
    ensures
        final(queue)@ == aged_queue(old(queue)@, now, cfg.single_timeout),
{
    let ghost before = queue@;
    let ghost goal = aged_queue(before, now, cfg.single_timeout);
    let mut done: VecDeque<Entry> = VecDeque::new();
    loop
        invariant
            done@.len() + queue@.len() == before.len(),
            queue@ == before.subrange(done@.len() as int, before.len() as int),
            done@ == goal.subrange(0, done@.len() as int),
            goal == aged_queue(before, now, cfg.single_timeout),
        ensures
            done@ == goal,
        decreases queue@.len(),
    {
        match queue.pop_front() {
            None => {
                assert(done@ =~= goal);
                break ;
            },
            Some((packet, status)) => {
                let ghost k = done@.len() as int;
                assert(before[k] == (packet, status));
                let status = match status {
                    SendStatus::OnFly(sent) => if now >= sent && now - sent > cfg.single_timeout {
                        SendStatus::Ready
                    } else {
                        status
                    },
                    _ => status,
                };
                done.push_back((packet, status));
                assert(done@ =~= goal.subrange(0, k + 1));
                assert(queue@ =~= before.subrange(k + 1, before.len() as int));
            },
        }
    }
    *queue = done;
}

/// Marks every ready entry as in flight since `now` and hands out copies of
/// their packets, in the order of the queue, to be sent as one datagram.
pub fn launch(queue: &mut VecDeque<Entry>, now: u64) -> (batch: Vec<MyPacket>)
    ensures
        final(queue)@ == launched_queue(old(queue)@, now),
        packet_views(batch@) == ready_packets(old(queue)@, old(queue)@.len() as int),
{
    let ghost before = queue@;
    let ghost goal = launched_queue(before, now);
    let mut done: VecDeque<Entry> = VecDeque::new();
    let mut batch: Vec<MyPacket> = Vec::new();
    loop
        invariant
            done@.len() + queue@.len() == before.len(),
            queue@ == before.subrange(done@.len() as int, before.len() as int),
            done@ == goal.subrange(0, done@.len() as int),
            goal == launched_queue(before, now),
            packet_views(batch@) == ready_packets(before, done@.len() as int),
        ensures
            done@ == goal,
            packet_views(batch@) == ready_packets(before, before.len() as int),
        decreases queue@.len(),
    {
        match queue.pop_front() {
            None => {
                assert(done@ =~= goal);
                break ;
            },
            Some((packet, status)) => {
                let ghost k = done@.len() as int;
                assert(before[k] == (packet, status));
                let status = match status {
                    SendStatus::Ready => {
                        let copy = packet.clone();
                        assert(packet_views(batch@.push(copy)) =~= packet_views(batch@).push(
                            copy@,
                        ));
                        batch.push(copy);
                        SendStatus::OnFly(now)
                    },
                    _ => status,
                };
                done.push_back((packet, status));
                assert(done@ =~= goal.subrange(0, k + 1));
                assert(queue@ =~= before.subrange(k + 1, before.len() as int));
            },
        }
    }
    *queue = done;
    batch
}

/// Marks the entry that an acknowledgement of `ack` is for. `behind` says
/// whether `ack` lies within the window behind the base of the send window,
/// in which case only the first entry in flight can be meant.
pub fn acknowledge(queue: &mut VecDeque<Entry>, ack: u8, behind: bool)
    ensures
        final(queue)@ == marked(old(queue)@, ack, behind),
{
    let ghost before = queue@;
    let ghost goal = marked(before, ack, behind);
    let mut done: VecDeque<Entry> = VecDeque::new();
    let mut settled = false;
    proof {
        lemma_ack_target(before, 0, ack, behind);
    }
    loop
        invariant
            done@.len() + queue@.len() == before.len(),
            queue@ == before.subrange(done@.len() as int, before.len() as int),
            goal == marked(before, ack, behind),
            goal.len() == before.len(),
            settled ==> done@ == goal.subrange(0, done@.len() as int) && forall|j: int|
                done@.len() <= j < before.len() ==> goal[j] == before[j],
            !settled ==> done@ == before.subrange(0, done@.len() as int) && ack_target(
                before,
                0,
                ack,
                behind,
            ) == ack_target(before, done@.len() as int, ack, behind),
        ensures
            done@ == goal,
        decreases queue@.len(),
    {
        match queue.pop_front() {
            None => {
                assert(done@ =~= goal);
                break ;
            },
            Some((packet, status)) => {
                let ghost k = done@.len() as int;
                assert(before[k] == (packet, status));
                let mut status = status;
                if !settled {
                    if let SendStatus::OnFly(_) = status {
                        if packet.code == ack {
                            status = SendStatus::Acked;
                            settled = true;
                        } else if behind {
                            settled = true;
                        }
                    }
                }
                done.push_back((packet, status));
                assert(queue@ =~= before.subrange(k + 1, before.len() as int));
                if settled {
                    assert(done@ =~= goal.subrange(0, k + 1));
                } else {
                    assert(done@ =~= before.subrange(0, k + 1));
                }
            },
        }
    }
    *queue = done;
}

/// Lets each received packet that acknowledges a sequence number mark the
/// queue, in the order received. `seq` is the base of the send window.
pub fn process_acks(queue: &mut VecDeque<Entry>, packets: &Vec<MyPacket>, seq: u8, cfg: &Config)
    requires
        cfg.window <= cfg.seq_siz,
    ensures
        final(queue)@ == after_acks(
            old(queue)@,
            packet_views(packets@),
            packets@.len() as int,
            seq,
            cfg.window,
            cfg.seq_siz,
        ),
{
    let ghost before = queue@;
    let mut i: usize = 0;
    while i < packets.len()
        invariant
            i <= packets.len(),
            cfg.window <= cfg.seq_siz,
            queue@ == after_acks(
                before,
                packet_views(packets@),
                i as int,
                seq,
                cfg.window,
                cfg.seq_siz,
            ),
        decreases packets.len() - i,
    {
        let code = packets[i].code;
        assert(packet_views(packets@)[i as int].code == code);
        if code >= cfg.seq_siz && code - cfg.seq_siz < cfg.seq_siz {
            let ack: u8 = code - cfg.seq_siz;
            let behind = cycle_less_than(ack, seq, cfg);
            acknowledge(queue, ack, behind);
        }
        i += 1;
    }
}

/// The sequence number that is `steps` behind `seq` on the ring.
pub open spec fn advanced(seq: u8, steps: nat, seq_siz: u8) -> u8 {
    ((seq + steps) % (seq_siz as int)) as u8
}

/// Removes the acknowledged entries at the front of the queue and moves the
/// base of the send window on by one for each.
pub fn evict(queue: &mut VecDeque<Entry>, conn: &mut Connection, cfg: &Config)
    requires
        0 < cfg.seq_siz,
        old(conn).seq < cfg.seq_siz,
    ensures
        final(queue)@ == old(queue)@.subrange(
            acked_prefix(old(queue)@) as int,
            old(queue)@.len() as int,
        ),
        *final(conn) == (Connection {
            seq: advanced(old(conn).seq, acked_prefix(old(queue)@), cfg.seq_siz),
            ..*old(conn)
        }),
        final(conn).seq < cfg.seq_siz,
{
    let ghost before = queue@;
    let ghost seq0 = conn.seq;
    let ghost mut k: nat = 0;
    proof {
        vstd::arithmetic::div_mod::lemma_small_mod(seq0 as nat, cfg.seq_siz as nat);
        assert(before.subrange(0, before.len() as int) =~= before);
    }
    loop
        invariant
            0 < cfg.seq_siz,
            k <= before.len(),
            queue@ == before.subrange(k as int, before.len() as int),
            acked_prefix(before) == k + acked_prefix(queue@),
            conn.seq == advanced(seq0, k, cfg.seq_siz),
            conn.seq < cfg.seq_siz,
            *conn == (Connection { seq: conn.seq, ..*old(conn) }),
        ensures
            k == acked_prefix(before),
            queue@ == before.subrange(k as int, before.len() as int),
            conn.seq == advanced(seq0, k, cfg.seq_siz),
            conn.seq < cfg.seq_siz,
            *conn == (Connection { seq: conn.seq, ..*old(conn) }),
        decreases queue@.len(),
    {
        if queue.len() == 0 {
            break ;
        }
        let acked = match queue[0].1 {
            SendStatus::Acked => true,
            _ => false,
        };
        if !acked {
            break ;
        }
        let ghost here = queue@;
        queue.pop_front();
        assert(queue@ =~= here.drop_first());
        assert(queue@ =~= before.subrange(k as int + 1, before.len() as int));
        proof {
            let m = cfg.seq_siz as int;
            vstd::arithmetic::div_mod::lemma_add_mod_noop(seq0 + k, 1, m);
            vstd::arithmetic::div_mod::lemma_mod_bound(seq0 + k + 1, m);
            if m > 1 {
                vstd::arithmetic::div_mod::lemma_small_mod(1, m as nat);
            }
            k = k + 1;
        }
        conn.seq = (conn.seq + 1) % cfg.seq_siz;
    }
}

/// The most bytes of data that one packet carries.
pub const CHUNK: usize = 1024;

/// The number of packets that `data_len` bytes of data make.
pub open spec fn chunks_needed(data_len: nat) -> nat {
    ((data_len + CHUNK - 1) / (CHUNK as int)) as nat
}

/// The number of data packets that enter a queue of `queue_len` entries: as
/// many as the data makes, as far as the window has room.
pub open spec fn chunks_taken(queue_len: nat, data_len: nat, window: u8) -> nat {
    if queue_len >= window {
        0
    } else if chunks_needed(data_len) <= window - queue_len {
        chunks_needed(data_len)
    } else {
        (window - queue_len) as nat
    }
}

/// The number of bytes that `taken` packets consume of `data_len` bytes.
pub open spec fn bytes_taken(taken: nat, data_len: nat) -> nat {
    if taken * CHUNK <= data_len {
        (taken * CHUNK) as nat
    } else {
        data_len
    }
}

/// The `i`-th chunk of the data.
pub open spec fn chunk(data: Seq<u8>, i: int) -> Seq<u8> {
    data.subrange(i * CHUNK, bytes_taken((i + 1) as nat, data.len()) as int)
}

/// Whether the end-of-stream marker enters the queue: it has not been queued
/// before, all the data is queued, and the window still has room.
pub open spec fn marker_taken(queue_len: nat, data_len: nat, window: u8, end: bool) -> bool {
    &&& !end
    &&& queue_len + chunks_taken(queue_len, data_len, window) < window
    &&& bytes_taken(chunks_taken(queue_len, data_len, window), data_len) == data_len
}

/// Fills the queue from the data that is not yet queued, as far as the window
/// has room, and says how many bytes of it are now queued.
///
/// Each packet carries up to `CHUNK` bytes and the sequence number that
/// follows that of the entry before it; `seq` is the number of the queue's
/// first entry. Behind the last of the data the end-of-stream marker, a
/// packet without content, is queued once; `end` says whether it has been.
pub fn update_queue(
    queue: &mut VecDeque<Entry>,
    data: &[u8],
    config: &Config,
    seq: u8,
    end: &mut bool,
) -> (count: usize)
    requires
        0 < config.seq_siz,
    ensures
        count == bytes_taken(
            chunks_taken(old(queue)@.len(), data@.len(), config.window),
            data@.len(),
        ),
        final(queue)@.len() == old(queue)@.len() + chunks_taken(
            old(queue)@.len(),
            data@.len(),
            config.window,
        ) + (if marker_taken(old(queue)@.len(), data@.len(), config.window, *old(end)) {
            1nat
        } else {
            0nat
        }),
        final(queue)@.subrange(0, old(queue)@.len() as int) == old(queue)@,
        forall|i: int|
            0 <= i < chunks_taken(old(queue)@.len(), data@.len(), config.window) ==> (
            #[trigger] final(queue)@[old(queue)@.len() + i]).1 is Ready
                && final(queue)@[old(queue)@.len() + i].0@ == (PacketView {
                code: advanced(seq, (old(queue)@.len() + i) as nat, config.seq_siz),
                content: chunk(data@, i),
            }),
        marker_taken(old(queue)@.len(), data@.len(), config.window, *old(end))
            ==> final(queue)@.last().1 is Ready && final(queue)@.last().0@ == (PacketView {
            code: advanced(seq, (final(queue)@.len() - 1) as nat, config.seq_siz),
            content: Seq::empty(),
        }),
        *final(end) == (*old(end) || marker_taken(
            old(queue)@.len(),
            data@.len(),
            config.window,
            *old(end),
        )),
{
    let limit: usize = config.window as usize;
    let ghost before = queue@;
    let ghost taken = chunks_taken(before.len(), data@.len(), config.window);
    if queue.len() >= limit {
        assert(queue@.subrange(0, before.len() as int) =~= before);
        return 0;
    }
    let siz: usize = config.seq_siz as usize;
    let mut next: u8 = ((seq as usize + queue.len()) % siz) as u8;
    let mut count: usize = 0;
    let ghost mut i: nat = 0;
    while queue.len() < limit && count < data.len()
        invariant
            limit == config.window,
            siz == config.seq_siz,
            0 < siz,
            before.len() < limit,
            queue@.len() == before.len() + i,
            queue@.len() <= limit,
            queue@.subrange(0, before.len() as int) == before,
            count == bytes_taken(i, data@.len()),
            count < data@.len() ==> count == i * CHUNK,
            i <= chunks_needed(data@.len()),
            next == advanced(seq, (before.len() + i) as nat, config.seq_siz),
            next < siz,
            forall|j: int|
                0 <= j < i ==> (#[trigger] queue@[before.len() + j]).1 is Ready && queue@[before.len()
                    + j].0@ == (PacketView {
                    code: advanced(seq, (before.len() + j) as nat, config.seq_siz),
                    content: chunk(data@, j),
                }),
        decreases data@.len() - count,
    {
        let rest: usize = data.len() - count;
        let chunk_size: usize = if rest < CHUNK {
            rest
        } else {
            CHUNK
        };
        let piece = slice_to_vec(&data[count..count + chunk_size]);
        let ghost here = queue@;
        queue.push_back((MyPacket::with_data(piece, next), SendStatus::Ready));
        proof {
            assert(piece@ =~= chunk(data@, i as int));
            assert(queue@.subrange(0, before.len() as int) =~= here.subrange(
                0,
                before.len() as int,
            ));
            assert forall|j: int| 0 <= j < i + 1 implies (#[trigger] queue@[before.len() + j]).1 is Ready
                && queue@[before.len() + j].0@ == (PacketView {
                code: advanced(seq, (before.len() + j) as nat, config.seq_siz),
                content: chunk(data@, j),
            }) by {
                if j < i {
                    assert(queue@[before.len() + j] == here[before.len() + j]);
                }
            }
            let m = siz as int;
            vstd::arithmetic::div_mod::lemma_add_mod_noop(seq + before.len() + i, 1, m);
            if m > 1 {
                vstd::arithmetic::div_mod::lemma_small_mod(1, m as nat);
            }
            i = i + 1;
        }
        count += chunk_size;
        next = ((next as usize + 1) % siz) as u8;
    }
    assert(i == taken);
    if !*end && queue.len() < limit && data.len() == count {
        let ghost here = queue@;
        queue.push_back((MyPacket::with_code(next), SendStatus::Ready));
        proof {
            assert(queue@.subrange(0, before.len() as int) =~= here.subrange(
                0,
                before.len() as int,
            ));
            assert forall|j: int| 0 <= j < taken implies (#[trigger] queue@[before.len() + j]).1 is Ready
                && queue@[before.len() + j].0@ == (PacketView {
                code: advanced(seq, (before.len() + j) as nat, config.seq_siz),
                content: chunk(data@, j),
            }) by {
                assert(queue@[before.len() + j] == here[before.len() + j]);
            }
        }
        *end = true;
    }
    count
}

} // verus!
