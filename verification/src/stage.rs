//! The stage machine: what each stage does with what the channel brought.
//!
//! A stage function takes the session's state and the outcome of one receive
//! and says which stage comes next and what is to be sent. It performs no
//! input or output itself.

use crate::config::Config;
use crate::connect::{Connection, RecvRes, RecvView};
use crate::packet::{
    decoded, frames, is_time_answer, lemma_decode_frames, packet_views, MyPacket, PacketView, HS1,
    HS2, HS3, TIM,
};
use crate::queue::{
    acked_prefix, acks_in_order, advanced, after_acks, aged_queue, cycle_marked, evict, expire,
    launch, launched_queue, lemma_acks_in_order, lemma_batch_is_due, process_acks, ready_packets,
    Entry,
};
use crate::reassembly::{acks_for, drain, drained, store, stored};
use crate::text::{str_eq, utf8_text};
use std::collections::{HashMap, VecDeque};
use vstd::prelude::*;
use vstd::utf8::{decode_utf8, valid_utf8};

verus! {

/// Where a queued packet stands. `OnFly` holds the time of the last send, in
/// milliseconds on the caller's clock.
#[derive(Clone, Copy, Debug, PartialEq, Eq)]
pub enum SendStatus {
    Ready,
    OnFly(u64),
    Acked,
}

/// Waiting for a local command or a request from the peer.
pub const IDLE: u32 = 0;

/// The responder waits for the third step of the handshake.
pub const HANDSHAKE_RESPONDER: u32 = 1;

/// Sending the queued data.
pub const SENDER_TRANSFER: u32 = 2;

/// The initiator waits for the second step of the handshake.
pub const HANDSHAKE_INITIATOR: u32 = 3;

/// Receiving data.
pub const RECEIVER_TRANSFER: u32 = 4;

/// Waiting for the answer to a time query.
pub const TIME_REQUEST: u32 = 5;

/// Answering time queries.
pub const TIME_RESPOND: u32 = 6;

/// The session's state after a break: as when it was created, on the same
/// ports.
pub open spec fn reset(conn: Connection) -> Connection {
    Connection { timeout: 0, seq: 0, est: false, ..conn }
}

/// Resets the session in place after a break and names the stage to go on
/// with, which is idle.
pub fn handle_break(conn: &mut Connection) -> (next: u32)
    ensures
        *final(conn) == reset(*old(conn)),
        next == IDLE,
{
    conn.timeout = 0;
    conn.seq = 0;
    conn.est = false;
    0
}

/// Whether `a` lies in the arc of `window` sequence numbers just behind `b`
/// on the ring of `seq_siz` numbers.
pub open spec fn within_window(a: u8, b: u8, window: u8, seq_siz: u8) -> bool {
    if a < b {
        b - a <= window
    } else {
        a - b < seq_siz && a - b >= seq_siz - window
    }
}

/// The number of steps forward on the ring from `a` to `b`.
pub open spec fn ring_distance(a: u8, b: u8, seq_siz: u8) -> int {
    if a <= b {
        b - a
    } else {
        b - a + seq_siz
    }
}

/// Whether `a` lies in the arc of `cfg.window` sequence numbers just behind
/// `b`.
pub fn cycle_less_than(a: u8, b: u8, cfg: &Config) -> (r: bool)
    requires
        cfg.window <= cfg.seq_siz,
    ensures
        r == within_window(a, b, cfg.window, cfg.seq_siz),
{
    if a < b {
        b - a <= cfg.window
    } else {
        a - b < cfg.seq_siz && a - b >= cfg.seq_siz - cfg.window
    }
}

/// On a ring that is larger than the window, a number lies within the window
/// behind another exactly when it is at least one and at most `window` steps
/// behind it.
pub proof fn lemma_window_is_arc(a: u8, b: u8, window: u8, seq_siz: u8)
    requires
        0 < window < seq_siz,
        a < seq_siz,
        b < seq_siz,
    ensures
        within_window(a, b, window, seq_siz) <==> 1 <= ring_distance(a, b, seq_siz) <= window,
{
}

/// The edges of the window, on either side of the point where the numbers
/// wrap: a number that is exactly `window` steps behind is within it, one
/// that is `window + 1` steps behind is not, and no number is within the
/// window behind itself.
pub proof fn lemma_window_edges(a: u8, b: u8, window: u8, seq_siz: u8)
    requires
        0 < window < seq_siz,
        a < seq_siz,
        b < seq_siz,
    ensures
        ring_distance(a, b, seq_siz) == window ==> within_window(a, b, window, seq_siz),
        ring_distance(a, b, seq_siz) == window + 1 ==> !within_window(a, b, window, seq_siz),
        a == b ==> !within_window(a, b, window, seq_siz),
{
}

/// What a stage asks of its caller: the packets to send, through the lossy
/// channel, as one datagram, and the stage to go on with.
#[derive(Debug)]
pub struct Step {
    pub next: u32,
    pub send: Vec<MyPacket>,
}

/// What a stage asks of its caller, mathematically.
pub struct StepView {
    pub next: u32,
    pub send: Seq<PacketView>,
}

impl View for Step {
    type V = StepView;

    open spec fn view(&self) -> StepView {
        StepView { next: self.next, send: packet_views(self.send@) }
    }
}

/// A step that sends nothing.
pub open spec fn quiet(next: u32) -> StepView {
    StepView { next, send: Seq::empty() }
}

/// A step that sends one packet without content.
pub open spec fn signal(next: u32, code: u8) -> StepView {
    StepView { next, send: seq![PacketView { code, content: Seq::empty() }] }
}

/// The code of the last of the packets, if there is one. Where a stage
/// decides on a single packet, it is the last one received.
pub open spec fn last_code(packets: Seq<PacketView>) -> Option<u8> {
    if packets.len() == 0 {
        None
    } else {
        Some(packets.last().code)
    }
}

/// The session after a receive in a stage that counts its timeouts: a timeout
/// is counted, a delivery sets the count back to 0, and a break resets the
/// session.
pub open spec fn after_receive(conn: Connection, recv: RecvView) -> Connection {
    match recv {
        RecvView::Timeout => Connection { timeout: (conn.timeout + 1) as u32, ..conn },
        RecvView::Break => reset(conn),
        RecvView::Get(_) => Connection { timeout: 0, ..conn },
    }
}

/// The session can count one more timeout.
pub open spec fn can_count(conn: Connection, recv: RecvView) -> bool {
    recv is Timeout ==> conn.timeout < u32::MAX
}

fn quiet_step(next: u32) -> (step: Step)
    ensures
        step@ == quiet(next),
{
    let step = Step { next, send: Vec::new() };
    assert(step@.send =~= Seq::empty());
    step
}

fn signal_step(next: u32, code: u8) -> (step: Step)
    ensures
        step@ == signal(next, code),
{
    let mut send: Vec<MyPacket> = Vec::new();
    send.push(MyPacket::with_code(code));
    let step = Step { next, send };
    assert(step@.send =~= signal(next, code).send);
    step
}

fn last_code_of(packets: &Vec<MyPacket>) -> (code: Option<u8>)
    ensures
        code == last_code(packet_views(packets@)),
{
    if packets.len() == 0 {
        None
    } else {
        Some(packets[packets.len() - 1].code)
    }
}

/// What a local command asks for, by its text: `None` for `quit`, which ends
/// the process. `send` opens the handshake, `time` asks the peer for its
/// time, and any other text changes nothing.
pub open spec fn command_step(cmd: Seq<char>) -> Option<StepView> {
    if cmd == "quit"@ {
        None
    } else if cmd == "send"@ {
        Some(signal(HANDSHAKE_INITIATOR, HS1))
    } else if cmd == "time"@ {
        Some(signal(TIME_REQUEST, TIM))
    } else {
        Some(quiet(IDLE))
    }
}

/// The idle stage, where a local command is pending: the command decides,
/// and nothing is received in this cycle.
pub fn stage0_command(cmd: &str) -> (r: Option<Step>)
    ensures
        r is Some <==> command_step(cmd@) is Some,
        r is Some ==> r->Some_0@ == command_step(cmd@)->Some_0,
{
    if str_eq(cmd, "quit") {
        None
    } else if str_eq(cmd, "send") {
        Some(signal_step(HANDSHAKE_INITIATOR, HS1))
    } else if str_eq(cmd, "time") {
        Some(signal_step(TIME_REQUEST, TIM))
    } else {
        Some(quiet_step(IDLE))
    }
}

/// The stage that follows the idle stage, where no local command is pending:
/// the last packet received decides. A handshake request leads to the
/// responder's handshake, a time query to the answering of time queries, and
/// anything else changes nothing.
pub open spec fn idle_next(recv: RecvView) -> u32 {
    match recv {
        RecvView::Get(packets) => if last_code(packets) == Some(HS1) {
            HANDSHAKE_RESPONDER
        } else if last_code(packets) == Some(TIM) {
            TIME_RESPOND
        } else {
            IDLE
        },
        _ => IDLE,
    }
}

/// The idle stage, where no local command is pending: the last packet
/// received decides. A handshake request is agreed to, a time query is
/// answered, and anything else is dropped. Timeouts are not counted here.
pub fn stage0(conn: &mut Connection, recv: RecvRes) -> (step: Step)
    ensures
        step.next == idle_next(recv@),
        *final(conn) == (if recv is Get {
            Connection { timeout: 0, ..*old(conn) }
        } else {
            *old(conn)
        }),
        match recv@ {
            RecvView::Get(packets) => if last_code(packets) == Some(HS1) {
                step@ == signal(HANDSHAKE_RESPONDER, HS2)
            } else if last_code(packets) == Some(TIM) {
                &&& step.next == TIME_RESPOND
                &&& step.send@.len() == 1
                &&& is_time_answer(step.send@[0]@)
            } else {
                step@ == quiet(IDLE)
            },
            _ => step@ == quiet(IDLE),
        },
{
    if let RecvRes::Get(pkts) = recv {
        conn.timeout = 0;
        match last_code_of(&pkts) {
            Some(code) => {
                if code == HS1 {
                    return signal_step(HANDSHAKE_RESPONDER, HS2);
                } else if code == TIM {
                    let mut send: Vec<MyPacket> = Vec::new();
                    send.push(MyPacket::with_now());
                    return Step { next: TIME_RESPOND, send };
                } else {
                    return quiet_step(IDLE);
                }
            },
            None => {},
        }
    }
    quiet_step(IDLE)
}

/// What the responder's handshake stage asks for: on a timeout the agreement
/// is sent again; the confirmation leads to the transfer, any other delivery
/// back to idle.
pub open spec fn stage1_step(recv: RecvView) -> StepView {
    match recv {
        RecvView::Timeout => signal(HANDSHAKE_RESPONDER, HS2),
        RecvView::Break => quiet(IDLE),
        RecvView::Get(packets) => if last_code(packets) == Some(HS3) {
            quiet(SENDER_TRANSFER)
        } else {
            quiet(IDLE)
        },
    }
}

/// The responder's handshake stage: waits for the confirmation.
pub fn stage1(conn: &mut Connection, recv: RecvRes) -> (step: Step)
    requires
        can_count(*old(conn), recv@),
    ensures
        *final(conn) == after_receive(*old(conn), recv@),
        step@ == stage1_step(recv@),
{
    match recv {
        RecvRes::Timeout => {
            conn.timeout += 1;
            signal_step(HANDSHAKE_RESPONDER, HS2)
        },
        RecvRes::Break => quiet_step(handle_break(conn)),
        RecvRes::Get(pkts) => {
            conn.timeout = 0;
            if let Some(code) = last_code_of(&pkts) {
                if code == HS3 {
                    return quiet_step(SENDER_TRANSFER);
                }
            }
            quiet_step(IDLE)
        },
    }
}

/// What the first half of a cycle of the sending stage asks for. With an
/// empty queue the transfer is over: the next stage is idle, nothing is sent
/// and nothing is to be received in this cycle. Otherwise the packets of the
/// entries that are ready once the timeouts are looked at go out as one
/// batch, and the second half of the cycle follows.
pub open spec fn stage2_begin_step(q: Seq<Entry>, now: u64, limit: u64) -> StepView {
    if q.len() == 0 {
        quiet(IDLE)
    } else {
        StepView {
            next: SENDER_TRANSFER,
            send: ready_packets(aged_queue(q, now, limit), q.len() as int),
        }
    }
}

/// The queue after the first half of a cycle of the sending stage: the
/// entries whose time has run out, and those that were ready, are in flight
/// since `now`.
pub open spec fn stage2_begin_queue(q: Seq<Entry>, now: u64, limit: u64) -> Seq<Entry> {
    launched_queue(aged_queue(q, now, limit), now)
}

/// The first half of a cycle of the sending stage, before anything is
/// received. Where the step leads to idle, the cycle ends there; where it
/// leads on, its batch is sent, one receive is made, and `stage2` follows.
pub fn stage2_begin(cfg: &Config, queue: &mut VecDeque<Entry>, now: u64) -> (step: Step)
    ensures
        step@ == stage2_begin_step(old(queue)@, now, cfg.single_timeout),
        final(queue)@ == stage2_begin_queue(old(queue)@, now, cfg.single_timeout),
{
    if queue.len() == 0 {
        assert(queue@ =~= stage2_begin_queue(queue@, now, cfg.single_timeout));
        return quiet_step(IDLE);
    }
    expire(queue, cfg, now);
    let send = launch(queue, now);
    Step { next: SENDER_TRANSFER, send }
}

/// The queue after the second half of a cycle of the sending stage, and the
/// number of entries that left it: what was received marks the queue, and the
/// acknowledged entries at its front leave it.
pub open spec fn stage2_queue(
    q: Seq<Entry>,
    recv: RecvView,
    seq: u8,
    window: u8,
    seq_siz: u8,
) -> (Seq<Entry>, nat) {
    let marked = match recv {
        RecvView::Get(packets) => after_acks(q, packets, packets.len() as int, seq, window, seq_siz),
        _ => q,
    };
    let k = acked_prefix(marked);
    (marked.subrange(k as int, marked.len() as int), k)
}

/// The second half of a cycle of the sending stage. With an empty queue the
/// transfer is over: the next stage is idle and nothing changes. A break
/// resets the session and leaves the queue to the caller. Otherwise the
/// receive is counted, what was received marks the queue, the acknowledged
/// entries at its front leave it, and the base of the send window moves on by
/// one for each.
pub fn stage2(conn: &mut Connection, cfg: &Config, queue: &mut VecDeque<Entry>, recv: RecvRes) -> (next:
    u32)
    requires
        cfg.wf(),
        old(conn).seq < cfg.seq_siz,
        can_count(*old(conn), recv@),
    ensures
        old(queue)@.len() == 0 ==> {
            &&& next == IDLE
            &&& *final(conn) == *old(conn)
            &&& final(queue)@ == old(queue)@
        },
        old(queue)@.len() > 0 && recv is Break ==> {
            &&& next == IDLE
            &&& *final(conn) == reset(*old(conn))
            &&& final(queue)@ == old(queue)@
        },
        old(queue)@.len() > 0 && !(recv is Break) ==> {
            let after = stage2_queue(
                old(queue)@,
                recv@,
                old(conn).seq,
                cfg.window,
                cfg.seq_siz,
            );
            &&& next == SENDER_TRANSFER
            &&& final(queue)@ == after.0
            &&& *final(conn) == (Connection {
                seq: advanced(old(conn).seq, after.1, cfg.seq_siz),
                ..after_receive(*old(conn), recv@)
            })
        },
        next == IDLE || final(conn).seq < cfg.seq_siz,
{
    if queue.len() == 0 {
        return IDLE;
    }
    match recv {
        RecvRes::Break => { return handle_break(conn); },
        RecvRes::Get(pkts) => {
            conn.timeout = 0;
            process_acks(queue, &pkts, conn.seq, cfg);
        },
        RecvRes::Timeout => {
            conn.timeout += 1;
        },
    }
    evict(queue, conn, cfg);
    SENDER_TRANSFER
}

/// The two halves of a sender's cycle together leave the queue that the cycle
/// as a whole is defined to leave: the marked queue without the acknowledged
/// entries at its front.
pub proof fn lemma_stage2_is_cycle(
    q: Seq<Entry>,
    now: u64,
    limit: u64,
    packets: Seq<PacketView>,
    seq: u8,
    window: u8,
    seq_siz: u8,
)
    ensures
        stage2_queue(
            stage2_begin_queue(q, now, limit),
            RecvView::Get(packets),
            seq,
            window,
            seq_siz,
        ) == ({
            let marked = cycle_marked(q, now, limit, packets, seq, window, seq_siz);
            (marked.subrange(acked_prefix(marked) as int, marked.len() as int), acked_prefix(marked))
        }),
{
}

/// The handshake goes request, agreement, confirmation, in that order.
///
/// The command `send` makes the initiator send the request and wait for the
/// agreement. The idle responder answers the request with the agreement and
/// waits for the confirmation. The initiator reaches the transfer only on the
/// agreement, which it confirms; the responder reaches it only on the
/// confirmation. An initiator whose agreement was lost sends the request once
/// more and goes on waiting, and so does the responder with its agreement.
pub proof fn lemma_handshake_order(recv: RecvView)
    ensures
        command_step("send"@) == Some(signal(HANDSHAKE_INITIATOR, HS1)),
        idle_next(recv) == HANDSHAKE_RESPONDER <==> recv is Get && last_code(recv->Get_0) == Some(
            HS1,
        ),
        stage3_step(recv).next == RECEIVER_TRANSFER <==> recv is Get && last_code(recv->Get_0)
            == Some(HS2),
        stage3_step(recv).next == RECEIVER_TRANSFER ==> stage3_step(recv) == signal(
            RECEIVER_TRANSFER,
            HS3,
        ),
        stage1_step(recv).next == SENDER_TRANSFER <==> recv is Get && last_code(recv->Get_0)
            == Some(HS3),
        stage3_step(RecvView::Timeout) == signal(HANDSHAKE_INITIATOR, HS1),
        stage1_step(RecvView::Timeout) == signal(HANDSHAKE_RESPONDER, HS2),
{
    reveal_strlit("send");
    reveal_strlit("quit");
    assert("send"@[0] != "quit"@[0]);
}

/// A time query is asked by the command `time`, and its answer crosses the
/// wire: whatever the clock read, the answer decodes to itself, is taken for
/// the answer by its code, and holds text.
pub proof fn lemma_time_answer_crosses(answer: PacketView)
    requires
        is_time_answer(answer),
    ensures
        command_step("time"@) == Some(signal(TIME_REQUEST, TIM)),
        decoded(frames(seq![answer])) == Some(seq![answer]),
        last_code(seq![answer]) == Some(TIM),
        valid_utf8(answer.content),
        answer.content.len() > 0,
{
    reveal_strlit("time");
    reveal_strlit("quit");
    reveal_strlit("send");
    assert("time"@[0] != "quit"@[0]);
    assert("time"@[0] != "send"@[0]);
    lemma_decode_frames(seq![answer]);
}

/// The packets of the first `n` entries, in order.
pub open spec fn queued_packets(q: Seq<Entry>, n: int) -> Seq<PacketView>
    decreases n,
{
    if n <= 0 {
        Seq::empty()
    } else {
        queued_packets(q, n - 1).push(q[n - 1].0@)
    }
}

proof fn lemma_all_ready(q: Seq<Entry>, n: int, now: u64, limit: u64)
    requires
        0 <= n <= q.len(),
        forall|i: int| 0 <= i < q.len() ==> (#[trigger] q[i]).1 is Ready,
    ensures
        ready_packets(aged_queue(q, now, limit), n) == queued_packets(q, n),
    decreases n,
{
    if n > 0 {
        lemma_all_ready(q, n - 1, now, limit);
    }
}

/// A cycle of the sender in which nothing is lost. Where every entry of a
/// queue that is not empty is ready, the first half of the cycle sends the
/// packets of all entries as one batch, in the order of the queue. Where the
/// receive then brings the acknowledgements of all entries, in that order,
/// the second half leaves the queue empty, with every entry counted as having
/// left it. The next cycle, on the empty queue, leads back to idle.
pub proof fn lemma_cycle_without_loss(
    q: Seq<Entry>,
    now: u64,
    limit: u64,
    packets: Seq<PacketView>,
    seq: u8,
    window: u8,
    seq_siz: u8,
)
    requires
        q.len() > 0,
        forall|i: int| 0 <= i < q.len() ==> (#[trigger] q[i]).1 is Ready,
        acks_in_order(q, packets, seq_siz),
    ensures
        stage2_begin_step(q, now, limit) == (StepView {
            next: SENDER_TRANSFER,
            send: queued_packets(q, q.len() as int),
        }),
        stage2_queue(
            stage2_begin_queue(q, now, limit),
            RecvView::Get(packets),
            seq,
            window,
            seq_siz,
        ) == (Seq::<Entry>::empty(), q.len()),
        stage2_begin_step(Seq::<Entry>::empty(), now, limit) == quiet(IDLE),
{
    lemma_all_ready(q, q.len() as int, now, limit);
    lemma_batch_is_due(q, q.len() as int, now, limit);
    let sent = stage2_begin_queue(q, now, limit);
    assert(sent.len() == q.len());
    assert forall|i: int| 0 <= i < sent.len() implies (#[trigger] sent[i]).1 is OnFly by {
        assert(sent[i].1 == SendStatus::OnFly(now));
    }
    assert(acks_in_order(sent, packets, seq_siz)) by {
        assert forall|i: int| 0 <= i < sent.len() implies (#[trigger] sent[i]).0.code < seq_siz
            && packets[i].code == sent[i].0.code + seq_siz by {
            assert(sent[i].0 == q[i].0);
        }
    }
    lemma_acks_in_order(sent, packets, sent.len() as int, seq, window, seq_siz);
    let marked = after_acks(sent, packets, packets.len() as int, seq, window, seq_siz);
    assert(marked.subrange(marked.len() as int, marked.len() as int) =~= Seq::<Entry>::empty());
}

/// What the initiator's handshake stage asks for: on a timeout the request is
/// sent again; the agreement is confirmed and leads to the transfer, any
/// other delivery back to idle.
pub open spec fn stage3_step(recv: RecvView) -> StepView {
    match recv {
        RecvView::Timeout => signal(HANDSHAKE_INITIATOR, HS1),
        RecvView::Break => quiet(IDLE),
        RecvView::Get(packets) => if last_code(packets) == Some(HS2) {
            signal(RECEIVER_TRANSFER, HS3)
        } else {
            quiet(IDLE)
        },
    }
}

/// The initiator's handshake stage: waits for the agreement.
pub fn stage3(conn: &mut Connection, recv: RecvRes) -> (step: Step)
    requires
        can_count(*old(conn), recv@),
    ensures
        *final(conn) == after_receive(*old(conn), recv@),
        step@ == stage3_step(recv@),
{
    match recv {
        RecvRes::Timeout => {
            conn.timeout += 1;
            signal_step(HANDSHAKE_INITIATOR, HS1)
        },
        RecvRes::Break => quiet_step(handle_break(conn)),
        RecvRes::Get(pkts) => {
            conn.timeout = 0;
            if let Some(code) = last_code_of(&pkts) {
                if code == HS2 {
                    return signal_step(RECEIVER_TRANSFER, HS3);
                }
            }
            quiet_step(IDLE)
        },
    }
}

/// One cycle of the receiving stage. What was delivered is stored and
/// acknowledged, and the buffer is drained from the expected sequence number
/// on; the chunks that leave it are handed out for the output, in order. The
/// end-of-stream marker ends the transfer. On a timeout before any delivery
/// the handshake's confirmation is sent again.
pub fn stage4(
    conn: &mut Connection,
    cfg: &Config,
    map: &mut HashMap<u8, Vec<u8>>,
    recv: RecvRes,
) -> (r: (Step, Vec<Vec<u8>>))
    requires
        cfg.wf(),
        old(conn).seq < cfg.seq_siz,
        can_count(*old(conn), recv@),
    ensures
        match recv {
            RecvRes::Timeout => {
                &&& r.0@ == (if old(conn).est {
                    quiet(RECEIVER_TRANSFER)
                } else {
                    signal(RECEIVER_TRANSFER, HS3)
                })
                &&& r.1@.len() == 0
                &&& *final(conn) == after_receive(*old(conn), recv@)
                &&& final(map)@ == old(map)@
            },
            RecvRes::Break => {
                &&& r.0@ == quiet(IDLE)
                &&& r.1@.len() == 0
                &&& *final(conn) == reset(*old(conn))
                &&& final(map)@ == old(map)@
            },
            RecvRes::Get(packets) => {
                let d = drained(
                    stored(old(map)@, packets@, packets@.len() as int),
                    old(conn).seq,
                    cfg.seq_siz,
                );
                &&& r.0.next == (if d.finished {
                    IDLE
                } else {
                    RECEIVER_TRANSFER
                })
                &&& r.0@.send == acks_for(
                    packet_views(packets@),
                    packets@.len() as int,
                    cfg.seq_siz,
                )
                &&& r.1@ == d.chunks
                &&& final(map)@ == d.rest
                &&& *final(conn) == (Connection {
                    timeout: 0,
                    est: true,
                    seq: d.seq,
                    ..*old(conn)
                })
            },
        },
        r.0.next == IDLE || final(conn).seq < cfg.seq_siz,
{
    match recv {
        RecvRes::Timeout => {
            let step = if !conn.est {
                signal_step(RECEIVER_TRANSFER, HS3)
            } else {
                quiet_step(RECEIVER_TRANSFER)
            };
            conn.timeout += 1;
            (step, Vec::new())
        },
        RecvRes::Break => (quiet_step(handle_break(conn)), Vec::new()),
        RecvRes::Get(pkts) => {
            conn.timeout = 0;
            conn.est = true;
            let acks = store(map, pkts, cfg);
            let (chunks, finished) = drain(map, conn, cfg);
            let next = if finished {
                IDLE
            } else {
                RECEIVER_TRANSFER
            };
            (Step { next, send: acks }, chunks)
        },
    }
}

/// The payload of a time answer is not valid UTF-8.
#[derive(Clone, Copy, Debug, PartialEq, Eq)]
pub struct InvalidUtf8;

/// The stage that waits for the answer to a time query. On a timeout the
/// query is sent again. Where the last packet delivered is the answer, its
/// payload is handed out as text, to be shown, and the exchange is over; a
/// payload that is no text fails it.
pub fn stage5(conn: &mut Connection, recv: RecvRes) -> (r: Result<(Step, Option<String>), InvalidUtf8>)
    requires
        can_count(*old(conn), recv@),
    ensures
        *final(conn) == after_receive(*old(conn), recv@),
        match recv@ {
            RecvView::Timeout => r is Ok && r->Ok_0.0@ == signal(TIME_REQUEST, TIM) && r->Ok_0.1
                is None,
            RecvView::Break => r is Ok && r->Ok_0.0@ == quiet(IDLE) && r->Ok_0.1 is None,
            RecvView::Get(packets) => if last_code(packets) == Some(TIM) {
                if valid_utf8(packets.last().content) {
                    &&& r is Ok
                    &&& r->Ok_0.0@ == quiet(IDLE)
                    &&& r->Ok_0.1 is Some
                    &&& r->Ok_0.1->Some_0@ == decode_utf8(packets.last().content)
                } else {
                    r is Err
                }
            } else {
                r is Ok && r->Ok_0.0@ == quiet(TIME_REQUEST) && r->Ok_0.1 is None
            },
        },
{
    match recv {
        RecvRes::Timeout => {
            conn.timeout += 1;
            Ok((signal_step(TIME_REQUEST, TIM), None))
        },
        RecvRes::Break => Ok((quiet_step(handle_break(conn)), None)),
        RecvRes::Get(mut pkts) => {
            conn.timeout = 0;
            let ghost views = packet_views(pkts@);
            match pkts.pop() {
                Some(pkt) => {
                    assert(views.last() == pkt@);
                    if pkt.code == TIM {
                        return match utf8_text(pkt.content) {
                            Some(text) => Ok((quiet_step(IDLE), Some(text))),
                            None => Err(InvalidUtf8),
                        };
                    }
                },
                None => {},
            }
            Ok((quiet_step(TIME_REQUEST), None))
        },
    }
}

/// The number of time queries among the first `n` packets.
pub open spec fn queries(packets: Seq<PacketView>, n: int) -> nat
    decreases n,
{
    if n <= 0 {
        0
    } else if packets[n - 1].code == TIM {
        queries(packets, n - 1) + 1
    } else {
        queries(packets, n - 1)
    }
}

/// What the stage that answers time queries asks of its caller: the stage to
/// go on with, and the answers, each of which is sent, through the lossy
/// channel, as a datagram of its own.
#[derive(Debug)]
pub struct Replies {
    pub next: u32,
    pub replies: Vec<MyPacket>,
}

/// The stage that answers time queries: one answer for each query
/// delivered. Only a break leads out of this stage.
pub fn stage6(conn: &mut Connection, recv: RecvRes) -> (r: Replies)
    requires
        can_count(*old(conn), recv@),
    ensures
        *final(conn) == after_receive(*old(conn), recv@),
        r.next == (if recv is Break {
            IDLE
        } else {
            TIME_RESPOND
        }),
        r.replies@.len() == (match recv@ {
            RecvView::Get(packets) => queries(packets, packets.len() as int),
            _ => 0,
        }),
        forall|i: int| 0 <= i < r.replies@.len() ==> is_time_answer((#[trigger] r.replies@[i])@),
{
    match recv {
        RecvRes::Timeout => {
            conn.timeout += 1;
            Replies { next: TIME_RESPOND, replies: Vec::new() }
        },
        RecvRes::Break => Replies { next: handle_break(conn), replies: Vec::new() },
        RecvRes::Get(pkts) => {
            conn.timeout = 0;
            let mut replies: Vec<MyPacket> = Vec::new();
            let mut i: usize = 0;
            while i < pkts.len()
                invariant
                    i <= pkts.len(),
                    replies@.len() == queries(packet_views(pkts@), i as int),
                    forall|j: int|
                        0 <= j < replies@.len() ==> is_time_answer((#[trigger] replies@[j])@),
                decreases pkts.len() - i,
            {
                assert(packet_views(pkts@)[i as int].code == pkts@[i as int].code);
                if pkts[i].code == TIM {
                    replies.push(MyPacket::with_now());
                }
                i += 1;
            }
            Replies { next: TIME_RESPOND, replies }
        },
    }
}

} // verus!
