//! The session's state and the lossy channel's rules.
//!
//! The channel drops packets on purpose, on the way out and on the way in, so
//! that the retransmission logic has something to recover from. Which packets
//! are dropped is drawn at random; what becomes of a datagram once the draws
//! are known is fixed, and stated here for every draw.

use crate::config::{Config, Rate};
use crate::packet::{
    decoded, frames, packet_ref_views, packet_views, wrong_format_message, MyPacket, PacketView,
};
use rand::Rng;
use vstd::prelude::*;

verus! {

/// The port that the responder binds and the initiator sends to.
pub const SERVER_PORT: u16 = 6500;

/// The port that the initiator binds and the responder sends to.
pub const CLIENT_PORT: u16 = 6501;

/// The state of one session. Both ports are on the loopback interface.
#[derive(Debug)]
pub struct Connection {
    pub remote_port: u16,
    pub local_port: u16,
    /// Timeouts in a row since the last delivery.
    pub timeout: u32,
    /// The next sequence number to receive, or the base of the send window.
    pub seq: u8,
    /// Whether data has arrived since the handshake.
    pub est: bool,
}

impl Connection {
    /// A fresh session on the ports of the configured role.
    pub fn new(config: &Config) -> (c: Connection)
        ensures
            c.local_port == (if config.is_server {
                SERVER_PORT
            } else {
                CLIENT_PORT
            }),
            c.remote_port == (if config.is_server {
                CLIENT_PORT
            } else {
                SERVER_PORT
            }),
            c.timeout == 0,
            c.seq == 0,
            !c.est,
    {
        let (lport, rport) = if config.is_server {
            (SERVER_PORT, CLIENT_PORT)
        } else {
            (CLIENT_PORT, SERVER_PORT)
        };
        Connection { remote_port: rport, local_port: lport, timeout: 0, seq: 0, est: false }
    }
}

/// What one receive on the channel brought.
#[derive(Debug)]
pub enum RecvRes {
    /// Nothing arrived in time, or all of it was dropped.
    Timeout,
    /// Nothing arrived for so long that the session is broken.
    Break,
    /// The packets that arrived, in their order on the wire.
    Get(Vec<MyPacket>),
}

/// What a receive brought, mathematically.
pub enum RecvView {
    Timeout,
    Break,
    Get(Seq<PacketView>),
}

impl View for RecvRes {
    type V = RecvView;

    open spec fn view(&self) -> RecvView {
        match self {
            RecvRes::Timeout => RecvView::Timeout,
            RecvRes::Break => RecvView::Break,
            RecvRes::Get(packets) => RecvView::Get(packet_views(packets@)),
        }
    }
}

/// Those of the first `n` items whose draw says keep, in their order.
pub open spec fn kept<T>(items: Seq<T>, keep: Seq<bool>, n: int) -> Seq<T>
    decreases n,
{
    if n <= 0 {
        Seq::empty()
    } else if keep[n - 1] {
        kept(items, keep, n - 1).push(items[n - 1])
    } else {
        kept(items, keep, n - 1)
    }
}

/// The draws are ones that the rate can give: all keep where it is 1, none
/// where it is 0.
pub open spec fn rate_allows(rate: Rate, keep: Seq<bool>) -> bool {
    &&& rate.is_certain() ==> forall|i: int| 0 <= i < keep.len() ==> keep[i]
    &&& rate.is_never() ==> forall|i: int| 0 <= i < keep.len() ==> !keep[i]
}

/// Keeping commutes with looking at each item through `f`.
pub proof fn lemma_kept_map<A, B>(items: Seq<A>, keep: Seq<bool>, n: int, f: spec_fn(A) -> B)
    requires
        0 <= n <= items.len(),
    ensures
        kept(items, keep, n).map_values(f) == kept(items.map_values(f), keep, n),
    decreases n,
{
    if n > 0 {
        lemma_kept_map(items, keep, n - 1, f);
        if keep[n - 1] {
            assert(kept(items, keep, n - 1).push(items[n - 1]).map_values(f) =~= kept(
                items,
                keep,
                n - 1,
            ).map_values(f).push(f(items[n - 1])));
        }
    } else {
        assert(kept(items, keep, n).map_values(f) =~= kept(items.map_values(f), keep, n));
    }
}

/// Where every draw says keep, everything is kept.
pub proof fn lemma_kept_all<T>(items: Seq<T>, keep: Seq<bool>, n: int)
    requires
        0 <= n <= items.len(),
        n <= keep.len(),
        forall|i: int| 0 <= i < n ==> keep[i],
    ensures
        kept(items, keep, n) == items.subrange(0, n),
    decreases n,
{
    if n > 0 {
        lemma_kept_all(items, keep, n - 1);
    }
    assert(kept(items, keep, n) =~= items.subrange(0, n));
}

/// Where no draw says keep, nothing is kept.
pub proof fn lemma_kept_none<T>(items: Seq<T>, keep: Seq<bool>, n: int)
    requires
        0 <= n <= keep.len(),
        forall|i: int| 0 <= i < n ==> !keep[i],
    ensures
        kept(items, keep, n) == Seq::<T>::empty(),
    decreases n,
{
    if n > 0 {
        lemma_kept_none(items, keep, n - 1);
    }
}

/// One draw of `rand`'s `Rng::gen_ratio` on the thread's generator: true with
/// probability `numerator / denominator`. It is true for certain where the two
/// are equal and false for certain where the numerator is 0; it panics where
/// the ratio is no probability, which the precondition excludes.
#[verifier::external_body]
fn draw(rate: Rate) -> (keep: bool)
    requires
        rate.wf(),
    ensures
        rate.is_certain() ==> keep,
        rate.is_never() ==> !keep,
{
    rand::thread_rng().gen_ratio(rate.numerator, rate.denominator)
}

/// One draw for each of `n` packets.
pub fn draw_mask(n: usize, rate: Rate) -> (keep: Vec<bool>)
    requires
        rate.wf(),
    ensures
        keep@.len() == n,
        rate_allows(rate, keep@),
{
    let mut keep: Vec<bool> = Vec::new();
    let mut i: usize = 0;
    while i < n
        invariant
            i <= n,
            rate.wf(),
            keep@.len() == i,
            rate_allows(rate, keep@),
        decreases n - i,
    {
        let k = draw(rate);
        keep.push(k);
        i += 1;
    }
    keep
}

/// The items whose draw says keep, in their order.
pub fn keep_selected<T>(items: Vec<T>, keep: &Vec<bool>) -> (res: Vec<T>)
    requires
        keep@.len() == items@.len(),
    ensures
        res@ == kept(items@, keep@, items@.len() as int),
{
    let mut res: Vec<T> = Vec::new();
    let mut i: usize = 0;
    let ghost all = items@;
    let n: usize = items.len();
    for item in it: items
        invariant
            i == it.index(),
            it.seq() == all,
            all.len() == n,
            keep@.len() == all.len(),
            res@ == kept(all, keep@, i as int),
    {
        if keep[i] {
            res.push(item);
        }
        i += 1;
    }
    res
}

/// The datagram that carries the packets: none where there is no packet, for
/// then nothing is sent.
pub open spec fn datagram(packets: Seq<PacketView>) -> Option<Seq<u8>> {
    if packets.len() == 0 {
        None
    } else {
        Some(frames(packets))
    }
}

/// The bytes of a datagram, if there is one.
pub open spec fn bytes_of(d: Option<Vec<u8>>) -> Option<Seq<u8>> {
    match d {
        Some(bytes) => Some(bytes@),
        None => None,
    }
}

/// Encodes the packets into one datagram. Without a packet there is no
/// datagram, and nothing is to be sent.
pub fn try_send(packets: Vec<&MyPacket>) -> (d: Option<Vec<u8>>)
    ensures
        bytes_of(d) == datagram(packet_ref_views(packets@)),
{
    if packets.len() == 0 {
        return None;
    }
    let mut bytes: Vec<u8> = Vec::new();
    let mut i: usize = 0;
    while i < packets.len()
        invariant
            i <= packets.len(),
            bytes@ == frames(packet_ref_views(packets@.subrange(0, i as int))),
        decreases packets.len() - i,
    {
        let mut one = packets[i].to_vec();
        proof {
            let before = packets@.subrange(0, i as int);
            let after = packets@.subrange(0, i + 1);
            assert(packet_ref_views(after).drop_last() =~= packet_ref_views(before));
            assert(packet_ref_views(after).last() == packets@[i as int]@);
        }
        bytes.append(&mut one);
        i += 1;
    }
    assert(packets@.subrange(0, i as int) =~= packets@);
    Some(bytes)
}

/// The datagram that carries the packets whose draw says keep. Where none is
/// kept there is no datagram, and nothing is to be sent.
pub fn try_send_kept(packets: Vec<&MyPacket>, keep: &Vec<bool>) -> (d: Option<Vec<u8>>)
    requires
        keep@.len() == packets@.len(),
    ensures
        bytes_of(d) == datagram(kept(packet_ref_views(packets@), keep@, packets@.len() as int)),
{
    proof {
        lemma_kept_map(packets@, keep@, packets@.len() as int, |p: &MyPacket| p@);
    }
    try_send(keep_selected(packets, keep))
}

/// Drops each packet with the probability that `send_rate` leaves, and
/// encodes the rest into one datagram. Where none is kept there is no
/// datagram, and nothing is to be sent.
pub fn try_send_lossy(packets: Vec<&MyPacket>, send_rate: Rate) -> (d: Option<Vec<u8>>)
    requires
        send_rate.wf(),
    ensures
        exists|keep: Seq<bool>|
            keep.len() == packets@.len() && rate_allows(send_rate, keep) && bytes_of(d)
                == datagram(
                #[trigger] kept(packet_ref_views(packets@), keep, packets@.len() as int),
            ),
        send_rate.is_certain() ==> bytes_of(d) == datagram(packet_ref_views(packets@)),
        send_rate.is_never() ==> d is None,
{
    let keep = draw_mask(packets.len(), send_rate);
    proof {
        let views = packet_ref_views(packets@);
        if send_rate.is_certain() {
            lemma_kept_all(views, keep@, views.len() as int);
            assert(views.subrange(0, views.len() as int) =~= views);
        }
        if send_rate.is_never() {
            lemma_kept_none(views, keep@, views.len() as int);
        }
    }
    try_send_kept(packets, &keep)
}

/// The bytes that a receive brought, if any.
pub open spec fn arrived(bytes: Option<&[u8]>) -> Option<Seq<u8>> {
    match bytes {
        Some(b) => Some(b@),
        None => None,
    }
}

/// What a receive amounts to before any loss: a timeout where nothing or an
/// empty datagram arrived, else the packets of the datagram; `None` where the
/// datagram is malformed.
pub open spec fn received(bytes: Option<Seq<u8>>) -> Option<RecvView> {
    match bytes {
        None => Some(RecvView::Timeout),
        Some(b) => if b.len() == 0 {
            Some(RecvView::Timeout)
        } else {
            match decoded(b) {
                None => None,
                Some(packets) => Some(RecvView::Get(packets)),
            }
        },
    }
}

/// Decodes what one bounded receive brought: `None` where it timed out, else
/// the bytes of the datagram.
pub fn try_recv(bytes: Option<&[u8]>) -> (r: Result<RecvRes, &'static str>)
    ensures
        r is Ok <==> received(arrived(bytes)) is Some,
        r is Ok ==> r->Ok_0@ == received(arrived(bytes))->Some_0,
        r is Err ==> r->Err_0@ == wrong_format_message(),
{
    match bytes {
        None => Ok(RecvRes::Timeout),
        Some(b) => {
            if b.len() == 0 {
                return Ok(RecvRes::Timeout);
            }
            match MyPacket::from(b) {
                Ok(packets) => Ok(RecvRes::Get(packets)),
                Err(e) => Err(e),
            }
        },
    }
}

/// What a receive amounts to once the draws are known. A timeout that is the
/// last one tolerated breaks the session. Of a datagram the packets whose
/// draw says keep are delivered; where none is kept, that is a timeout like
/// any other.
pub open spec fn after_loss(
    inner: RecvView,
    keep: Seq<bool>,
    try_times: u32,
    max_timeout: u32,
) -> RecvView {
    match inner {
        RecvView::Timeout => if try_times == max_timeout - 1 {
            RecvView::Break
        } else {
            RecvView::Timeout
        },
        RecvView::Break => RecvView::Break,
        RecvView::Get(packets) => {
            let rest = kept(packets, keep, packets.len() as int);
            if rest.len() == 0 {
                RecvView::Timeout
            } else {
                RecvView::Get(rest)
            }
        },
    }
}

/// The draws fit what arrived: one for each packet of a datagram.
pub open spec fn draws_fit(inner: RecvView, keep: Seq<bool>) -> bool {
    inner matches RecvView::Get(packets) ==> keep.len() == packets.len()
}

/// Applies the draws to what a receive brought. `try_times` is the number of
/// timeouts in a row before this receive.
pub fn apply_loss(inner: RecvRes, keep: &Vec<bool>, try_times: u32, cfg: &Config) -> (r: RecvRes)
    requires
        0 < cfg.max_timeout,
        !(inner is Break),
        draws_fit(inner@, keep@),
    ensures
        r@ == after_loss(inner@, keep@, try_times, cfg.max_timeout),
{
    match inner {
        RecvRes::Timeout => if try_times == cfg.max_timeout - 1 {
            RecvRes::Break
        } else {
            RecvRes::Timeout
        },
        RecvRes::Break => RecvRes::Break,
        RecvRes::Get(packets) => {
            proof {
                lemma_kept_map(packets@, keep@, packets@.len() as int, |p: MyPacket| p@);
            }
            let res = keep_selected(packets, keep);
            if res.len() == 0 {
                RecvRes::Timeout
            } else {
                RecvRes::Get(res)
            }
        },
    }
}

/// Decodes what one bounded receive brought and drops each packet with the
/// probability that the receive rate leaves.
pub fn try_recv_lossy(bytes: Option<&[u8]>, try_times: u32, cfg: &Config) -> (r: Result<
    RecvRes,
    &'static str,
>)
    requires
        cfg.wf(),
    ensures
        r is Ok <==> received(arrived(bytes)) is Some,
        r is Err ==> r->Err_0@ == wrong_format_message(),
        r is Ok ==> exists|keep: Seq<bool>|
            draws_fit(received(arrived(bytes))->Some_0, keep) && rate_allows(cfg.receive_rate, keep)
                && r->Ok_0@ == #[trigger] after_loss(
                received(arrived(bytes))->Some_0,
                keep,
                try_times,
                cfg.max_timeout,
            ),
{
    let inner = match try_recv(bytes) {
        Ok(inner) => inner,
        Err(e) => { return Err(e); },
    };
    let n: usize = match &inner {
        RecvRes::Get(packets) => packets.len(),
        _ => 0,
    };
    let keep = draw_mask(n, cfg.receive_rate);
    Ok(apply_loss(inner, &keep, try_times, cfg))
}

} // verus!
