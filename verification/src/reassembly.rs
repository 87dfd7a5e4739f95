//! The resequencing buffer of the receiving side.
//!
//! Data packets are stored under their sequence number as they arrive, in
//! any order, and acknowledged at once. They leave the buffer in the order of
//! their numbers, starting at the number that the session expects next.

use crate::config::Config;
use crate::connect::Connection;
use crate::packet::{packet_views, MyPacket, PacketView};
use crate::queue::advanced;
use std::collections::HashMap;
use vstd::prelude::*;

verus! {

broadcast use vstd::std_specs::hash::group_hash_axioms;

/// The buffer after the first `n` packets were stored, each under its code.
/// A packet replaces what was stored under the same code before.
pub open spec fn stored(map: Map<u8, Vec<u8>>, packets: Seq<MyPacket>, n: int) -> Map<
    u8,
    Vec<u8>,
>
    decreases n,
{
    if n <= 0 {
        map
    } else {
        stored(map, packets, n - 1).insert(packets[n - 1].code, packets[n - 1].content)
    }
}

/// The acknowledgements that the first `n` packets call for: one for each
/// packet that carries a sequence number, in the order received.
pub open spec fn acks_for(packets: Seq<PacketView>, n: int, seq_siz: u8) -> Seq<PacketView>
    decreases n,
{
    if n <= 0 {
        Seq::empty()
    } else if packets[n - 1].code < seq_siz {
        acks_for(packets, n - 1, seq_siz).push(
            PacketView { code: (packets[n - 1].code + seq_siz) as u8, content: Seq::empty() },
        )
    } else {
        acks_for(packets, n - 1, seq_siz)
    }
}

/// What draining the buffer gives.
pub struct Drained {
    /// The chunks for the output, in order.
    pub chunks: Seq<Vec<u8>>,
    /// The sequence number that is expected next.
    pub seq: u8,
    /// What stays in the buffer.
    pub rest: Map<u8, Vec<u8>>,
    /// Whether the end-of-stream marker was reached.
    pub finished: bool,
}

/// Drains the buffer from `seq` on: as long as the expected number is in the
/// buffer, its content leaves the buffer for the output and the next number
/// is expected. An empty content is the end-of-stream marker: it leaves the
/// buffer too, and the draining ends there.
pub open spec fn drained(map: Map<u8, Vec<u8>>, seq: u8, seq_siz: u8) -> Drained
    decreases map.dom().len(),
    when map.dom().finite()
    via drained_decreases
{
    if !map.contains_key(seq) {
        Drained { chunks: Seq::empty(), seq, rest: map, finished: false }
    } else if map[seq]@.len() == 0 {
        Drained { chunks: Seq::empty(), seq, rest: map.remove(seq), finished: true }
    } else {
        let then = drained(map.remove(seq), advanced(seq, 1, seq_siz), seq_siz);
        Drained { chunks: seq![map[seq]] + then.chunks, ..then }
    }
}

#[via_fn]
proof fn drained_decreases(map: Map<u8, Vec<u8>>, seq: u8, seq_siz: u8) {
    if map.contains_key(seq) {
        map.lemma_remove_key_len(seq);
    }
}

/// A packet that runs ahead is buffered and nothing leaves the buffer: where
/// the expected number is not in the buffer and the one packet delivered
/// carries another number, the buffer holds its content under its number,
/// no chunk is handed out, and the expected number stays.
pub proof fn lemma_buffered_ahead(map: Map<u8, Vec<u8>>, p: MyPacket, seq: u8, seq_siz: u8)
    requires
        map.dom().finite(),
        !map.contains_key(seq),
        p.code != seq,
    ensures
        stored(map, seq![p], 1) == map.insert(p.code, p.content),
        drained(stored(map, seq![p], 1), seq, seq_siz) == (Drained {
            chunks: Seq::empty(),
            seq,
            rest: map.insert(p.code, p.content),
            finished: false,
        }),
        p.code < seq_siz ==> acks_for(seq![p@], 1, seq_siz) == seq![
            PacketView { code: (p.code + seq_siz) as u8, content: Seq::empty() },
        ],
{
    assert(stored(map, seq![p], 0) == map);
    assert(stored(map, seq![p], 1) == map.insert(p.code, p.content));
    assert(acks_for(seq![p@], 0, seq_siz) == Seq::<PacketView>::empty());
    if p.code < seq_siz {
        assert(acks_for(seq![p@], 1, seq_siz) =~= seq![
            PacketView { code: (p.code + seq_siz) as u8, content: Seq::empty() },
        ]);
    }
}

/// The number of steps forward on the ring from `seq` to `code`.
pub open spec fn position_of(code: u8, seq: u8, seq_siz: u8) -> int {
    if code >= seq {
        code - seq
    } else {
        code - seq + seq_siz
    }
}

/// Numbers and positions on the ring answer each other.
pub proof fn lemma_ring_positions(seq: u8, seq_siz: u8, p: int, code: u8)
    requires
        seq < seq_siz,
    ensures
        0 <= p < seq_siz ==> advanced(seq, p as nat, seq_siz) < seq_siz && position_of(
            advanced(seq, p as nat, seq_siz),
            seq,
            seq_siz,
        ) == p,
        code < seq_siz ==> 0 <= position_of(code, seq, seq_siz) < seq_siz && advanced(
            seq,
            position_of(code, seq, seq_siz) as nat,
            seq_siz,
        ) == code,
        0 <= p < seq_siz ==> advanced(advanced(seq, p as nat, seq_siz), 1, seq_siz) == advanced(
            seq,
            (p + 1) as nat,
            seq_siz,
        ),
{
    let m = seq_siz as int;
    if 0 <= p < seq_siz {
        let x = seq + p;
        if x < m {
            vstd::arithmetic::div_mod::lemma_fundamental_div_mod_converse(x, m, 0, x);
        } else {
            vstd::arithmetic::div_mod::lemma_fundamental_div_mod_converse(x, m, 1, x - m);
        }
        let y = x + 1;
        if y < m {
            vstd::arithmetic::div_mod::lemma_fundamental_div_mod_converse(y, m, 0, y);
        } else if y < 2 * m {
            vstd::arithmetic::div_mod::lemma_fundamental_div_mod_converse(y, m, 1, y - m);
        } else {
            vstd::arithmetic::div_mod::lemma_fundamental_div_mod_converse(y, m, 2, y - 2 * m);
        }
        let c = advanced(seq, p as nat, seq_siz) as int;
        let z = c + 1;
        if z < m {
            vstd::arithmetic::div_mod::lemma_fundamental_div_mod_converse(z, m, 0, z);
        } else {
            vstd::arithmetic::div_mod::lemma_fundamental_div_mod_converse(z, m, 1, z - m);
        }
    }
    if code < seq_siz {
        let q = position_of(code, seq, seq_siz);
        let x = seq + q;
        if x < m {
            vstd::arithmetic::div_mod::lemma_fundamental_div_mod_converse(x, m, 0, x);
        } else {
            vstd::arithmetic::div_mod::lemma_fundamental_div_mod_converse(x, m, 1, x - m);
        }
    }
}

/// The delivered packets are chunks of one stream that begins at `seq`:
/// `pos` gives the place in the stream of each packet, which carries the
/// number and the chunk of that place, and `at` gives for each place a packet
/// that carries it. The packets may come in any order, and more than once.
/// The stream is shorter than the ring, and none of its chunks is empty.
pub open spec fn is_stream(
    packets: Seq<MyPacket>,
    chunks: Seq<Vec<u8>>,
    pos: Seq<int>,
    at: Seq<int>,
    seq: u8,
    seq_siz: u8,
) -> bool {
    &&& seq < seq_siz
    &&& chunks.len() < seq_siz
    &&& pos.len() == packets.len()
    &&& at.len() == chunks.len()
    &&& forall|j: int|
        0 <= j < packets.len() ==> 0 <= #[trigger] pos[j] < chunks.len() && packets[j].code
            == advanced(seq, pos[j] as nat, seq_siz) && packets[j].content == chunks[pos[j]]
    &&& forall|p: int|
        0 <= p < chunks.len() ==> 0 <= #[trigger] at[p] < packets.len() && pos[at[p]] == p
    &&& forall|p: int| 0 <= p < chunks.len() ==> (#[trigger] chunks[p])@.len() > 0
}

/// What the buffer holds once the first `k` packets of a stream are stored
/// in an empty buffer: under each number that one of them carries, the chunk
/// of that number's place, and nothing else.
proof fn lemma_stored_stream(
    packets: Seq<MyPacket>,
    chunks: Seq<Vec<u8>>,
    pos: Seq<int>,
    at: Seq<int>,
    seq: u8,
    seq_siz: u8,
    k: int,
)
    requires
        is_stream(packets, chunks, pos, at, seq, seq_siz),
        0 <= k <= packets.len(),
    ensures
        stored(Map::empty(), packets, k).dom().finite(),
        forall|c: u8| #[trigger]
            stored(Map::empty(), packets, k).contains_key(c) <==> exists|j: int|
                0 <= j < k && #[trigger] packets[j].code == c,
        forall|c: u8| #[trigger]
            stored(Map::empty(), packets, k).contains_key(c) ==> c < seq_siz && position_of(
                c,
                seq,
                seq_siz,
            ) < chunks.len() && stored(Map::empty(), packets, k)[c] == chunks[position_of(
                c,
                seq,
                seq_siz,
            )],
    decreases k,
{
    if k > 0 {
        lemma_stored_stream(packets, chunks, pos, at, seq, seq_siz, k - 1);
        let before = stored(Map::<u8, Vec<u8>>::empty(), packets, k - 1);
        let after = stored(Map::<u8, Vec<u8>>::empty(), packets, k);
        let p = packets[k - 1];
        assert(after == before.insert(p.code, p.content));
        assert(0 <= pos[k - 1] < chunks.len());
        lemma_ring_positions(seq, seq_siz, pos[k - 1], 0);
        assert forall|c: u8| #[trigger] after.contains_key(c) <==> exists|j: int|
            0 <= j < k && #[trigger] packets[j].code == c by {
            if after.contains_key(c) {
                if c == p.code {
                    assert(packets[k - 1].code == c);
                } else {
                    assert(before.contains_key(c));
                    let j = choose|j: int| 0 <= j < k - 1 && #[trigger] packets[j].code == c;
                    assert(0 <= j < k && packets[j].code == c);
                }
            }
            if exists|j: int| 0 <= j < k && #[trigger] packets[j].code == c {
                let j = choose|j: int| 0 <= j < k && #[trigger] packets[j].code == c;
                if j < k - 1 {
                    assert(before.contains_key(c));
                }
            }
        }
    }
}

/// Draining a buffer that holds the chunks of a stream from place `i` on, and
/// nothing else, hands them out in the order of the stream and leaves the
/// buffer empty.
proof fn lemma_drained_stream(
    map: Map<u8, Vec<u8>>,
    chunks: Seq<Vec<u8>>,
    seq: u8,
    seq_siz: u8,
    i: int,
)
    requires
        seq < seq_siz,
        chunks.len() < seq_siz,
        0 <= i <= chunks.len(),
        map.dom().finite(),
        forall|c: u8| #[trigger]
            map.contains_key(c) <==> c < seq_siz && i <= position_of(c, seq, seq_siz)
                < chunks.len(),
        forall|c: u8| #[trigger]
            map.contains_key(c) ==> map[c] == chunks[position_of(c, seq, seq_siz)],
        forall|p: int| 0 <= p < chunks.len() ==> (#[trigger] chunks[p])@.len() > 0,
    ensures
        drained(map, advanced(seq, i as nat, seq_siz), seq_siz) == (Drained {
            chunks: chunks.subrange(i, chunks.len() as int),
            seq: advanced(seq, chunks.len(), seq_siz),
            rest: Map::empty(),
            finished: false,
        }),
    decreases chunks.len() - i,
{
    let here = advanced(seq, i as nat, seq_siz);
    lemma_ring_positions(seq, seq_siz, i, 0);
    if i == chunks.len() {
        assert(!map.contains_key(here));
        assert(map =~= Map::empty());
        assert(chunks.subrange(i, chunks.len() as int) =~= Seq::empty());
    } else {
        assert(map.contains_key(here));
        assert(map[here] == chunks[i]);
        let rest = map.remove(here);
        assert forall|c: u8| #[trigger]
            rest.contains_key(c) <==> c < seq_siz && i + 1 <= position_of(c, seq, seq_siz)
                < chunks.len() by {
            lemma_ring_positions(seq, seq_siz, i, c);
        }
        lemma_drained_stream(rest, chunks, seq, seq_siz, i + 1);
        assert(seq![chunks[i]] + chunks.subrange(i + 1, chunks.len() as int) =~= chunks.subrange(
            i,
            chunks.len() as int,
        ));
    }
}

/// The chunks of a stream leave the buffer in the order of the stream, in
/// whatever order they were delivered.
///
/// Where the packets delivered to an empty buffer are the chunks of one
/// stream that begins at the expected number, in any order, draining hands
/// out exactly the chunks of the stream in its order, expects the number
/// behind the stream next, and leaves the buffer empty.
pub proof fn lemma_stream_is_reassembled(
    packets: Seq<MyPacket>,
    chunks: Seq<Vec<u8>>,
    pos: Seq<int>,
    at: Seq<int>,
    seq: u8,
    seq_siz: u8,
)
    requires
        is_stream(packets, chunks, pos, at, seq, seq_siz),
    ensures
        drained(stored(Map::empty(), packets, packets.len() as int), seq, seq_siz) == (Drained {
            chunks,
            seq: advanced(seq, chunks.len(), seq_siz),
            rest: Map::empty(),
            finished: false,
        }),
{
    let map = stored(Map::<u8, Vec<u8>>::empty(), packets, packets.len() as int);
    lemma_stored_stream(packets, chunks, pos, at, seq, seq_siz, packets.len() as int);
    assert forall|c: u8| #[trigger]
        map.contains_key(c) <==> c < seq_siz && 0 <= position_of(c, seq, seq_siz)
            < chunks.len() by {
        lemma_ring_positions(seq, seq_siz, 0, c);
        if c < seq_siz && position_of(c, seq, seq_siz) < chunks.len() {
            let p = position_of(c, seq, seq_siz);
            assert(pos[at[p]] == p);
            assert(packets[at[p]].code == c);
        }
    }
    lemma_drained_stream(map, chunks, seq, seq_siz, 0);
    lemma_ring_positions(seq, seq_siz, 0, 0);
    assert(chunks.subrange(0, chunks.len() as int) =~= chunks);
}

/// Stores the packets in the buffer and hands out the acknowledgements to
/// send for them.
pub fn store(map: &mut HashMap<u8, Vec<u8>>, packets: Vec<MyPacket>, cfg: &Config) -> (acks: Vec<
    MyPacket,
>)
    requires
        2 * cfg.seq_siz <= u8::MAX,
    ensures
        final(map)@ == stored(old(map)@, packets@, packets@.len() as int),
        packet_views(acks@) == acks_for(
            packet_views(packets@),
            packets@.len() as int,
            cfg.seq_siz,
        ),
{
    let mut acks: Vec<MyPacket> = Vec::new();
    let ghost before = map@;
    let ghost all = packets@;
    let ghost mut i: int = 0;
    for pkt in it: packets
        invariant
            2 * cfg.seq_siz <= u8::MAX,
            i == it.index(),
            it.seq() == all,
            map@ == stored(before, all, i),
            packet_views(acks@) == acks_for(packet_views(all), i, cfg.seq_siz),
    {
        assert(packet_views(all)[i].code == pkt.code);
        if pkt.code < cfg.seq_siz {
            let ack = MyPacket::with_code(pkt.code + cfg.seq_siz);
            assert(packet_views(acks@.push(ack)) =~= packet_views(acks@).push(ack@));
            acks.push(ack);
        }
        map.insert(pkt.code, pkt.content);
        proof {
            i = i + 1;
        }
    }
    acks
}

/// Drains the buffer from the expected sequence number on. Hands out the
/// chunks for the output, in order, and whether the end-of-stream marker was
/// reached.
pub fn drain(map: &mut HashMap<u8, Vec<u8>>, conn: &mut Connection, cfg: &Config) -> (r: (
    Vec<Vec<u8>>,
    bool,
))
    requires
        0 < cfg.seq_siz,
        old(conn).seq < cfg.seq_siz,
    ensures
        r.0@ == drained(old(map)@, old(conn).seq, cfg.seq_siz).chunks,
        r.1 == drained(old(map)@, old(conn).seq, cfg.seq_siz).finished,
        final(map)@ == drained(old(map)@, old(conn).seq, cfg.seq_siz).rest,
        *final(conn) == (Connection {
            seq: drained(old(map)@, old(conn).seq, cfg.seq_siz).seq,
            ..*old(conn)
        }),
        final(conn).seq < cfg.seq_siz,
{
    let mut chunks: Vec<Vec<u8>> = Vec::new();
    let mut finished = false;
    let ghost goal = drained(map@, conn.seq, cfg.seq_siz);
    loop
        invariant_except_break
            !finished,
            chunks@ + drained(map@, conn.seq, cfg.seq_siz).chunks == goal.chunks,
            drained(map@, conn.seq, cfg.seq_siz).seq == goal.seq,
            drained(map@, conn.seq, cfg.seq_siz).rest == goal.rest,
            drained(map@, conn.seq, cfg.seq_siz).finished == goal.finished,
        invariant
            0 < cfg.seq_siz,
            conn.seq < cfg.seq_siz,
            *conn == (Connection { seq: conn.seq, ..*old(conn) }),
        ensures
            conn.seq < cfg.seq_siz,
            *conn == (Connection { seq: conn.seq, ..*old(conn) }),
            chunks@ == goal.chunks,
            conn.seq == goal.seq,
            map@ == goal.rest,
            finished == goal.finished,
        decreases map@.dom().len(),
    {
        let ghost here = map@;
        let ghost seq = conn.seq;
        match map.remove(&conn.seq) {
            Some(x) => {
                proof {
                    here.lemma_remove_key_len(seq);
                }
                if x.len() == 0 {
                    finished = true;
                    assert(chunks@ + Seq::<Vec<u8>>::empty() =~= chunks@);
                    break ;
                }
                proof {
                    let then = drained(here.remove(seq), advanced(seq, 1, cfg.seq_siz), cfg.seq_siz);
                    assert(chunks@.push(x) + then.chunks =~= chunks@ + (seq![x] + then.chunks));
                    vstd::arithmetic::div_mod::lemma_mod_bound(seq + 1, cfg.seq_siz as int);
                }
                chunks.push(x);
                conn.seq = (conn.seq + 1) % cfg.seq_siz;
            },
            None => {
                assert(map@ =~= here);
                assert(chunks@ + Seq::<Vec<u8>>::empty() =~= chunks@);
                break ;
            },
        }
    }
    (chunks, finished)
}

} // verus!
