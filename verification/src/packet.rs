//! Packets and their wire format.
//!
//! A frame on the wire is the packet's code byte, its content bytes and one
//! delimiter byte. A datagram is a run of frames with nothing between them.
//! Content is not escaped, so a packet whose code or content holds the
//! delimiter byte does not survive the wire.

use crate::text::local_now_text;
use vstd::prelude::*;
use vstd::slice::slice_to_vec;
use vstd::string::StrSliceExecFns;
use vstd::utf8::{
    encode_utf8, length_of_first_scalar, pop_first_scalar, valid_first_scalar, valid_utf8,
};

verus! {

/// First step of the handshake: the initiator asks for a transfer.
pub const HS1: u8 = 200;

/// Second step of the handshake: the responder agrees.
pub const HS2: u8 = 201;

/// Third step of the handshake: the initiator confirms.
pub const HS3: u8 = 202;

/// Time query. The answer carries the same code and a textual timestamp.
pub const TIM: u8 = 203;

/// The byte that closes every frame.
pub const DELIMITER: u8 = 0xFF;

/// One logical unit of the protocol: a code byte and its payload.
#[derive(Debug)]
pub struct MyPacket {
    pub code: u8,
    pub content: Vec<u8>,
}

/// What a packet is, mathematically.
pub struct PacketView {
    pub code: u8,
    pub content: Seq<u8>,
}

impl View for MyPacket {
    type V = PacketView;

    open spec fn view(&self) -> PacketView {
        PacketView { code: self.code, content: self.content@ }
    }
}

impl Clone for MyPacket {
    fn clone(&self) -> (p: MyPacket)
        ensures
            p@ == self@,
    {
        MyPacket { code: self.code, content: self.content.clone() }
    }
}

/// The views of a sequence of packets, in order.
pub open spec fn packet_views(packets: Seq<MyPacket>) -> Seq<PacketView> {
    packets.map_values(|p: MyPacket| p@)
}

/// The views of a sequence of borrowed packets, in order.
pub open spec fn packet_ref_views(packets: Seq<&MyPacket>) -> Seq<PacketView> {
    packets.map_values(|p: &MyPacket| p@)
}

/// The bytes of one frame: code, content, delimiter.
pub open spec fn frame(p: PacketView) -> Seq<u8> {
    seq![p.code] + p.content + seq![DELIMITER]
}

/// The bytes of a datagram that holds the given packets in order.
pub open spec fn frames(packets: Seq<PacketView>) -> Seq<u8>
    decreases packets.len(),
{
    if packets.len() == 0 {
        Seq::empty()
    } else {
        frames(packets.drop_last()) + frame(packets.last())
    }
}

/// Where the run that is open at position `n` began: just behind the last
/// delimiter before `n`, or at 0 when there is none.
pub open spec fn run_start(data: Seq<u8>, n: int) -> int
    decreases n,
{
    if n <= 0 {
        0
    } else if data[n - 1] == DELIMITER {
        n
    } else {
        run_start(data, n - 1)
    }
}

/// The packets of the runs that are closed by a delimiter within the first `n`
/// bytes of `data`. Bytes behind the last delimiter belong to no run.
pub open spec fn runs(data: Seq<u8>, n: int) -> Seq<PacketView>
    decreases n,
{
    if n <= 0 {
        Seq::empty()
    } else if data[n - 1] == DELIMITER {
        let s = run_start(data, n - 1);
        runs(data, n - 1).push(PacketView { code: data[s], content: data.subrange(s + 1, n - 1) })
    } else {
        runs(data, n - 1)
    }
}

/// Some run within the first `n` bytes consists of a delimiter alone, so that
/// its code is missing.
pub open spec fn has_bare_delimiter(data: Seq<u8>, n: int) -> bool {
    exists|i: int| 0 <= i < n && #[trigger] data[i] == DELIMITER && (i == 0 || data[i - 1] == DELIMITER)
}

/// A single byte stands behind the last delimiter: a code whose delimiter is
/// missing.
pub open spec fn has_lone_tail(data: Seq<u8>) -> bool {
    data.len() - run_start(data, data.len() as int) == 1
}

/// What a datagram decodes to; `None` where it is rejected: when it is empty,
/// when one of its runs has no code byte, or when a single byte stands behind
/// its last delimiter.
pub open spec fn decoded(data: Seq<u8>) -> Option<Seq<PacketView>> {
    if data.len() == 0 || has_bare_delimiter(data, data.len() as int) || has_lone_tail(data) {
        None
    } else {
        Some(runs(data, data.len() as int))
    }
}

/// The message that rejects an empty datagram.
pub open spec fn empty_data_message() -> Seq<char> {
    "Empty data is not allow to construct a packet"@
}

/// The message that rejects a malformed frame.
pub open spec fn wrong_format_message() -> Seq<char> {
    "Wrong data format"@
}

/// The open run never begins behind the position it is asked at.
pub proof fn lemma_run_start_bound(data: Seq<u8>, n: int)
    requires
        0 <= n,
    ensures
        0 <= run_start(data, n) <= n,
    decreases n,
{
    if n > 0 && data[n - 1] != DELIMITER {
        lemma_run_start_bound(data, n - 1);
    }
}

/// The packet comes back from the wire as it went: neither its code nor its
/// content holds the delimiter byte.
pub open spec fn survives_wire(p: PacketView) -> bool {
    &&& p.code != DELIMITER
    &&& forall|j: int| 0 <= j < p.content.len() ==> p.content[j] != DELIMITER
}

/// What has been read of a datagram does not depend on what follows.
pub proof fn lemma_runs_prefix(a: Seq<u8>, b: Seq<u8>, n: int)
    requires
        0 <= n <= a.len(),
        !has_bare_delimiter(a, n),
    ensures
        run_start(a + b, n) == run_start(a, n),
        runs(a + b, n) == runs(a, n),
    decreases n,
{
    if n > 0 {
        assert(!has_bare_delimiter(a, n - 1)) by {
            if has_bare_delimiter(a, n - 1) {
                let j = choose|j: int|
                    0 <= j < n - 1 && #[trigger] a[j] == DELIMITER && (j == 0 || a[j - 1]
                        == DELIMITER);
                assert(has_bare_delimiter(a, n));
            }
        }
        lemma_runs_prefix(a, b, n - 1);
        lemma_run_start_bound(a, n - 1);
        let s = run_start(a, n - 1);
        assert((a + b)[n - 1] == a[n - 1]);
        if a[n - 1] == DELIMITER {
            assert(s < n - 1) by {
                if n - 1 > 0 {
                    lemma_run_start_bound(a, n - 2);
                }
            }
            assert((a + b)[s] == a[s]);
            assert((a + b).subrange(s + 1, n - 1) =~= a.subrange(s + 1, n - 1));
        }
    }
}

/// Inside a frame that survives the wire no run closes before its delimiter.
proof fn lemma_open_frame(a: Seq<u8>, p: PacketView, n: int)
    requires
        survives_wire(p),
        run_start(a, a.len() as int) == a.len(),
        !has_bare_delimiter(a, a.len() as int),
        a.len() <= n <= a.len() + 1 + p.content.len(),
    ensures
        run_start(a + frame(p), n) == a.len(),
        runs(a + frame(p), n) == runs(a, a.len() as int),
    decreases n,
{
    let d = a + frame(p);
    if n == a.len() {
        lemma_runs_prefix(a, frame(p), n);
    } else {
        lemma_open_frame(a, p, n - 1);
        let k = n - 1 - a.len();
        assert(d[n - 1] == frame(p)[k]);
        if k > 0 {
            assert(frame(p)[k] == p.content[k - 1]);
        }
    }
}

/// A datagram built of frames that survive the wire closes its last run, holds
/// no run without a code, and reads back as the packets it was built of.
pub proof fn lemma_frames_runs(packets: Seq<PacketView>)
    requires
        forall|i: int| 0 <= i < packets.len() ==> survives_wire(#[trigger] packets[i]),
    ensures
        run_start(frames(packets), frames(packets).len() as int) == frames(packets).len(),
        runs(frames(packets), frames(packets).len() as int) == packets,
        !has_bare_delimiter(frames(packets), frames(packets).len() as int),
        packets.len() > 0 ==> frames(packets).len() > 0,
    decreases packets.len(),
{
    if packets.len() > 0 {
        let head = packets.drop_last();
        let p = packets.last();
        let a = frames(head);
        let d = a + frame(p);
        let n = d.len() as int;
        lemma_frames_runs(head);
        lemma_open_frame(a, p, n - 1);
        assert(d[n - 1] == DELIMITER);
        assert(d[a.len() as int] == p.code);
        assert(d.subrange(a.len() as int + 1, n - 1) =~= p.content);
        assert(runs(d, n) =~= packets);
        assert(!has_bare_delimiter(d, n)) by {
            if has_bare_delimiter(d, n) {
                let j = choose|j: int|
                    0 <= j < n && #[trigger] d[j] == DELIMITER && (j == 0 || d[j - 1] == DELIMITER);
                if j < a.len() {
                    assert(a[j] == d[j]);
                    if j > 0 {
                        assert(a[j - 1] == d[j - 1]);
                    }
                    assert(has_bare_delimiter(a, a.len() as int));
                } else if j < n - 1 {
                    let k = j - a.len();
                    assert(d[j] == frame(p)[k]);
                    if k > 0 {
                        assert(frame(p)[k] == p.content[k - 1]);
                    }
                } else {
                    let k = j - 1 - a.len();
                    assert(d[j - 1] == frame(p)[k]);
                    if k > 0 {
                        assert(frame(p)[k] == p.content[k - 1]);
                    }
                }
            }
        }
    }
}

/// Decoding undoes encoding: a datagram built of one or more packets, none of
/// which holds the delimiter byte in its code or content, decodes to exactly
/// those packets.
pub proof fn lemma_decode_frames(packets: Seq<PacketView>)
    requires
        packets.len() > 0,
        forall|i: int| 0 <= i < packets.len() ==> survives_wire(#[trigger] packets[i]),
    ensures
        decoded(frames(packets)) == Some(packets),
{
    lemma_frames_runs(packets);
}

/// An answer to a time query: under the code of the query, text in UTF-8
/// that is not empty. Such a packet survives the wire.
pub open spec fn is_time_answer(p: PacketView) -> bool {
    &&& p.code == TIM
    &&& p.content.len() > 0
    &&& valid_utf8(p.content)
    &&& survives_wire(p)
}

/// Text in UTF-8 never holds the delimiter byte.
pub proof fn lemma_utf8_without_delimiter(bytes: Seq<u8>)
    requires
        valid_utf8(bytes),
    ensures
        forall|j: int| 0 <= j < bytes.len() ==> bytes[j] != DELIMITER,
    decreases bytes.len(),
{
    if bytes.len() != 0 {
        assert(valid_first_scalar(bytes));
        let n = length_of_first_scalar(bytes);
        let rest = pop_first_scalar(bytes);
        assert(1 <= n <= 4 && n <= bytes.len());
        lemma_utf8_without_delimiter(rest);
        assert forall|j: int| 0 <= j < bytes.len() implies bytes[j] != DELIMITER by {
            if j >= n {
                assert(bytes[j] == rest[j - n]);
            }
        }
    }
}

/// Text that is not empty has an encoding in UTF-8 that is not empty.
pub proof fn lemma_utf8_of_text_is_not_empty(text: Seq<char>)
    requires
        text.len() > 0,
    ensures
        encode_utf8(text).len() > 0,
{
}

impl MyPacket {
    /// Decodes a datagram into its packets.
    ///
    /// Each run of bytes up to and including a delimiter is one frame. The
    /// datagram is rejected when it is empty, when a frame lacks its code, or
    /// when a single byte stands behind the last delimiter, which is a code
    /// that lacks its delimiter. Two or more bytes behind the last delimiter
    /// are dropped.
    pub fn from(data: &[u8]) -> (r: Result<Vec<MyPacket>, &'static str>)
        ensures
            r is Ok <==> decoded(data@) is Some,
            r is Ok ==> packet_views(r->Ok_0@) == decoded(data@)->Some_0,
            r is Err ==> r->Err_0@ == (if data@.len() == 0 {
                empty_data_message()
            } else {
                wrong_format_message()
            }),
    {
        if data.len() == 0 {
            return Err("Empty data is not allow to construct a packet");
        }
        let mut res: Vec<MyPacket> = Vec::new();
        let mut start: usize = 0;
        let mut i: usize = 0;
        while i < data.len()
            invariant
                start <= i <= data.len(),
                start == run_start(data@, i as int),
                !has_bare_delimiter(data@, i as int),
                packet_views(res@) == runs(data@, i as int),
            decreases data.len() - i,
        {
            if data[i] == DELIMITER {
                let segment = &data[start..i + 1];
                match Self::from_single(segment) {
                    Err(e) => {
                        assert(start == i);
                        assert(has_bare_delimiter(data@, data@.len() as int)) by {
                            assert(data@[i as int] == DELIMITER);
                            if i > 0 {
                                lemma_run_start_bound(data@, i - 1);
                            }
                        }
                        return Err(e);
                    },
                    Ok(p) => {
                        assert(p@.content == data@.subrange(start + 1, i as int));
                        assert(packet_views(res@.push(p)) == packet_views(res@).push(p@));
                        res.push(p);
                    },
                }
                assert(!has_bare_delimiter(data@, i + 1)) by {
                    if has_bare_delimiter(data@, i + 1) {
                        let j = choose|j: int|
                            0 <= j < i + 1 && #[trigger] data@[j] == DELIMITER && (j == 0 || data@[j
                                - 1] == DELIMITER);
                        if j < i {
                            assert(has_bare_delimiter(data@, i as int));
                        }
                    }
                }
                start = i + 1;
            } else {
                assert(!has_bare_delimiter(data@, i + 1)) by {
                    if has_bare_delimiter(data@, i + 1) {
                        let j = choose|j: int|
                            0 <= j < i + 1 && #[trigger] data@[j] == DELIMITER && (j == 0 || data@[j
                                - 1] == DELIMITER);
                        assert(has_bare_delimiter(data@, i as int));
                    }
                }
            }
            i += 1;
        }
        if data.len() - start == 1 {
            return Err("Wrong data format");
        }
        Ok(res)
    }

    /// Decodes one frame: at least a code and the closing delimiter.
    pub fn from_single(data: &[u8]) -> (r: Result<MyPacket, &'static str>)
        ensures
            r is Ok <==> data@.len() >= 2 && data@[data@.len() - 1] == DELIMITER,
            r is Ok ==> r->Ok_0@ == (PacketView {
                code: data@[0],
                content: data@.subrange(1, data@.len() - 1),
            }),
            r is Err ==> r->Err_0@ == wrong_format_message(),
    {
        if data.len() < 2 || data[data.len() - 1] != DELIMITER {
            return Err("Wrong data format");
        }
        let body = &data[1..data.len() - 1];
        Ok(MyPacket { code: data[0], content: slice_to_vec(body) })
    }

    /// Encodes the packet as one frame.
    pub fn to_vec(&self) -> (res: Vec<u8>)
        ensures
            res@ == frame(self@),
    {
        let mut res: Vec<u8> = Vec::new();
        res.push(self.code);
        res.extend_from_slice(self.content.as_slice());
        res.push(DELIMITER);
        assert(res@ =~= frame(self@));
        res
    }

    /// A packet that carries only a code.
    pub fn with_code(code: u8) -> (p: MyPacket)
        ensures
            p@ == (PacketView { code, content: Seq::empty() }),
    {
        MyPacket { code, content: Vec::new() }
    }

    /// A packet that carries `data` under the code `seq`.
    pub fn with_data(data: Vec<u8>, seq: u8) -> (p: MyPacket)
        ensures
            p@ == (PacketView { code: seq, content: data@ }),
    {
        MyPacket { code: seq, content: data }
    }

    /// The answer to a time query: the local time as text, under the code of
    /// the query. Which text that is depends on the moment of the call; it is
    /// never empty, so that the answer is no query, and it comes back from
    /// the wire as it went.
    pub fn with_now() -> (p: MyPacket)
        ensures
            is_time_answer(p@),
    {
        let now = local_now_text();
        proof {
            vstd::utf8::encode_utf8_valid_utf8(now@);
            lemma_utf8_of_text_is_not_empty(now@);
            lemma_utf8_without_delimiter(encode_utf8(now@));
        }
        Self::with_data(now.as_str().as_bytes_vec(), TIM)
    }
}

} // verus!
