//! The byte side of the network code: messages travel as their 160-byte layouts
//! back to back, at most `MAX_PACKET` bytes to a packet.
use crate::data::{decode_message, lemma_message_roundtrip, message_bytes, Message, MAX_PACKET, MESSAGE_SIZE};
use crate::codec::push_bytes;
use vstd::prelude::*;

verus! {

/// The layouts of `ms`, back to back.
pub open spec fn messages_bytes(ms: Seq<Message>) -> Seq<u8>
    decreases ms.len(),
{
    if ms.len() == 0 {
        Seq::empty()
    } else {
        messages_bytes(ms.drop_last()) + message_bytes(ms.last())
    }
}

/// The first `k` messages held in `b`, 160 bytes each; `None` when one of them
/// does not hold a message.
pub open spec fn decode_messages_spec(b: Seq<u8>, k: int) -> Option<Seq<Message>>
    decreases k,
{
    if k <= 0 {
        Some(Seq::empty())
    } else {
        match decode_messages_spec(b, k - 1) {
            None => None,
            Some(ms) => match decode_message(b.subrange(160 * (k - 1), 160 * k)) {
                None => None,
                Some(m) => Some(ms.push(m)),
            },
        }
    }
}

pub proof fn lemma_messages_bytes_len(ms: Seq<Message>)
    ensures
        messages_bytes(ms).len() == 160 * ms.len(),
    decreases ms.len(),
{
    if ms.len() > 0 {
        lemma_messages_bytes_len(ms.drop_last());
        lemma_message_roundtrip(ms.last());
    }
}

/// The bytes of `msgs`, back to back, as `write` and `Ledger::append` send them.
pub fn encode_messages(msgs: &[Message]) -> (r: Vec<u8>)
    ensures
        r@ == messages_bytes(msgs@),
{
    let mut out: Vec<u8> = Vec::new();
    let mut i: usize = 0;
    while i < msgs.len()
        invariant
            i <= msgs@.len(),
            out@ == messages_bytes(msgs@.subrange(0, i as int)),
        decreases msgs@.len() - i,
    {
        let b = msgs[i].to_bytes();
        push_bytes(&mut out, b.as_slice());
        proof {
            assert(msgs@.subrange(0, i as int + 1).drop_last() =~= msgs@.subrange(0, i as int));
        }
        i += 1;
    }
    proof {
        assert(msgs@.subrange(0, msgs@.len() as int) =~= msgs@);
    }
    out
}

/// The whole messages at the front of `b` (a trailing partial message is left
/// out); `None` when one of them has an unknown kind or state.
pub fn decode_messages(b: &[u8]) -> (r: Option<Vec<Message>>)
    ensures
        match decode_messages_spec(b@, (b@.len() / 160) as int) {
            Some(ms) => r matches Some(v) && v@ == ms,
            None => r is None,
        },
{
    let blen = b.len();
    let n = blen / MESSAGE_SIZE;
    let mut out: Vec<Message> = Vec::new();
    let mut i: usize = 0;
    while i < n
        invariant
            i <= n,
            n == b@.len() / 160,
            blen == b@.len(),
            decode_messages_spec(b@, i as int) == Some(out@),
        decreases n - i,
    {
        proof {
            assert(160 * i + 160 <= 160 * n) by (nonlinear_arith)
                requires
                    i < n,
            ;
            assert(160 * n <= blen) by (nonlinear_arith)
                requires
                    n == blen / 160,
            ;
        }
        let chunk = slice_at(b, MESSAGE_SIZE * i);
        match Message::from_bytes(chunk) {
            Some(m) => out.push(m),
            None => {
                proof {
                    lemma_decode_stays_failed(b@, i as int + 1, n as int);
                }
                return None;
            },
        }
        i += 1;
    }
    Some(out)
}

/// The 160 bytes of `b` from `off` on.
fn slice_at(b: &[u8], off: usize) -> (r: &[u8])
    requires
        off + 160 <= b@.len(),
    ensures
        r@ == b@.subrange(off as int, off + 160),
{
    let blen = b.len();
    let r = &b[off..off + MESSAGE_SIZE];
    r
}

proof fn lemma_decode_stays_failed(b: Seq<u8>, i: int, k: int)
    requires
        i <= k,
        decode_messages_spec(b, i) is None,
    ensures
        decode_messages_spec(b, k) is None,
    decreases k - i,
{
    if i < k {
        lemma_decode_stays_failed(b, i, k - 1);
    }
}

/// Messages laid out back to back are read back as the same messages.
pub proof fn lemma_messages_roundtrip(ms: Seq<Message>)
    ensures
        decode_messages_spec(messages_bytes(ms), ms.len() as int) == Some(ms),
    decreases ms.len(),
{
    lemma_messages_bytes_len(ms);
    if ms.len() > 0 {
        let p = ms.drop_last();
        lemma_messages_roundtrip(p);
        lemma_messages_bytes_len(p);
        lemma_message_roundtrip(ms.last());
        let b = messages_bytes(ms);
        let k = ms.len() as int;
        assert(b.subrange(160 * (k - 1), 160 * k) =~= message_bytes(ms.last()));
        lemma_decode_prefix(messages_bytes(p), message_bytes(ms.last()), k - 1);
        assert(p.push(ms.last()) =~= ms);
    }
}

/// Reading the first `k` messages looks only at the first `160 * k` bytes.
proof fn lemma_decode_prefix(a: Seq<u8>, tail: Seq<u8>, k: int)
    requires
        0 <= k,
        160 * k <= a.len(),
    ensures
        decode_messages_spec(a + tail, k) == decode_messages_spec(a, k),
    decreases k,
{
    if k > 0 {
        lemma_decode_prefix(a, tail, k - 1);
        assert((a + tail).subrange(160 * (k - 1), 160 * k) =~= a.subrange(160 * (k - 1), 160 * k));
    }
}

/// How many bytes `write` sends next once `num` of `max` messages have gone: as
/// many whole messages as one packet holds, or all that are left.
pub fn send_size(max: usize, num: usize) -> (r: usize)
    requires
        num < max,
    ensures
        r == (if MAX_PACKET / MESSAGE_SIZE < max - num { (MAX_PACKET / MESSAGE_SIZE) as int } else { (max - num) as int })
            * MESSAGE_SIZE,
{
    let left = max - num;
    let per_packet = MAX_PACKET / MESSAGE_SIZE;
    let count = if per_packet < left { per_packet } else { left };
    count * MESSAGE_SIZE
}

/// Whether `read` may receive another packet into slots `num..max`: a whole packet
/// must fit.
pub fn packet_fits(max: usize, num: usize) -> (r: bool)
    requires
        num <= max,
        (max - num) * MESSAGE_SIZE <= usize::MAX,
    ensures
        r == ((max - num) * MESSAGE_SIZE >= MAX_PACKET),
{
    (max - num) * MESSAGE_SIZE >= MAX_PACKET
}

/// How many whole messages `nbytes` received bytes hold.
pub fn messages_received(nbytes: usize) -> (r: usize)
    ensures
        r == nbytes / MESSAGE_SIZE,
{
    nbytes / MESSAGE_SIZE
}

/// What `read_from` does at the top of its loop, with `total` of `max` slots filled
/// after `ix` packets.
#[derive(PartialEq, Eq, Structural, Copy, Clone, Debug)]
pub enum ReadFromStart {
    /// Receive another packet into the slots from `total` on.
    Receive,
    /// Stop, reporting this many packets.
    Finish(usize),
}

/// The top of `read_from`'s loop: receive while slots are left and a whole packet
/// fits in them; otherwise report the packets received so far.
pub fn read_from_start(max: usize, total: usize, ix: usize) -> (a: ReadFromStart)
    requires
        total < max ==> (max - total) * MESSAGE_SIZE <= usize::MAX,
    ensures
        a == (if total < max && (max - total) * MESSAGE_SIZE >= MAX_PACKET {
            ReadFromStart::Receive
        } else {
            ReadFromStart::Finish(ix)
        }),
{
    if total < max && packet_fits(max, total) {
        ReadFromStart::Receive
    } else {
        ReadFromStart::Finish(ix)
    }
}

/// What a receive gave `read_from`.
#[derive(PartialEq, Eq, Structural, Copy, Clone, Debug)]
pub enum Received {
    /// A packet of this many bytes.
    Packet(usize),
    /// The receive failed.
    Failed,
}

/// What `read_from` does after a receive.
#[derive(PartialEq, Eq, Structural, Copy, Clone, Debug)]
pub enum ReadFromNext {
    /// Store the packet's `count` whole messages and record `count` for packet
    /// number `ix - 1`; the loop goes on with `total` slots filled after `ix` packets.
    Store { count: usize, total: usize, ix: usize },
    /// Stop, reporting this many packets.
    Finish(usize),
    /// Fail with the receive's error.
    Fail,
}

/// After a receive: a packet adds its whole messages and counts one more packet; a
/// failed receive ends the read when packets have arrived, and fails it otherwise.
pub fn read_from_next(total: usize, ix: usize, ev: Received) -> (a: ReadFromNext)
    requires
        ev matches Received::Packet(n) ==> total + n / 160 <= usize::MAX && ix < usize::MAX,
    ensures
        a == match ev {
            Received::Packet(n) => ReadFromNext::Store {
                count: (n / 160) as usize,
                total: (total + n / 160) as usize,
                ix: (ix + 1) as usize,
            },
            Received::Failed => if ix > 0 {
                ReadFromNext::Finish(ix)
            } else {
                ReadFromNext::Fail
            },
        },
{
    match ev {
        Received::Packet(n) => {
            let count = messages_received(n);
            ReadFromNext::Store { count, total: total + count, ix: ix + 1 }
        },
        Received::Failed => if ix > 0 {
            ReadFromNext::Finish(ix)
        } else {
            ReadFromNext::Fail
        },
    }
}

/// The sum of the counts.
pub open spec fn sum_counts(s: Seq<usize>) -> int
    decreases s.len(),
{
    if s.len() == 0 {
        0
    } else {
        sum_counts(s.drop_last()) + s.last()
    }
}

proof fn lemma_sum_counts_prefix(s: Seq<usize>, k: int)
    requires
        0 <= k <= s.len(),
    ensures
        sum_counts(s.subrange(0, k)) <= sum_counts(s),
    decreases s.len() - k,
{
    if k < s.len() {
        lemma_sum_counts_prefix(s, k + 1);
        assert(s.subrange(0, k + 1).drop_last() =~= s.subrange(0, k));
    } else {
        assert(s.subrange(0, k) =~= s);
    }
}

/// How many messages a batch holds: the sum of its packets' counts, or `None` when
/// the sum overflows `usize`.
pub fn batch_total(counts: &[usize]) -> (r: Option<usize>)
    ensures
        r == (if sum_counts(counts@) <= usize::MAX {
            Some(sum_counts(counts@) as usize)
        } else {
            None::<usize>
        }),
{
    let mut total: usize = 0;
    let mut i: usize = 0;
    while i < counts.len()
        invariant
            i <= counts@.len(),
            total == sum_counts(counts@.subrange(0, i as int)),
        decreases counts@.len() - i,
    {
        proof {
            assert(counts@.subrange(0, i as int + 1).drop_last() =~= counts@.subrange(0, i as int));
        }
        match total.checked_add(counts[i]) {
            Some(t) => total = t,
            None => {
                proof {
                    lemma_sum_counts_prefix(counts@, i as int + 1);
                }
                return None;
            },
        }
        i += 1;
    }
    proof {
        assert(counts@.subrange(0, counts@.len() as int) =~= counts@);
    }
    Some(total)
}

/// Message `i` of `ms` is laid out at bytes `160 * i` to `160 * i + 160`: the layouts
/// stand in the order of the messages.
pub proof fn lemma_messages_bytes_at(ms: Seq<Message>)
    ensures
        messages_bytes(ms).len() == 160 * ms.len(),
        forall|i: int|
            0 <= i < ms.len() ==> #[trigger] messages_bytes(ms).subrange(160 * i, 160 * i + 160) == message_bytes(
                ms[i],
            ),
    decreases ms.len(),
{
    lemma_messages_bytes_len(ms);
    if ms.len() > 0 {
        let p = ms.drop_last();
        let k = ms.len() - 1;
        lemma_messages_bytes_at(p);
        lemma_message_roundtrip(ms.last());
        let a = messages_bytes(p);
        let b = messages_bytes(ms);
        assert(b == a + message_bytes(ms.last()));
        assert forall|i: int| 0 <= i < ms.len() implies #[trigger] b.subrange(160 * i, 160 * i + 160)
            == message_bytes(ms[i]) by {
            if i < k {
                assert(160 * i + 160 <= 160 * k) by (nonlinear_arith)
                    requires
                        i < k,
                ;
                assert(b.subrange(160 * i, 160 * i + 160) =~= a.subrange(160 * i, 160 * i + 160));
                assert(ms[i] == p[i]);
            } else {
                assert(b.subrange(160 * i, 160 * i + 160) =~= message_bytes(ms.last()));
            }
        }
    }
}

/// Reading `k` messages reads them in the order they stand: message `i` is what bytes
/// `160 * i` to `160 * i + 160` hold, and the read fails exactly when one of those
/// chunks holds no message.
pub proof fn lemma_decode_messages_at(b: Seq<u8>, k: int)
    requires
        0 <= k,
    ensures
        decode_messages_spec(b, k) is None <==> exists|i: int|
            0 <= i < k && (#[trigger] decode_message(b.subrange(160 * i, 160 * i + 160))) is None,
        decode_messages_spec(b, k) matches Some(ms) ==> ms.len() == k && forall|i: int|
            0 <= i < k ==> Some(#[trigger] ms[i]) == decode_message(b.subrange(160 * i, 160 * i + 160)),
    decreases k,
{
    if k > 0 {
        lemma_decode_messages_at(b, k - 1);
        let last = decode_message(b.subrange(160 * (k - 1), 160 * (k - 1) + 160));
        assert(160 * (k - 1) + 160 == 160 * k);
        if let Some(ms) = decode_messages_spec(b, k) {
            let p = decode_messages_spec(b, k - 1).unwrap();
            assert(ms == p.push(last.unwrap()));
            assert forall|i: int| 0 <= i < k implies Some(#[trigger] ms[i]) == decode_message(
                b.subrange(160 * i, 160 * i + 160),
            ) by {
                if i < k - 1 {
                    assert(ms[i] == p[i]);
                }
            }
        }
        if decode_messages_spec(b, k - 1) is Some && last is None {
            assert(decode_message(b.subrange(160 * (k - 1), 160 * (k - 1) + 160)) is None);
        }
    }
}

} // verus!
