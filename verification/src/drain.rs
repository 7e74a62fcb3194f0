//! Packet model of the outbound drain direction.
//!
//! The drain loop repeatedly takes at most one packet's worth of bytes
//! out of the ring buffer and hands it to the transport. A chunk of
//! exactly the maximum packet size must be followed by a zero-length
//! packet: a bulk transfer that is an exact multiple of the maximum size
//! would otherwise leave the host waiting for more data (short-packet
//! termination). `packets_of` is the resulting packet stream for a given
//! buffered byte stream; the lemmas below pin down its shape and show
//! that draining loses nothing and keeps order.

use vstd::prelude::*;
use crate::ring::accepted_parts;
use crate::ring::apply_writes;
use crate::ring::concat_all;
use crate::ring::lemma_writes_round_trip;

verus! {

/// The packet size used on the wire: chunks the drain loop sends are at
/// most this long.
pub const MAX_PACKET_SIZE: u8 = 64;

/// The packets the drain loop sends for a buffered byte stream: one chunk
/// of at most `max` bytes per iteration, each full-size chunk followed by
/// a zero-length packet.
pub open spec fn packets_of(bytes: Seq<u8>, max: nat) -> Seq<Seq<u8>>
    recommends
        max >= 1,
    decreases bytes.len(),
{
    if max == 0 || bytes.len() == 0 {
        Seq::empty()
    } else if bytes.len() >= max {
        seq![bytes.take(max as int), Seq::<u8>::empty()] + packets_of(bytes.skip(max as int), max)
    } else {
        seq![bytes]
    }
}

/// Prepending a chunk to a packet stream prepends its bytes to the
/// concatenation.
proof fn lemma_concat_all_cons(x: Seq<u8>, r: Seq<Seq<u8>>)
    ensures
        concat_all(seq![x] + r) == x + concat_all(r),
{
    let s = seq![x] + r;
    assert(s[0] == x);
    assert(s.skip(1) =~= r);
}

/// A stream of exactly the maximum packet size is sent as two packets:
/// one full-size chunk and one zero-length chunk, nothing else.
pub proof fn lemma_full_packet_has_zero_length_follow_up(bytes: Seq<u8>, max: nat)
    requires
        max >= 1,
        bytes.len() == max,
    ensures
        packets_of(bytes, max) == seq![bytes, Seq::<u8>::empty()],
{
    assert(bytes.take(max as int) =~= bytes);
    assert(bytes.skip(max as int).len() == 0);
    assert(packets_of(bytes.skip(max as int), max) =~= Seq::<Seq<u8>>::empty());
    assert(packets_of(bytes, max) =~= seq![bytes, Seq::<u8>::empty()]);
}

/// A non-empty stream shorter than the maximum packet size is sent as a
/// single chunk, with no zero-length follow-up.
pub proof fn lemma_short_packet_sent_alone(bytes: Seq<u8>, max: nat)
    requires
        max >= 1,
        0 < bytes.len() < max,
    ensures
        packets_of(bytes, max) == seq![bytes],
{
}

/// Draining loses nothing and keeps order: concatenating the sent packets
/// restores the buffered byte stream.
pub proof fn lemma_drain_preserves_order(bytes: Seq<u8>, max: nat)
    requires
        max >= 1,
    ensures
        concat_all(packets_of(bytes, max)) == bytes,
    decreases bytes.len(),
{
    if bytes.len() == 0 {
        assert(concat_all(packets_of(bytes, max)) =~= bytes);
    } else if bytes.len() >= max {
        let head = bytes.take(max as int);
        let tail = bytes.skip(max as int);
        lemma_drain_preserves_order(tail, max);
        let ps = packets_of(bytes, max);
        assert(ps == seq![head, Seq::<u8>::empty()] + packets_of(tail, max));
        assert(seq![head, Seq::<u8>::empty()] + packets_of(tail, max) =~= seq![head] + (seq![
            Seq::<u8>::empty(),
        ] + packets_of(tail, max)));
        lemma_concat_all_cons(head, seq![Seq::<u8>::empty()] + packets_of(tail, max));
        lemma_concat_all_cons(Seq::empty(), packets_of(tail, max));
        assert(concat_all(ps) == head + (Seq::<u8>::empty() + concat_all(packets_of(tail, max))));
        assert(head + (Seq::<u8>::empty() + tail) =~= bytes);
    } else {
        assert(packets_of(bytes, max) == seq![bytes]);
        lemma_concat_all_cons(bytes, Seq::<Seq<u8>>::empty());
        assert(seq![bytes] + Seq::<Seq<u8>>::empty() =~= seq![bytes]);
        assert(concat_all(Seq::<Seq<u8>>::empty()) == Seq::<u8>::empty());
        assert(bytes + Seq::<u8>::empty() =~= bytes);
    }
}

/// Bytes emitted while the host is away are delivered once it connects:
/// flushing whatever a sequence of best-effort writes left in an initially
/// empty buffer sends exactly the accepted bytes, in their original order.
pub proof fn lemma_buffered_then_flushed(cap: nat, ws: Seq<Seq<u8>>, max: nat)
    requires
        max >= 1,
    ensures
        concat_all(packets_of(apply_writes(Seq::<u8>::empty(), cap, ws), max)) == concat_all(
            accepted_parts(Seq::<u8>::empty(), cap, ws),
        ),
{
    lemma_writes_round_trip(Seq::<u8>::empty(), cap, ws);
    lemma_drain_preserves_order(apply_writes(Seq::<u8>::empty(), cap, ws), max);
    assert(Seq::<u8>::empty() + concat_all(accepted_parts(Seq::<u8>::empty(), cap, ws)) =~= concat_all(
        accepted_parts(Seq::<u8>::empty(), cap, ws),
    ));
}

} // verus!
