//! The log sink facade and its drain side.
//!
//! `UsbLogger` owns the ring buffer. Producers call `emit`, which formats
//! nothing itself beyond appending the line terminator and never blocks:
//! whatever does not fit is silently dropped, since diagnostic output must
//! not perturb the program. The drain side takes buffered bytes out in
//! packet-sized chunks; its suspension points (waiting for a host, the
//! transfers themselves) live outside this crate, which only decides what
//! is sent.

use vstd::prelude::*;
use crate::ring::RingBuffer;
use crate::ring::accepted_len;
use crate::ring::buffer_after_read;
use crate::ring::buffer_after_write;
use crate::ring::min_nat;
use crate::ring::read_prefix;
use crate::drain::packets_of;

verus! {

/// The line terminator appended to every record the default style emits.
pub open spec fn line_terminator() -> Seq<u8> {
    seq![13u8, 10u8]
}

/// Buffered bytes after one `emit`: the rendered message, then the line
/// terminator, each appended best-effort.
pub open spec fn emit_result(c: Seq<u8>, cap: nat, msg: Seq<u8>) -> Seq<u8> {
    buffer_after_write(buffer_after_write(c, cap, msg), cap, line_terminator())
}

/// The views of a vector of packets.
pub open spec fn seqs_of(v: Vec<Vec<u8>>) -> Seq<Seq<u8>> {
    v@.map_values(|p: Vec<u8>| p@)
}

/// Emitting a record whose formatted length — message plus terminator —
/// is exactly the maximum packet size produces two chunks on the wire:
/// one full-size chunk and one zero-length chunk.
pub proof fn lemma_emit_exact_packet_sends_two_chunks(cap: nat, msg: Seq<u8>, max: nat)
    requires
        max >= 1,
        msg.len() + 2 == max,
        max <= cap,
    ensures
        packets_of(emit_result(Seq::<u8>::empty(), cap, msg), max) == seq![
            msg + line_terminator(),
            Seq::<u8>::empty(),
        ],
{
    lemma_emit_within_capacity(cap, msg);
    crate::drain::lemma_full_packet_has_zero_length_follow_up(msg + line_terminator(), max);
}

/// Emitting a record whose formatted length is below the maximum packet
/// size produces exactly one chunk, with no zero-length follow-up.
pub proof fn lemma_emit_short_packet_sends_one_chunk(cap: nat, msg: Seq<u8>, max: nat)
    requires
        max >= 1,
        msg.len() + 2 < max,
        msg.len() + 2 <= cap,
    ensures
        packets_of(emit_result(Seq::<u8>::empty(), cap, msg), max) == seq![
            msg + line_terminator(),
        ],
{
    lemma_emit_within_capacity(cap, msg);
    crate::drain::lemma_short_packet_sent_alone(msg + line_terminator(), max);
}

/// An emit that fits entirely buffers the full message and terminator.
proof fn lemma_emit_within_capacity(cap: nat, msg: Seq<u8>)
    requires
        msg.len() + 2 <= cap,
    ensures
        emit_result(Seq::<u8>::empty(), cap, msg) == msg + line_terminator(),
{
    let empty = Seq::<u8>::empty();
    assert(msg.take(msg.len() as int) =~= msg);
    assert(buffer_after_write(empty, cap, msg) =~= msg);
    let term = line_terminator();
    assert(term.take(term.len() as int) =~= term);
    assert(emit_result(empty, cap, msg) =~= msg + term);
}

/// The log sink: one ring buffer and the operations of its two sides.
/// One instance serves the whole process; every producer and the drain
/// loop share it.
pub struct UsbLogger {
    buffer: RingBuffer,
}

impl View for UsbLogger {
    type V = Seq<u8>;

    closed spec fn view(&self) -> Seq<u8> {
        self.buffer@
    }
}

impl UsbLogger {
    /// Internal consistency of the underlying ring buffer.
    pub closed spec fn wf(self) -> bool {
        self.buffer.wf()
    }

    /// Capacity of the underlying ring buffer.
    pub closed spec fn spec_capacity(self) -> nat {
        self.buffer.spec_capacity()
    }

    /// Create a logger whose buffer holds `capacity` bytes.
    pub fn new(capacity: usize) -> (r: UsbLogger)
        requires
            capacity >= 1,
        ensures
            r.wf(),
            r.spec_capacity() == capacity,
            r@ == Seq::<u8>::empty(),
    {
        UsbLogger { buffer: RingBuffer::new(capacity) }
    }

    /// Number of buffered, not yet drained bytes.
    pub fn buffered_len(&self) -> (n: usize)
        requires
            self.wf(),
        ensures
            n as nat == self@.len(),
    {
        self.buffer.len()
    }

    /// Whether records of the given severity are handed to this sink at
    /// all: always, since filtering happens at the global maximum level.
    pub fn enabled(&self) -> (b: bool)
        ensures
            b,
    {
        true
    }

    /// Append one rendered text fragment best-effort, as the
    /// text-formatting adapter does for each piece of a formatted record:
    /// everything that fits is buffered, the rest is dropped.
    pub fn write_fragment(&mut self, text: &[u8]) -> (n: usize)
        requires
            old(self).wf(),
        ensures
            final(self).wf(),
            final(self).spec_capacity() == old(self).spec_capacity(),
            n as nat == accepted_len(text@.len(), old(self).free()),
            final(self)@ == buffer_after_write(old(self)@, old(self).spec_capacity(), text@),
    {
        self.buffer.write_best_effort(text)
    }

    /// Free space left in the buffer.
    pub open spec fn free(self) -> nat {
        (self.spec_capacity() - self@.len()) as nat
    }

    /// Emit one record whose rendered message is `message`: append the
    /// message and then the line terminator, each best-effort. Never
    /// suspends and never fails; on overflow the tail is silently dropped.
    pub fn emit(&mut self, message: &[u8])
        requires
            old(self).wf(),
        ensures
            final(self).wf(),
            final(self).spec_capacity() == old(self).spec_capacity(),
            final(self)@ == emit_result(old(self)@, old(self).spec_capacity(), message@),
            old(self)@.len() + message@.len() + 2 <= old(self).spec_capacity() ==> final(self)@
                == old(self)@ + message@ + line_terminator(),
    {
        let ghost c0 = self@;
        let ghost cap = self.spec_capacity();
        self.write_fragment(message);
        let mut term: Vec<u8> = Vec::new();
        term.push(13);
        term.push(10);
        let ghost c1 = self@;
        self.write_fragment(term.as_slice());
        proof {
            assert(term@ =~= line_terminator());
            if c0.len() + message@.len() + 2 <= cap {
                assert(message@.take(message@.len() as int) =~= message@);
                assert(c1 =~= c0 + message@);
                assert(term@.take(term@.len() as int) =~= term@);
                assert(self@ =~= c0 + message@ + line_terminator());
            }
        }
    }

    /// There is nothing to flush: `emit` already hands every record to
    /// the buffer, and the drain loop empties it on its own schedule.
    pub fn flush(&self) {
    }

    /// One iteration of the drain loop: remove at most `max_packet`
    /// buffered bytes as the next chunk to send. The flag asks for a
    /// zero-length packet after the chunk, exactly when the chunk is
    /// full-size.
    pub fn drain_chunk(&mut self, max_packet: usize) -> (r: (Vec<u8>, bool))
        requires
            old(self).wf(),
            max_packet >= 1,
        ensures
            final(self).wf(),
            final(self).spec_capacity() == old(self).spec_capacity(),
            r.0@ == read_prefix(old(self)@, max_packet as nat),
            final(self)@ == buffer_after_read(old(self)@, max_packet as nat),
            r.1 == (r.0@.len() == max_packet as nat),
    {
        let chunk = self.buffer.try_read(max_packet);
        let full = chunk.len() == max_packet;
        (chunk, full)
    }

    /// Drain until the buffer is empty, as the drain loop does once the
    /// host is connected: the packets sent are exactly `packets_of` the
    /// buffered stream — full-size chunks each followed by a zero-length
    /// packet, then one short chunk.
    pub fn flush_connected(&mut self, max_packet: usize) -> (sent: Vec<Vec<u8>>)
        requires
            old(self).wf(),
            max_packet >= 1,
        ensures
            final(self).wf(),
            final(self).spec_capacity() == old(self).spec_capacity(),
            final(self)@.len() == 0,
            seqs_of(sent) == packets_of(old(self)@, max_packet as nat),
    {
        let ghost orig = self@;
        let ghost cap0 = self.spec_capacity();
        let ghost maxn = max_packet as nat;
        let mut sent: Vec<Vec<u8>> = Vec::new();
        loop
            invariant
                self.wf(),
                max_packet >= 1,
                maxn == max_packet as nat,
                self.spec_capacity() == cap0,
                packets_of(orig, maxn) == seqs_of(sent) + packets_of(self@, maxn),
            ensures
                self.wf(),
                self.spec_capacity() == cap0,
                self@.len() == 0,
                packets_of(orig, maxn) == seqs_of(sent) + packets_of(self@, maxn),
            decreases self@.len(),
        {
            proof {
                assert(Seq::<Seq<u8>>::empty() + packets_of(self@, maxn) =~= packets_of(
                    self@,
                    maxn,
                ));
            }
            if self.buffer.is_empty() {
                break ;
            }
            let ghost before = self@;
            let ghost sent_before = seqs_of(sent);
            let (chunk, full) = self.drain_chunk(max_packet);
            sent.push(chunk);
            if full {
                let zero: Vec<u8> = Vec::new();
                sent.push(zero);
                proof {
                    assert(seqs_of(sent) =~= sent_before + seq![
                        before.take(maxn as int),
                        Seq::<u8>::empty(),
                    ]);
                    assert(packets_of(before, maxn) == seq![
                        before.take(maxn as int),
                        Seq::<u8>::empty(),
                    ] + packets_of(before.skip(maxn as int), maxn));
                    assert(seqs_of(sent) + packets_of(self@, maxn) =~= sent_before
                        + packets_of(before, maxn));
                }
            } else {
                proof {
                    assert(min_nat(maxn, before.len()) == before.len());
                    assert(chunk@ =~= before);
                    assert(seqs_of(sent) =~= sent_before + seq![before]);
                    assert(packets_of(before, maxn) == seq![before]);
                    assert(self@.len() == 0);
                    assert(packets_of(self@, maxn) =~= Seq::<Seq<u8>>::empty());
                    assert(seqs_of(sent) + packets_of(self@, maxn) =~= sent_before
                        + packets_of(before, maxn));
                }
            }
        }
        proof {
            assert(packets_of(self@, maxn) =~= Seq::<Seq<u8>>::empty());
            assert(seqs_of(sent) =~= seqs_of(sent) + Seq::<Seq<u8>>::empty());
        }
        sent
    }

    /// One connected session over both directions: drain the buffer to
    /// the host and drop every inbound packet unread. What is sent is a
    /// function of the buffered bytes alone — the inbound traffic never
    /// reaches it, nor anything else.
    pub fn run_session(&mut self, inbound: &Vec<Vec<u8>>, max_packet: usize) -> (sent: Vec<
        Vec<u8>,
    >)
        requires
            old(self).wf(),
            max_packet >= 1,
        ensures
            final(self).wf(),
            final(self).spec_capacity() == old(self).spec_capacity(),
            final(self)@.len() == 0,
            seqs_of(sent) == packets_of(old(self)@, max_packet as nat),
    {
        let mut i: usize = 0;
        while i < inbound.len()
            invariant
                i <= inbound@.len(),
            decreases inbound@.len() - i,
        {
            let _discarded = &inbound[i];
            i = i + 1;
        }
        self.flush_connected(max_packet)
    }
}

} // verus!
