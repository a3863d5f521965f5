//! The TCP runtime's framing: every message is its channel (eight bytes), its
//! length (eight bytes) and its bytes. The encoder fills a connection's outgoing
//! buffer with frames; the decoder cuts the incoming bytes back into messages.
use vstd::prelude::*;
use vstd::string::StringExecFns;

use crate::channel::{ChannelId, EXIT_CODE_BITS, SESSION_ASSIGNMENT_BITS};
use crate::messages::DisconnectReason;
use crate::session::{session_bytes_roundtrip, Session};
use crate::transport::IoOutcome;
use crate::wire::{byte_span, le_bytes, le_field, le_value, lemma_le_bytes_len, lemma_le_value_of_bytes, push_le, read_le};

verus! {

/// One frame: the channel and the length, eight bytes each, least significant
/// first, then the bytes.
pub open spec fn tcp_frame(channel: u64, data: Seq<u8>) -> Seq<u8> {
    le_bytes(channel as nat, 8) + le_bytes(data.len(), 8) + data
}

/// The frames of `packets`, one after the other.
pub open spec fn tcp_frames(packets: Seq<(u64, Seq<u8>)>) -> Seq<u8>
    decreases packets.len(),
{
    if packets.len() == 0 {
        Seq::empty()
    } else {
        tcp_frame(packets[0].0, packets[0].1) + tcp_frames(packets.drop_first())
    }
}

/// The outgoing side of a TCP connection: the bytes not written yet.
pub struct TcpEncoder {
    buffer: Vec<u8>,
}

/// What a flush does after a write.
#[derive(Debug, PartialEq, Eq)]
pub enum FlushStep {
    /// Write again if bytes remain.
    Continue,
    /// Stop for now; the rest waits for the socket to be writable.
    Stop,
    /// The connection is lost for this reason.
    Fail(DisconnectReason),
}

impl TcpEncoder {
    /// The bytes not written yet.
    pub closed spec fn pending(&self) -> Seq<u8> {
        self.buffer@
    }

    pub fn new() -> (e: TcpEncoder)
        ensures
            e.pending() =~= Seq::<u8>::empty(),
    {
        TcpEncoder { buffer: Vec::new() }
    }

    /// Appends the frame of `data` on `channel`.
    pub fn encode(&mut self, channel: ChannelId, data: &[u8])
        ensures
            final(self).pending() == old(self).pending() + tcp_frame(channel@, data@),
    {
        let ghost before = self.buffer@;
        push_le(&mut self.buffer, channel.to_bits() as u128, 8);
        push_le(&mut self.buffer, data.len() as u128, 8);
        self.buffer.extend_from_slice(data);
        assert(self.buffer@ =~= before + tcp_frame(channel@, data@));
    }

    /// Appends the frames of `packets`, in order.
    pub fn encode_all(&mut self, packets: &Vec<(ChannelId, Vec<u8>)>)
        ensures
            final(self).pending() == old(self).pending() + tcp_frames(packets_view(packets@)),
    {
        let ghost start = self.pending();
        let ghost ps = packets_view(packets@);
        let mut i: usize = 0;
        proof {
            assert(ps.take(0) =~= Seq::<(u64, Seq<u8>)>::empty());
            assert(tcp_frames(ps.take(0)) =~= Seq::<u8>::empty());
            assert(start + Seq::<u8>::empty() =~= start);
        }
        while i < packets.len()
            invariant
                i <= packets@.len(),
                start == old(self).pending(),
                ps == packets_view(packets@),
                self.pending() == start + tcp_frames(ps.take(i as int)),
            decreases packets@.len() - i,
        {
            let channel = packets[i].0;
            let data = packets[i].1.as_slice();
            let ghost before = self.pending();
            self.encode(channel, data);
            proof {
                assert(ps.take(i + 1) =~= ps.take(i as int).push(ps[i as int]));
                frames_append(ps.take(i as int), ps[i as int].0, ps[i as int].1);
                assert(self.pending() =~= start + tcp_frames(ps.take(i + 1)));
            }
            i = i + 1;
        }
        assert(ps.take(packets@.len() as int) =~= ps);
    }

    /// The bytes not written yet, to hand to the socket.
    pub fn unwritten(&self) -> (b: &[u8])
        ensures
            b@ == self.pending(),
    {
        self.buffer.as_slice()
    }

    /// Whether bytes remain to be written.
    pub fn has_remaining(&self) -> (b: bool)
        ensures
            b == (self.pending().len() > 0),
    {
        self.buffer.len() > 0
    }

    /// The number of bytes not written yet.
    pub fn len(&self) -> (n: usize)
        ensures
            n == self.pending().len(),
    {
        self.buffer.len()
    }

    /// Takes in what a write of the pending bytes came to: written bytes leave the
    /// buffer; a write of nothing means the peer closed; an interruption is tried
    /// again; a write that would block ends the flush; any other error ends the
    /// connection.
    pub fn after_write(&mut self, outcome: IoOutcome) -> (step: FlushStep)
        requires
            outcome matches IoOutcome::Done(n) ==> n <= old(self).pending().len(),
        ensures
            match outcome {
                IoOutcome::Done(n) => if n == 0 {
                    step == FlushStep::Fail(DisconnectReason::Quit) && final(self).pending()
                        == old(self).pending()
                } else {
                    step is Continue && final(self).pending() == old(self).pending().skip(n as int)
                },
                IoOutcome::Interrupted => step is Continue && final(self).pending()
                    == old(self).pending(),
                IoOutcome::WouldBlock => step is Stop && final(self).pending() == old(self).pending(),
                IoOutcome::Failed { kind } => step == FlushStep::Fail(
                    DisconnectReason::IoError { kind },
                ) && final(self).pending() == old(self).pending(),
            },
    {
        match outcome {
            IoOutcome::Done(n) => {
                if n == 0 {
                    FlushStep::Fail(DisconnectReason::Quit)
                } else {
                    let rest = self.buffer.split_off(n);
                    self.buffer = rest;
                    FlushStep::Continue
                }
            },
            IoOutcome::Interrupted => FlushStep::Continue,
            IoOutcome::WouldBlock => FlushStep::Stop,
            IoOutcome::Failed { kind } => FlushStep::Fail(DisconnectReason::IoError { kind }),
        }
    }
}

/// The state of a decoder: the bytes received and not yet cut into messages, the
/// header read ahead of a message whose bytes have not all arrived, and the
/// largest message it accepts.
pub struct DecoderState {
    pub buffer: Seq<u8>,
    pub header: Option<(usize, u64)>,
    pub limit: usize,
}

/// What one step of decoding yields.
pub enum Decoded {
    /// No whole message is there yet.
    Pending,
    /// A message on a channel.
    Packet(u64, Seq<u8>),
    /// A header announced a message longer than the limit.
    Oversized,
}

/// Cutting the message of `len` bytes on `channel` from `buf`, once its header is read.
pub open spec fn decode_body(buf: Seq<u8>, len: usize, channel: u64, limit: usize) -> (Decoded, DecoderState) {
    if buf.len() < len {
        (Decoded::Pending, DecoderState { buffer: buf, header: Some((len, channel)), limit })
    } else {
        (
            Decoded::Packet(channel, buf.take(len as int)),
            DecoderState { buffer: buf.skip(len as int), header: None, limit },
        )
    }
}

/// One step of decoding. Without a header read ahead, nothing happens until the
/// sixteen header bytes are all there; then they are consumed, and a length above the
/// limit is refused.
pub open spec fn decode_step(s: DecoderState) -> (Decoded, DecoderState) {
    match s.header {
        Some((len, channel)) => decode_body(s.buffer, len, channel, s.limit),
        None => if s.buffer.len() < 16 {
            (Decoded::Pending, s)
        } else {
            let channel = le_field(s.buffer, 0, 8) as u64;
            let len = le_field(s.buffer, 8, 8) as usize;
            let rest = s.buffer.skip(16);
            if len > s.limit {
                (Decoded::Oversized, DecoderState { buffer: rest, header: None, limit: s.limit })
            } else {
                decode_body(rest, len, channel, s.limit)
            }
        },
    }
}

/// A measure that every step yielding a message decreases.
pub open spec fn decode_measure(s: DecoderState) -> nat {
    2 * s.buffer.len() + if s.header is Some {
        1nat
    } else {
        0nat
    }
}

pub proof fn lemma_packet_step_progress(s: DecoderState)
    requires
        decode_step(s).0 is Packet,
    ensures
        decode_measure(decode_step(s).1) < decode_measure(s),
{
}

/// Decoding step after step until no whole message is left: the messages in
/// order, whether decoding stopped at an oversized message, and the state left.
pub open spec fn decode_all_spec(s: DecoderState) -> (Seq<(u64, Seq<u8>)>, bool, DecoderState)
    decreases decode_measure(s),
{
    let (d, next) = decode_step(s);
    match d {
        Decoded::Pending => (Seq::empty(), false, next),
        Decoded::Oversized => (Seq::empty(), true, next),
        Decoded::Packet(c, bytes) => {
            proof {
                lemma_packet_step_progress(s);
            }
            let (rest, oversized, last) = decode_all_spec(next);
            (seq![(c, bytes)] + rest, oversized, last)
        },
    }
}

/// `s` once `more` bytes arrived behind its buffer.
pub open spec fn received(s: DecoderState, more: Seq<u8>) -> DecoderState {
    DecoderState { buffer: s.buffer + more, ..s }
}

/// Bytes that arrive later do not change a step that yields a message or a
/// refusal, and they reach a state that waits just as they reach the state it
/// leaves behind.
proof fn lemma_step_received(s: DecoderState, more: Seq<u8>)
    ensures
        decode_step(s).0 is Packet ==> decode_step(received(s, more)) == (
            decode_step(s).0,
            received(decode_step(s).1, more),
        ),
        decode_step(s).0 is Oversized ==> decode_step(received(s, more)) == (
            decode_step(s).0,
            received(decode_step(s).1, more),
        ),
        decode_step(s).0 is Pending ==> decode_step(received(s, more)) == decode_step(
            received(decode_step(s).1, more),
        ),
{
    let buf = s.buffer;
    let all = buf + more;
    match s.header {
        Some((len, channel)) => {
            if buf.len() >= len {
                assert(all.take(len as int) =~= buf.take(len as int));
                assert(all.skip(len as int) =~= buf.skip(len as int) + more);
            }
        },
        None => {
            if buf.len() >= 16 {
                assert(all.subrange(0, 8) =~= buf.subrange(0, 8));
                assert(all.subrange(8, 16) =~= buf.subrange(8, 16));
                let rest = buf.skip(16);
                assert(all.skip(16) =~= rest + more);
                let len = le_field(buf, 8, 8) as usize;
                if rest.len() >= len {
                    assert((rest + more).take(len as int) =~= rest.take(len as int));
                    assert((rest + more).skip(len as int) =~= rest.skip(len as int) + more);
                }
            }
        },
    }
}

/// A state that waits keeps waiting until more bytes arrive.
proof fn lemma_pending_is_stable(s: DecoderState)
    requires
        decode_step(s).0 is Pending,
    ensures
        decode_step(decode_step(s).1) == (Decoded::Pending, decode_step(s).1),
{
}

/// Once a decoder is drained without a refusal, draining it again yields nothing
/// and leaves it as it is.
pub proof fn drained_is_stable(s: DecoderState)
    requires
        !decode_all_spec(s).1,
    ensures
        decode_all_spec(decode_all_spec(s).2) == (Seq::<(u64, Seq<u8>)>::empty(), false, decode_all_spec(s).2),
    decreases decode_measure(s),
{
    let (d, next) = decode_step(s);
    match d {
        Decoded::Pending => {
            lemma_pending_is_stable(s);
        },
        Decoded::Oversized => {},
        Decoded::Packet(_, _) => {
            lemma_packet_step_progress(s);
            drained_is_stable(next);
        },
    }
}

/// Draining, taking in more bytes and draining again gives the same messages as
/// taking in the bytes first and draining once: what arrives later only adds
/// the messages it completes, after those already there.
pub proof fn drain_then_receive(s: DecoderState, more: Seq<u8>)
    requires
        !decode_all_spec(s).1,
    ensures
        decode_all_spec(received(s, more)).0 == decode_all_spec(s).0 + decode_all_spec(
            received(decode_all_spec(s).2, more),
        ).0,
        decode_all_spec(received(s, more)).1 == decode_all_spec(received(decode_all_spec(s).2, more)).1,
        decode_all_spec(received(s, more)).2 == decode_all_spec(received(decode_all_spec(s).2, more)).2,
    decreases decode_measure(s),
{
    let (d, next) = decode_step(s);
    lemma_step_received(s, more);
    match d {
        Decoded::Pending => {
            assert(decode_all_spec(s).2 == next);
            assert(decode_all_spec(received(s, more)) == decode_all_spec(received(next, more)));
            assert(Seq::<(u64, Seq<u8>)>::empty() + decode_all_spec(received(next, more)).0
                =~= decode_all_spec(received(next, more)).0);
        },
        Decoded::Oversized => {},
        Decoded::Packet(c, bytes) => {
            lemma_packet_step_progress(s);
            drain_then_receive(next, more);
            let a = decode_all_spec(next).0;
            let b = decode_all_spec(received(decode_all_spec(next).2, more)).0;
            assert(seq![(c, bytes)] + (a + b) =~= (seq![(c, bytes)] + a) + b);
        },
    }
}

/// Bytes that arrive after a refused message do not change what draining
/// yields before the refusal, nor the refusal itself.
pub proof fn refusal_survives_more_bytes(s: DecoderState, more: Seq<u8>)
    requires
        decode_all_spec(s).1,
    ensures
        decode_all_spec(received(s, more)).0 == decode_all_spec(s).0,
        decode_all_spec(received(s, more)).1,
        decode_all_spec(received(s, more)).2 == received(decode_all_spec(s).2, more),
    decreases decode_measure(s),
{
    let (d, next) = decode_step(s);
    lemma_step_received(s, more);
    match d {
        Decoded::Pending => {},
        Decoded::Oversized => {},
        Decoded::Packet(c, bytes) => {
            lemma_packet_step_progress(s);
            refusal_survives_more_bytes(next, more);
        },
    }
}

/// Receiving `chunks` one after another and draining the decoder after each:
/// the messages in order, whether a refusal stopped it, and the state left.
pub open spec fn drain_chunks(s: DecoderState, chunks: Seq<Seq<u8>>) -> (Seq<(u64, Seq<u8>)>, bool, DecoderState)
    decreases chunks.len(),
{
    if chunks.len() == 0 {
        (Seq::empty(), false, s)
    } else {
        let (first, refused, next) = decode_all_spec(received(s, chunks[0]));
        if refused {
            (first, true, next)
        } else {
            let (later, refused_later, last) = drain_chunks(next, chunks.drop_first());
            (first + later, refused_later, last)
        }
    }
}

/// However the bytes are cut into chunks on arrival, draining after each chunk
/// yields the messages and the refusal that draining once after all of them
/// yields, starting from a drained decoder, and without a refusal the same state.
pub proof fn chunked_arrival_decodes_the_same(s: DecoderState, chunks: Seq<Seq<u8>>)
    requires
        decode_all_spec(s) == (Seq::<(u64, Seq<u8>)>::empty(), false, s),
    ensures
        drain_chunks(s, chunks).0 == decode_all_spec(received(s, chunks.flatten())).0,
        drain_chunks(s, chunks).1 == decode_all_spec(received(s, chunks.flatten())).1,
        !drain_chunks(s, chunks).1 ==> drain_chunks(s, chunks).2 == decode_all_spec(
            received(s, chunks.flatten()),
        ).2,
    decreases chunks.len(),
{
    if chunks.len() == 0 {
        assert(received(s, chunks.flatten()) =~= s);
    } else {
        let c0 = chunks[0];
        let tail = chunks.drop_first();
        let s1 = received(s, c0);
        assert(chunks.flatten() == c0 + tail.flatten());
        assert(received(s, chunks.flatten()) == received(s1, tail.flatten())) by {
            assert(s.buffer + (c0 + tail.flatten()) =~= (s.buffer + c0) + tail.flatten());
        }
        if !decode_all_spec(s1).1 {
            let next = decode_all_spec(s1).2;
            drained_is_stable(s1);
            chunked_arrival_decodes_the_same(next, tail);
            drain_then_receive(s1, tail.flatten());
        } else {
            refusal_survives_more_bytes(s1, tail.flatten());
        }
    }
}

/// The messages of `packets` as plain values.
pub open spec fn packets_view(packets: Seq<(ChannelId, Vec<u8>)>) -> Seq<(u64, Seq<u8>)> {
    packets.map_values(|p: (ChannelId, Vec<u8>)| (p.0@, p.1@))
}

/// The incoming side of a TCP connection.
pub struct TcpDecoder {
    buffer: Vec<u8>,
    header: Option<(usize, ChannelId)>,
    limit: usize,
}

/// What a read of the socket comes to for the decoder.
#[derive(Debug, PartialEq, Eq)]
pub enum ReadStep {
    /// Read again.
    Retry,
    /// So many bytes were read; zero when none were there.
    Read(usize),
    /// The connection is lost for this reason.
    Fail(DisconnectReason),
}

/// The explanation given when a message exceeds the limit.
pub open spec fn oversized_explanation() -> Seq<char> {
    "Packet size limit exceeded."@
}

impl View for TcpDecoder {
    type V = DecoderState;

    closed spec fn view(&self) -> DecoderState {
        DecoderState {
            buffer: self.buffer@,
            header: match self.header {
                Some((len, channel)) => Some((len, channel@)),
                None => None,
            },
            limit: self.limit,
        }
    }
}

impl TcpDecoder {
    /// A decoder with nothing received that accepts messages of up to `limit` bytes.
    pub fn new(limit: usize) -> (d: TcpDecoder)
        ensures
            d@ == (DecoderState { buffer: Seq::empty(), header: None, limit }),
    {
        let d = TcpDecoder { buffer: Vec::new(), header: None, limit };
        assert(d@.buffer =~= Seq::<u8>::empty());
        d
    }

    /// Takes in what a read of the socket came to, with the bytes read in `data`:
    /// read bytes join the buffer; a read of nothing means the peer closed; an
    /// interruption is read again; a read that would block reads zero bytes; any
    /// other error ends the connection.
    pub fn after_read(&mut self, outcome: IoOutcome, data: &[u8]) -> (step: ReadStep)
        requires
            outcome matches IoOutcome::Done(n) ==> n == data@.len(),
        ensures
            match outcome {
                IoOutcome::Done(n) => if n == 0 {
                    step == ReadStep::Fail(DisconnectReason::Quit) && final(self)@ == old(self)@
                } else {
                    step == ReadStep::Read(n) && final(self)@ == (DecoderState {
                        buffer: old(self)@.buffer + data@,
                        ..old(self)@
                    })
                },
                IoOutcome::Interrupted => step is Retry && final(self)@ == old(self)@,
                IoOutcome::WouldBlock => step == ReadStep::Read(0) && final(self)@ == old(self)@,
                IoOutcome::Failed { kind } => step == ReadStep::Fail(
                    DisconnectReason::IoError { kind },
                ) && final(self)@ == old(self)@,
            },
    {
        match outcome {
            IoOutcome::Done(n) => {
                if n == 0 {
                    ReadStep::Fail(DisconnectReason::Quit)
                } else {
                    self.buffer.extend_from_slice(data);
                    assert(self.buffer@ =~= old(self)@.buffer + data@);
                    ReadStep::Read(n)
                }
            },
            IoOutcome::Interrupted => ReadStep::Retry,
            IoOutcome::WouldBlock => ReadStep::Read(0),
            IoOutcome::Failed { kind } => ReadStep::Fail(DisconnectReason::IoError { kind }),
        }
    }

    /// Cuts the next message from the received bytes, if it is all there.
    pub fn decode(&mut self) -> (res: Result<Option<(ChannelId, Vec<u8>)>, DisconnectReason>)
        ensures
            final(self)@ == decode_step(old(self)@).1,
            match decode_step(old(self)@).0 {
                Decoded::Pending => res matches Ok(None),
                Decoded::Packet(c, bytes) => res matches Ok(Some((channel, data))) && channel@ == c
                    && data@ == bytes,
                Decoded::Oversized => res matches Err(DisconnectReason::ProtocolViolation {
                    explanation,
                }) && explanation@ == oversized_explanation(),
            },
    {
        let (len, channel) = match self.header {
            Some(hdr) => hdr,
            None => {
                if self.buffer.len() < 16 {
                    return Ok(None);
                }
                proof {
                    reveal_with_fuel(byte_span, 9);
                }
                let channel = ChannelId::from_bits(read_le(self.buffer.as_slice(), 0, 8) as u64);
                let len = read_le(self.buffer.as_slice(), 8, 8) as u64 as usize;
                let rest = self.buffer.split_off(16);
                self.buffer = rest;
                if len > self.limit {
                    let explanation = String::from_str("Packet size limit exceeded.");
                    return Err(DisconnectReason::ProtocolViolation { explanation });
                }
                self.header = Some((len, channel));
                (len, channel)
            },
        };
        if self.buffer.len() < len {
            Ok(None)
        } else {
            self.header = None;
            let mut packet = self.buffer.split_off(len);
            std::mem::swap(&mut packet, &mut self.buffer);
            Ok(Some((channel, packet)))
        }
    }

    /// Cuts every whole message from the received bytes, in order, stopping at
    /// the first oversized one; the reason is given when it stopped there.
    pub fn decode_all(&mut self) -> (res: (Vec<(ChannelId, Vec<u8>)>, Option<DisconnectReason>))
        ensures
            packets_view(res.0@) == decode_all_spec(old(self)@).0,
            res.1 is Some == decode_all_spec(old(self)@).1,
            final(self)@ == decode_all_spec(old(self)@).2,
            res.1 matches Some(r) ==> (r matches DisconnectReason::ProtocolViolation { explanation }
                && explanation@ == oversized_explanation()),
    {
        let mut packets: Vec<(ChannelId, Vec<u8>)> = Vec::new();
        let ghost start = self@;
        loop
            invariant
                start == old(self)@,
                decode_all_spec(start).0 =~= packets_view(packets@) + decode_all_spec(self@).0,
                decode_all_spec(start).1 == decode_all_spec(self@).1,
                decode_all_spec(start).2 == decode_all_spec(self@).2,
            decreases decode_measure(self@),
        {
            let ghost before = self@;
            let ghost before_packets = packets@;
            match self.decode() {
                Ok(None) => {
                    proof {
                        assert(decode_step(before).0 is Pending);
                        assert(decode_all_spec(before).2 == self@);
                        assert(decode_all_spec(before).0 =~= Seq::<(u64, Seq<u8>)>::empty());
                        assert(packets_view(packets@) + Seq::<(u64, Seq<u8>)>::empty() =~= packets_view(packets@));
                    }
                    return (packets, None);
                },
                Ok(Some(p)) => {
                    packets.push(p);
                    proof {
                        lemma_packet_step_progress(before);
                        assert(packets_view(packets@) =~= packets_view(before_packets).push(
                            (p.0@, p.1@),
                        ));
                        let rest = decode_all_spec(self@);
                        assert(packets_view(before_packets) + (seq![(p.0@, p.1@)] + rest.0)
                            =~= packets_view(packets@) + rest.0);
                    }
                },
                Err(r) => {
                    proof {
                        assert(decode_step(before).0 is Oversized);
                        assert(decode_all_spec(before).1);
                        assert(decode_all_spec(before).2 == self@);
                        assert(decode_all_spec(before).0 =~= Seq::<(u64, Seq<u8>)>::empty());
                        assert(packets_view(packets@) + Seq::<(u64, Seq<u8>)>::empty() =~= packets_view(packets@));
                    }
                    return (packets, Some(r));
                },
            }
        }
    }
}

/// A frame that the encoder wrote is cut back by the decoder into the same
/// channel and bytes, when the bytes are within the limit, and what follows the
/// frame stays in the buffer.
pub proof fn frame_decodes(channel: u64, data: Seq<u8>, rest: Seq<u8>, limit: usize)
    requires
        data.len() <= limit,
    ensures
        decode_step(DecoderState { buffer: tcp_frame(channel, data) + rest, header: None, limit })
            == (Decoded::Packet(channel, data), DecoderState { buffer: rest, header: None, limit }),
{
    let buf = tcp_frame(channel, data) + rest;
    lemma_le_bytes_len(channel as nat, 8);
    lemma_le_bytes_len(data.len(), 8);
    reveal_with_fuel(byte_span, 9);
    assert(byte_span(8) == 0x1_0000_0000_0000_0000);
    lemma_le_value_of_bytes(channel as nat, 8);
    lemma_le_value_of_bytes(data.len(), 8);
    assert(buf.subrange(0, 8) =~= le_bytes(channel as nat, 8));
    assert(buf.subrange(8, 16) =~= le_bytes(data.len(), 8));
    assert(buf.skip(16) =~= data + rest);
    assert((data + rest).take(data.len() as int) =~= data);
    assert((data + rest).skip(data.len() as int) =~= rest);
}

/// Frames written one after the other for messages within the limit are all cut
/// back, in order, with nothing left over.
pub proof fn frames_decode(packets: Seq<(u64, Seq<u8>)>, limit: usize)
    requires
        forall|i: int| 0 <= i < packets.len() ==> (#[trigger] packets[i]).1.len() <= limit,
    ensures
        decode_all_spec(DecoderState { buffer: tcp_frames(packets), header: None, limit }) == (
            packets,
            false,
            DecoderState { buffer: Seq::empty(), header: None, limit },
        ),
    decreases packets.len(),
{
    let s = DecoderState { buffer: tcp_frames(packets), header: None, limit };
    if packets.len() == 0 {
        assert(tcp_frames(packets) =~= Seq::<u8>::empty());
        assert(decode_step(s) == (Decoded::Pending, s));
    } else {
        let tail = packets.drop_first();
        assert forall|i: int| 0 <= i < tail.len() implies (#[trigger] tail[i]).1.len() <= limit by {
            assert(tail[i] == packets[i + 1]);
        }
        frames_decode(tail, limit);
        frame_decodes(packets[0].0, packets[0].1, tcp_frames(tail), limit);
        lemma_packet_step_progress(s);
        assert(seq![(packets[0].0, packets[0].1)] + tail =~= packets);
    }
}

/// Frames of messages within the limit, however they are cut into chunks on
/// arrival, are all cut back in order by a decoder that drains after each
/// chunk, with nothing refused and nothing left over.
pub proof fn frames_decode_in_chunks(packets: Seq<(u64, Seq<u8>)>, chunks: Seq<Seq<u8>>, limit: usize)
    requires
        forall|i: int| 0 <= i < packets.len() ==> (#[trigger] packets[i]).1.len() <= limit,
        chunks.flatten() == tcp_frames(packets),
    ensures
        drain_chunks(DecoderState { buffer: Seq::empty(), header: None, limit }, chunks) == (
            packets,
            false,
            DecoderState { buffer: Seq::empty(), header: None, limit },
        ),
{
    let empty = DecoderState { buffer: Seq::empty(), header: None, limit };
    assert(decode_all_spec(empty) == (Seq::<(u64, Seq<u8>)>::empty(), false, empty));
    chunked_arrival_decodes_the_same(empty, chunks);
    assert(received(empty, chunks.flatten()) == DecoderState { buffer: tcp_frames(packets), header: None, limit }) by {
        assert(Seq::<u8>::empty() + tcp_frames(packets) =~= tcp_frames(packets));
    }
    frames_decode(packets, limit);
}

/// Encoding one more message appends its frame to the frames of the ones before.
pub proof fn frames_append(packets: Seq<(u64, Seq<u8>)>, channel: u64, data: Seq<u8>)
    ensures
        tcp_frames(packets.push((channel, data))) == tcp_frames(packets) + tcp_frame(channel, data),
    decreases packets.len(),
{
    if packets.len() == 0 {
        assert(packets.push((channel, data)).drop_first() =~= Seq::<(u64, Seq<u8>)>::empty());
        assert(tcp_frames(Seq::<(u64, Seq<u8>)>::empty()) =~= Seq::<u8>::empty());
        assert(tcp_frames(packets) =~= Seq::<u8>::empty());
        assert(tcp_frame(channel, data) + Seq::<u8>::empty() =~= tcp_frame(channel, data));
    } else {
        assert(packets.push((channel, data)).drop_first() =~= packets.drop_first().push((channel, data)));
        frames_append(packets.drop_first(), channel, data);
        let head = tcp_frame(packets[0].0, packets[0].1);
        assert(head + (tcp_frames(packets.drop_first()) + tcp_frame(channel, data)) =~= (head
            + tcp_frames(packets.drop_first())) + tcp_frame(channel, data));
    }
}

/// The state that the TCP runtime keeps for a connected client, apart from its
/// socket and its clock.
pub struct TcpClient {
    pub encoder: TcpEncoder,
    pub decoder: TcpDecoder,
    pub session: Session,
    pub writable: bool,
}

/// The pause after which a client with bytes to write is flushed anyway, in nanoseconds.
pub const FLUSH_INTERVAL_NANOS: u128 = 250_000_000u128;

/// The count of pending bytes above which a client is flushed at once.
pub const FLUSH_SIZE: usize = 1024usize;

/// The largest message that a client may send.
pub const PACKET_LIMIT: usize = 1_000_000usize;

/// Whether `c` is the state of a client just accepted under `session`: writable,
/// with nothing received, and its session assignment queued as the first frame.
pub open spec fn just_accepted(c: TcpClient, session: Session) -> bool {
    &&& c.session == session
    &&& c.writable
    &&& c.decoder@ == (DecoderState { buffer: Seq::empty(), header: None, limit: PACKET_LIMIT })
    &&& c.encoder.pending() == tcp_frame(SESSION_ASSIGNMENT_BITS, le_bytes(session@ as nat, 16))
}

impl TcpClient {
    /// The state of a client just accepted under `session`: writable, with nothing
    /// received, and its session assignment queued as the first frame.
    pub fn accepted(session: Session) -> (c: TcpClient)
        ensures
            just_accepted(c, session),
    {
        let mut encoder = TcpEncoder::new();
        let bytes = session.to_le_bytes();
        encoder.encode(ChannelId::session_assignment(), bytes.as_slice());
        assert(encoder.pending() =~= tcp_frame(SESSION_ASSIGNMENT_BITS, le_bytes(session@ as nat, 16)));
        TcpClient { encoder, decoder: TcpDecoder::new(PACKET_LIMIT), session, writable: true }
    }

    /// Whether the client is to be flushed, `elapsed_nanos` after its last flush:
    /// it is writable, bytes are pending, and either the pause is over or more
    /// than `FLUSH_SIZE` bytes are pending.
    pub fn should_flush(&self, elapsed_nanos: u128) -> (b: bool)
        ensures
            b == (self.writable && self.encoder.pending().len() > 0 && (elapsed_nanos
                > FLUSH_INTERVAL_NANOS || self.encoder.pending().len() > FLUSH_SIZE)),
    {
        (self.writable && self.encoder.has_remaining()) && (elapsed_nanos > FLUSH_INTERVAL_NANOS
            || self.encoder.len() > FLUSH_SIZE)
    }

    /// Queues the client's last frame: the reason it is disconnected, as
    /// `reason_bytes`, on the exit code channel.
    pub fn queue_exit_code(&mut self, reason_bytes: &[u8])
        ensures
            final(self).encoder.pending() == old(self).encoder.pending() + tcp_frame(
                EXIT_CODE_BITS,
                reason_bytes@,
            ),
            final(self).decoder@ == old(self).decoder@,
            final(self).session == old(self).session,
            final(self).writable == old(self).writable,
    {
        self.encoder.encode(ChannelId::exit_code(), reason_bytes);
    }
}

/// The first frame of a client just accepted is read by the peer as its
/// session assignment, and the session read from it is the client's session.
pub proof fn session_assignment_reaches_peer(session: Session, rest: Seq<u8>)
    ensures
        decode_step(
            DecoderState {
                buffer: tcp_frame(SESSION_ASSIGNMENT_BITS, le_bytes(session@ as nat, 16)) + rest,
                header: None,
                limit: PACKET_LIMIT,
            },
        ) == (
            Decoded::Packet(SESSION_ASSIGNMENT_BITS, le_bytes(session@ as nat, 16)),
            DecoderState { buffer: rest, header: None, limit: PACKET_LIMIT },
        ),
        le_value(le_bytes(session@ as nat, 16)) == session@,
{
    lemma_le_bytes_len(session@ as nat, 16);
    frame_decodes(SESSION_ASSIGNMENT_BITS, le_bytes(session@ as nat, 16), rest, PACKET_LIMIT);
    session_bytes_roundtrip(session);
}

/// The last frame of a disconnected client is read by the peer on the exit code
/// channel, with the reason's bytes, when they are within the limit.
pub proof fn exit_code_reaches_peer(reason_bytes: Seq<u8>, rest: Seq<u8>)
    requires
        reason_bytes.len() <= PACKET_LIMIT,
    ensures
        decode_step(
            DecoderState {
                buffer: tcp_frame(EXIT_CODE_BITS, reason_bytes) + rest,
                header: None,
                limit: PACKET_LIMIT,
            },
        ) == (
            Decoded::Packet(EXIT_CODE_BITS, reason_bytes),
            DecoderState { buffer: rest, header: None, limit: PACKET_LIMIT },
        ),
{
    frame_decodes(EXIT_CODE_BITS, reason_bytes, rest, PACKET_LIMIT);
}

} // verus!
