//! Per-connection transports: the queues of what arrived on each channel, the
//! send statistics, and the outgoing buffers of the TCP and UDP paths.
use vstd::prelude::*;

use crate::channel::ChannelId;
use crate::collections::{
    channel_queues, channel_queues_insert, channel_queues_new, channel_queues_remove, ChannelQueues,
};
use crate::session::Session;
use crate::wire::{byte_span, le_bytes, le_value, lemma_le_bytes_len, lemma_le_value_of_bytes, push_le};

verus! {

/// What an attempt to write or send on a socket came to.
#[derive(Debug, PartialEq, Eq)]
pub enum IoOutcome {
    /// So many bytes were written.
    Done(usize),
    /// The call was interrupted before it did anything.
    Interrupted,
    /// The call would have blocked.
    WouldBlock,
    /// Another error; `kind` is the text of its kind.
    Failed { kind: String },
}

/// Statistical information about a transport.
#[derive(Clone, Debug)]
pub struct TransportStats {
    /// Number of packets sent since the transport was created.
    pub packets_sent_total: u32,
    /// Number of bytes sent since the transport was created.
    pub bytes_sent_total: usize,
    /// Number of packets sent this tick.
    pub packets_sent_recent: u32,
    /// Number of bytes sent this tick.
    pub bytes_sent_recent: usize,
    /// Number of packets received since the transport was created.
    pub packets_recv_total: u32,
    /// Number of bytes received since the transport was created.
    pub bytes_recv_total: usize,
    /// Number of packets received this tick.
    pub packets_recv_recent: u32,
    /// Number of bytes received this tick.
    pub bytes_recv_recent: usize,
}

impl Default for TransportStats {
    fn default() -> (s: TransportStats)
        ensures
            s.packets_sent_total == 0,
            s.bytes_sent_total == 0,
            s.packets_sent_recent == 0,
            s.bytes_sent_recent == 0,
            s.packets_recv_total == 0,
            s.bytes_recv_total == 0,
            s.packets_recv_recent == 0,
            s.bytes_recv_recent == 0,
    {
        TransportStats {
            packets_sent_total: 0,
            bytes_sent_total: 0,
            packets_sent_recent: 0,
            bytes_sent_recent: 0,
            packets_recv_total: 0,
            bytes_recv_total: 0,
            packets_recv_recent: 0,
            bytes_recv_recent: 0,
        }
    }
}

impl TransportStats {
    /// Counts one packet of `byte_count` bytes sent this tick.
    pub fn add_sent(&mut self, byte_count: usize)
        requires
            old(self).packets_sent_recent < u32::MAX,
            old(self).bytes_sent_recent + byte_count <= usize::MAX,
        ensures
            *final(self) == (TransportStats {
                packets_sent_recent: (old(self).packets_sent_recent + 1) as u32,
                bytes_sent_recent: (old(self).bytes_sent_recent + byte_count) as usize,
                ..*old(self)
            }),
    {
        self.packets_sent_recent = self.packets_sent_recent + 1;
        self.bytes_sent_recent = self.bytes_sent_recent + byte_count;
    }

    /// Counts one packet of `byte_count` bytes received this tick.
    pub fn add_recv(&mut self, byte_count: usize)
        requires
            old(self).packets_recv_recent < u32::MAX,
            old(self).bytes_recv_recent + byte_count <= usize::MAX,
        ensures
            *final(self) == (TransportStats {
                packets_recv_recent: (old(self).packets_recv_recent + 1) as u32,
                bytes_recv_recent: (old(self).bytes_recv_recent + byte_count) as usize,
                ..*old(self)
            }),
    {
        self.packets_recv_recent = self.packets_recv_recent + 1;
        self.bytes_recv_recent = self.bytes_recv_recent + byte_count;
    }

    /// Moves this tick's counts into the totals, which count everything since
    /// the transport was created, and starts the next tick at zero.
    pub fn update_total(&mut self)
        requires
            old(self).packets_sent_total + old(self).packets_sent_recent <= u32::MAX,
            old(self).bytes_sent_total + old(self).bytes_sent_recent <= usize::MAX,
            old(self).packets_recv_total + old(self).packets_recv_recent <= u32::MAX,
            old(self).bytes_recv_total + old(self).bytes_recv_recent <= usize::MAX,
        ensures
            final(self).packets_sent_total == old(self).packets_sent_total + old(self).packets_sent_recent,
            final(self).packets_sent_recent == 0,
            final(self).bytes_sent_total == old(self).bytes_sent_total + old(self).bytes_sent_recent,
            final(self).bytes_sent_recent == 0,
            final(self).packets_recv_total == old(self).packets_recv_total + old(self).packets_recv_recent,
            final(self).packets_recv_recent == 0,
            final(self).bytes_recv_total == old(self).bytes_recv_total + old(self).bytes_recv_recent,
            final(self).bytes_recv_recent == 0,
    {
        self.packets_sent_total = self.packets_sent_total + self.packets_sent_recent;
        self.packets_sent_recent = 0;
        self.bytes_sent_total = self.bytes_sent_total + self.bytes_sent_recent;
        self.bytes_sent_recent = 0;
        self.packets_recv_total = self.packets_recv_total + self.packets_recv_recent;
        self.packets_recv_recent = 0;
        self.bytes_recv_total = self.bytes_recv_total + self.bytes_recv_recent;
        self.bytes_recv_recent = 0;
    }
}

/// What waits to be received on channel `id` of the inbox `m`.
pub open spec fn waiting(m: Map<u64, Seq<Vec<u8>>>, id: u64) -> Seq<Vec<u8>> {
    if m.dom().contains(id) {
        m[id]
    } else {
        Seq::empty()
    }
}

/// The inbox `m` once `data` arrived on channel `id`.
pub open spec fn after_arrival(m: Map<u64, Seq<Vec<u8>>>, id: u64, data: Vec<u8>) -> Map<u64, Seq<Vec<u8>>> {
    m.insert(id, waiting(m, id).push(data))
}

/// The inbox `m` once channel `id` was received from.
pub open spec fn after_receipt(m: Map<u64, Seq<Vec<u8>>>, id: u64) -> Map<u64, Seq<Vec<u8>>> {
    if m.dom().contains(id) {
        m.insert(id, Seq::empty())
    } else {
        m
    }
}

/// A connection's transport over the protocol `P`: what arrived, by channel,
/// and what was sent.
pub struct Transport<P> {
    protocol: P,
    incoming: ChannelQueues,
    stats: TransportStats,
}

impl<P> Transport<P> {
    /// What arrived and waits to be received, by channel.
    pub closed spec fn inbox(&self) -> Map<u64, Seq<Vec<u8>>> {
        channel_queues(self.incoming).map_values(|q: Vec<Vec<u8>>| q@)
    }

    /// The protocol that carries what is sent.
    pub closed spec fn spec_protocol(&self) -> P {
        self.protocol
    }

    /// The send statistics.
    pub closed spec fn spec_stats(&self) -> TransportStats {
        self.stats
    }

    /// A transport over `protocol` with nothing received and nothing counted.
    pub fn new(protocol: P) -> (t: Transport<P>)
        ensures
            t.spec_protocol() == protocol,
            t.inbox() =~= Map::empty(),
            t.spec_stats() == (TransportStats {
                packets_sent_total: 0,
                bytes_sent_total: 0,
                packets_sent_recent: 0,
                bytes_sent_recent: 0,
                packets_recv_total: 0,
                bytes_recv_total: 0,
                packets_recv_recent: 0,
                bytes_recv_recent: 0,
            }),
    {
        let t = Transport { protocol, incoming: channel_queues_new(), stats: TransportStats::default() };
        assert(t.inbox() =~= Map::empty());
        t
    }

    /// Queues `data`, which arrived on channel `id`, behind what already waits there.
    pub fn add_incoming(&mut self, id: ChannelId, data: Vec<u8>)
        ensures
            final(self).inbox() =~= after_arrival(old(self).inbox(), id@, data),
            final(self).spec_protocol() == old(self).spec_protocol(),
            final(self).spec_stats() == old(self).spec_stats(),
    {
        let ghost before = channel_queues(self.incoming);
        match channel_queues_remove(&mut self.incoming, id.to_bits()) {
            Some(mut queue) => {
                queue.push(data);
                channel_queues_insert(&mut self.incoming, id.to_bits(), queue);
            },
            None => {
                let mut queue: Vec<Vec<u8>> = Vec::new();
                queue.push(data);
                channel_queues_insert(&mut self.incoming, id.to_bits(), queue);
            },
        }
        proof {
            assert(channel_queues(self.incoming) =~= before.insert(id@, channel_queues(self.incoming)[id@]));
        }
    }

    /// Hands out, oldest first, everything that waits on channel `on`, and
    /// leaves that channel empty.
    pub fn recv(&mut self, on: ChannelId) -> (received: Vec<Vec<u8>>)
        ensures
            received@ == waiting(old(self).inbox(), on@),
            final(self).inbox() =~= after_receipt(old(self).inbox(), on@),
            final(self).spec_protocol() == old(self).spec_protocol(),
            final(self).spec_stats() == old(self).spec_stats(),
    {
        let ghost before = channel_queues(self.incoming);
        match channel_queues_remove(&mut self.incoming, on.to_bits()) {
            Some(queue) => {
                channel_queues_insert(&mut self.incoming, on.to_bits(), Vec::new());
                proof {
                    assert(channel_queues(self.incoming) =~= before.insert(
                        on@,
                        channel_queues(self.incoming)[on@],
                    ));
                }
                queue
            },
            None => {
                proof {
                    assert(channel_queues(self.incoming) =~= before);
                }
                Vec::new()
            },
        }
    }

    /// The send statistics.
    pub fn stats(&self) -> (s: &TransportStats)
        ensures
            *s == self.spec_stats(),
    {
        &self.stats
    }

    /// The protocol that carries what is sent.
    pub fn protocol(&self) -> (p: &P)
        ensures
            *p == self.spec_protocol(),
    {
        &self.protocol
    }

    /// The protocol that carries what is sent, to change.
    pub fn protocol_mut(&mut self) -> (p: &mut P)
        ensures
            *p == old(self).spec_protocol(),
            final(self).spec_protocol() == *final(p),
            final(self).inbox() == old(self).inbox(),
            final(self).spec_stats() == old(self).spec_stats(),
    {
        &mut self.protocol
    }

    /// Counts a payload of `byte_count` bytes as sent, before the protocol sends it.
    pub fn count_sent(&mut self, byte_count: usize)
        requires
            old(self).spec_stats().packets_sent_recent < u32::MAX,
            old(self).spec_stats().bytes_sent_recent + byte_count <= usize::MAX,
        ensures
            final(self).spec_stats() == (TransportStats {
                packets_sent_recent: (old(self).spec_stats().packets_sent_recent + 1) as u32,
                bytes_sent_recent: (old(self).spec_stats().bytes_sent_recent + byte_count) as usize,
                ..old(self).spec_stats()
            }),
            final(self).inbox() == old(self).inbox(),
            final(self).spec_protocol() == old(self).spec_protocol(),
    {
        self.stats.add_sent(byte_count);
    }
}

/// Two arrivals on a channel are received in the order they arrived.
pub proof fn arrivals_received_in_order(m: Map<u64, Seq<Vec<u8>>>, id: u64, first: Vec<u8>, second: Vec<u8>)
    ensures
        waiting(after_arrival(after_arrival(m, id, first), id, second), id) == waiting(m, id).push(
            first,
        ).push(second),
{
}

/// After a channel is received from, nothing waits on it.
pub proof fn receipt_empties_channel(m: Map<u64, Seq<Vec<u8>>>, id: u64)
    ensures
        waiting(after_receipt(m, id), id) == Seq::<Vec<u8>>::empty(),
{
}

/// What arrives on one channel, and receiving from it, leave every other channel as it was.
pub proof fn channels_are_independent(m: Map<u64, Seq<Vec<u8>>>, id: u64, other: u64, data: Vec<u8>)
    requires
        id != other,
    ensures
        waiting(after_arrival(m, id, data), other) == waiting(m, other),
        waiting(after_receipt(m, id), other) == waiting(m, other),
{
}

/// The inbox `m` once `arrivals` arrived, in order, each on its channel.
pub open spec fn after_arrivals(m: Map<u64, Seq<Vec<u8>>>, arrivals: Seq<(u64, Vec<u8>)>) -> Map<u64, Seq<Vec<u8>>>
    decreases arrivals.len(),
{
    if arrivals.len() == 0 {
        m
    } else {
        after_arrivals(after_arrival(m, arrivals[0].0, arrivals[0].1), arrivals.drop_first())
    }
}

/// The payloads of `arrivals` that came on channel `id`, in order.
pub open spec fn arrivals_on(arrivals: Seq<(u64, Vec<u8>)>, id: u64) -> Seq<Vec<u8>>
    decreases arrivals.len(),
{
    if arrivals.len() == 0 {
        Seq::empty()
    } else {
        (if arrivals[0].0 == id {
            seq![arrivals[0].1]
        } else {
            Seq::empty()
        }) + arrivals_on(arrivals.drop_first(), id)
    }
}

/// Whatever arrives on a channel, with arrivals on other channels in between,
/// waits there behind what waited before, in the order it arrived; after a
/// receipt, exactly what arrived since waits, in order.
pub proof fn arrivals_wait_in_order(m: Map<u64, Seq<Vec<u8>>>, id: u64, arrivals: Seq<(u64, Vec<u8>)>)
    ensures
        waiting(after_arrivals(m, arrivals), id) == waiting(m, id) + arrivals_on(arrivals, id),
        waiting(after_arrivals(after_receipt(m, id), arrivals), id) == arrivals_on(arrivals, id),
    decreases arrivals.len(),
{
    if arrivals.len() == 0 {
        assert(waiting(m, id) + Seq::<Vec<u8>>::empty() =~= waiting(m, id));
        assert(waiting(after_receipt(m, id), id) =~= Seq::<Vec<u8>>::empty());
    } else {
        let (c, d) = arrivals[0];
        let tail = arrivals.drop_first();
        arrivals_wait_in_order(after_arrival(m, c, d), id, tail);
        arrivals_wait_in_order(after_arrival(after_receipt(m, id), c, d), id, tail);
        let rest = arrivals_on(tail, id);
        if c == id {
            assert(waiting(m, id).push(d) + rest =~= waiting(m, id) + (seq![d] + rest));
            assert(waiting(after_receipt(m, id), id) =~= Seq::<Vec<u8>>::empty());
            assert(Seq::<Vec<u8>>::empty().push(d) + rest =~= seq![d] + rest);
        } else {
            assert(Seq::<Vec<u8>>::empty() + rest =~= rest);
            assert(waiting(after_receipt(m, id), id) =~= Seq::<Vec<u8>>::empty());
        }
    }
}

/// The TCP side of a transport: what was sent since the last flush, to be
/// handed to the TCP runtime at once.
pub struct Tcp {
    session: Session,
    packets: Vec<(ChannelId, Vec<u8>)>,
}

impl Tcp {
    /// The packets sent since the last flush, oldest first.
    pub closed spec fn queued(&self) -> Seq<(ChannelId, Vec<u8>)> {
        self.packets@
    }

    pub closed spec fn spec_session(&self) -> Session {
        self.session
    }

    /// The TCP side of `session`'s transport, with nothing queued.
    pub fn new(session: Session) -> (t: Tcp)
        ensures
            t.spec_session() == session,
            t.queued() =~= Seq::<(ChannelId, Vec<u8>)>::empty(),
    {
        Tcp { session, packets: Vec::new() }
    }

    pub fn session(&self) -> (s: Session)
        ensures
            s == self.spec_session(),
    {
        self.session
    }

    /// Queues a copy of `payload` for channel `on`.
    pub fn send(&mut self, on: ChannelId, payload: &[u8])
        ensures
            final(self).spec_session() == old(self).spec_session(),
            final(self).queued().len() == old(self).queued().len() + 1,
            final(self).queued().drop_last() == old(self).queued(),
            final(self).queued().last().0 == on,
            final(self).queued().last().1@ == payload@,
    {
        let data = vstd::slice::slice_to_vec(payload);
        self.packets.push((on, data));
        assert(self.packets@.drop_last() =~= old(self).packets@);
    }

    /// Takes everything queued, if anything is, to be sent to the TCP runtime in
    /// one signal; `None` when nothing was queued.
    pub fn flush(&mut self) -> (taken: Option<Vec<(ChannelId, Vec<u8>)>>)
        ensures
            final(self).spec_session() == old(self).spec_session(),
            final(self).queued() =~= Seq::<(ChannelId, Vec<u8>)>::empty(),
            old(self).queued().len() == 0 ==> taken is None,
            old(self).queued().len() > 0 ==> (taken matches Some(p) && p@ == old(self).queued()),
    {
        if self.packets.len() > 0 {
            let mut taken: Vec<(ChannelId, Vec<u8>)> = Vec::new();
            std::mem::swap(&mut taken, &mut self.packets);
            Some(taken)
        } else {
            None
        }
    }
}

/// One message in a UDP datagram: its channel, its length as a `u16` (the
/// length modulo `2^16`) and its bytes.
pub open spec fn udp_frame(on: u64, payload: Seq<u8>) -> Seq<u8> {
    le_bytes(on as nat, 8) + le_bytes(payload.len() % 0x10000, 2) + payload
}

/// Whether a payload of `payload_len` bytes fills a datagram that already holds
/// `pending_len` bytes, so that the datagram must go out first.
pub open spec fn datagram_full(pending_len: int, payload_len: int) -> bool {
    payload_len + 4 + pending_len >= 1200
}

/// The bytes that begin a fresh datagram of `session`: its number.
pub open spec fn datagram_header(session: u128) -> Seq<u8> {
    le_bytes(session as nat, 16)
}

/// Flushing the datagram `pending` of `session`: the datagram to send, when it
/// holds more than 16 bytes, and the datagram that is filled next.
pub open spec fn flushed(pending: Seq<u8>, session: u128) -> (Option<Seq<u8>>, Seq<u8>) {
    if pending.len() > 16 {
        (Some(pending), datagram_header(session))
    } else {
        (None, pending)
    }
}

/// Sending `payload` on channel `on` while `pending` is being filled: the datagram
/// flushed first when the message would fill it, and the datagram filled next.
pub open spec fn sent(pending: Seq<u8>, session: u128, on: u64, payload: Seq<u8>) -> (Option<Seq<u8>>, Seq<u8>) {
    let (datagram, rest) = if datagram_full(pending.len() as int, payload.len() as int) {
        flushed(pending, session)
    } else {
        (None, pending)
    };
    (datagram, rest + udp_frame(on, payload))
}

/// The bytes of an optional datagram.
pub open spec fn datagram_view(d: Option<Vec<u8>>) -> Option<Seq<u8>> {
    match d {
        Some(v) => Some(v@),
        None => None,
    }
}

/// The UDP side of a transport: the datagram being filled with messages.
pub struct Udp {
    session: Session,
    buffer: Vec<u8>,
}

impl Udp {
    /// The bytes of the datagram being filled.
    pub closed spec fn pending(&self) -> Seq<u8> {
        self.buffer@
    }

    pub closed spec fn spec_session(&self) -> Session {
        self.session
    }

    /// The UDP side of `session`'s transport. The datagram starts out empty;
    /// the session's number heads every datagram after the first flush.
    pub fn new(session: Session) -> (u: Udp)
        ensures
            u.spec_session() == session,
            u.pending() =~= Seq::<u8>::empty(),
    {
        Udp { session, buffer: Vec::new() }
    }

    pub fn session(&self) -> (s: Session)
        ensures
            s == self.spec_session(),
    {
        self.session
    }

    /// Takes the datagram to be sent when it holds more than 16 bytes, and starts
    /// the next one with the session's number; `None`, changing nothing, otherwise.
    pub fn flush(&mut self) -> (datagram: Option<Vec<u8>>)
        ensures
            final(self).spec_session() == old(self).spec_session(),
            datagram_view(datagram) == flushed(old(self).pending(), old(self).spec_session()@).0,
            final(self).pending() == flushed(old(self).pending(), old(self).spec_session()@).1,
    {
        if self.buffer.len() > 16 {
            let mut next: Vec<u8> = Vec::new();
            push_le(&mut next, self.session.to_bits(), 16);
            assert(next@ =~= datagram_header(self.session@));
            std::mem::swap(&mut next, &mut self.buffer);
            Some(next)
        } else {
            None
        }
    }

    /// Adds a message for channel `on` to the datagram. When the message would
    /// fill the datagram, the datagram is flushed first and returned, to be sent
    /// before this message.
    pub fn send(&mut self, on: ChannelId, payload: &[u8]) -> (datagram: Option<Vec<u8>>)
        ensures
            final(self).spec_session() == old(self).spec_session(),
            datagram_view(datagram) == sent(old(self).pending(), old(self).spec_session()@, on@, payload@).0,
            final(self).pending() == sent(old(self).pending(), old(self).spec_session()@, on@, payload@).1,
    {
        let len = payload.len();
        let full = if len >= 1196 {
            true
        } else {
            self.buffer.len() >= 1196 - len
        };
        let datagram = if full {
            self.flush()
        } else {
            None
        };
        let ghost start = self.buffer@;
        push_le(&mut self.buffer, on.to_bits() as u128, 8);
        push_le(&mut self.buffer, (len % 0x10000) as u128, 2);
        self.buffer.extend_from_slice(payload);
        assert(self.buffer@ =~= start + udp_frame(on@, payload@));
        datagram
    }
}

/// Once a datagram opens with the session's number, so does every datagram
/// after it: sending and flushing keep the opening bytes, and what they hand out
/// opens with them too.
pub proof fn datagrams_keep_session_header(pending: Seq<u8>, session: u128, on: u64, payload: Seq<u8>)
    requires
        pending.len() >= 16,
        pending.take(16) == datagram_header(session),
    ensures
        sent(pending, session, on, payload).1.take(16) == datagram_header(session),
        sent(pending, session, on, payload).0 matches Some(d) ==> d.take(16) == datagram_header(session),
        flushed(pending, session).1.take(16) == datagram_header(session),
        flushed(pending, session).0 matches Some(d) ==> d.take(16) == datagram_header(session),
{
    lemma_le_bytes_len(session as nat, 16);
    let h = datagram_header(session);
    assert(h.take(16) =~= h);
    assert((h + udp_frame(on, payload)).take(16) =~= h);
    assert((pending + udp_frame(on, payload)).take(16) =~= pending.take(16));
}

/// A message's frame in a datagram: its first eight bytes read back as the
/// full 64-bit channel, the next two as the length modulo `2^16`, and the
/// payload follows.
pub proof fn udp_frame_layout(on: u64, payload: Seq<u8>)
    ensures
        udp_frame(on, payload).len() == 10 + payload.len(),
        le_value(udp_frame(on, payload).take(8)) == on,
        le_value(udp_frame(on, payload).subrange(8, 10)) == payload.len() % 0x10000,
        udp_frame(on, payload).skip(10) == payload,
{
    let f = udp_frame(on, payload);
    lemma_le_bytes_len(on as nat, 8);
    lemma_le_bytes_len(payload.len() % 0x10000, 2);
    reveal_with_fuel(byte_span, 9);
    lemma_le_value_of_bytes(on as nat, 8);
    lemma_le_value_of_bytes(payload.len() % 0x10000, 2);
    assert(f.take(8) =~= le_bytes(on as nat, 8));
    assert(f.subrange(8, 10) =~= le_bytes(payload.len() % 0x10000, 2));
    assert(f.skip(10) =~= payload);
}

/// Sending a payload while `pending` is being filled: when the payload's
/// length plus four plus the pending length reaches 1200 and the pending
/// datagram holds more than its 16-byte header, the pending datagram is handed
/// out first, and the next one holds the session's number (16 bytes, read back
/// as the session) followed by the message's frame; otherwise nothing is handed
/// out and the frame is appended to the pending datagram.
pub proof fn send_hands_out_a_full_datagram_first(pending: Seq<u8>, session: u128, on: u64, payload: Seq<u8>)
    ensures
        payload.len() + 4 + pending.len() >= 1200 && pending.len() > 16 ==> {
            &&& sent(pending, session, on, payload).0 == Some(pending)
            &&& sent(pending, session, on, payload).1.len() == 16 + udp_frame(on, payload).len()
            &&& le_value(sent(pending, session, on, payload).1.take(16)) == session
            &&& sent(pending, session, on, payload).1.skip(16) == udp_frame(on, payload)
        },
        !(payload.len() + 4 + pending.len() >= 1200 && pending.len() > 16) ==> {
            &&& sent(pending, session, on, payload).0 is None
            &&& sent(pending, session, on, payload).1 == pending + udp_frame(on, payload)
        },
{
    lemma_le_bytes_len(session as nat, 16);
    reveal_with_fuel(byte_span, 17);
    lemma_le_value_of_bytes(session as nat, 16);
    let h = datagram_header(session);
    let f = udp_frame(on, payload);
    assert((h + f).take(16) =~= h);
    assert((h + f).skip(16) =~= f);
}

/// A flushed datagram is handed out once: flushing again right away hands out nothing.
pub proof fn flush_hands_out_once(pending: Seq<u8>, session: u128)
    ensures
        flushed(flushed(pending, session).1, session).0 is None,
{
    lemma_le_bytes_len(session as nat, 16);
}

/// Whether a datagram whose sending came to `outcome` is sent again, after
/// `attempts` retries so far: always when the call was interrupted, and up to
/// three times when it would have blocked. (The three retries bound only the
/// blocked case: an interrupted send is retried for as long as it is
/// interrupted.)
pub fn retry_datagram(outcome: &IoOutcome, attempts: u32) -> (retry: bool)
    ensures
        retry == (outcome is Interrupted || (outcome is WouldBlock && attempts < 3)),
{
    match outcome {
        IoOutcome::Interrupted => true,
        IoOutcome::WouldBlock => attempts < 3,
        _ => false,
    }
}

} // verus!
