//! The bookkeeping of the TCP runtime: the slots that the poll loop numbers its
//! listeners and clients by, the table from sessions to the slots that serve
//! them, and the clients that are disconnected but still have bytes to write.
//! Sockets stay with the caller: a slot holds a listener handle of type `L`, or
//! a client's state with a link of type `S`.
use vstd::prelude::*;

use crate::collections::{session_tokens, session_tokens_get, session_tokens_insert, session_tokens_new, session_tokens_remove, SessionTokens};
use crate::channel::{ChannelId, EXIT_CODE_BITS};
use crate::session::Session;
use crate::tcp::{just_accepted, packets_view, tcp_frame, tcp_frames, TcpClient};

verus! {

/// Whether slot `i` is the first free one of `slots`.
pub open spec fn is_first_free<T>(slots: Seq<Option<T>>, i: int) -> bool {
    &&& 0 <= i < slots.len()
    &&& slots[i] is None
    &&& forall|j: int| 0 <= j < i ==> (#[trigger] slots[j]) is Some
}

/// The token that the next slot takes: the first free slot, or a new slot at
/// the end when none is free.
pub open spec fn first_free<T>(slots: Seq<Option<T>>) -> int {
    if exists|i: int| is_first_free(slots, i) {
        choose|i: int| is_first_free(slots, i)
    } else {
        slots.len() as int
    }
}

/// The first free slot is free, and a new slot is only taken when none is.
pub proof fn lemma_first_free<T>(slots: Seq<Option<T>>)
    ensures
        0 <= first_free(slots) <= slots.len(),
        first_free(slots) < slots.len() ==> slots[first_free(slots)] is None,
{
    if exists|i: int| is_first_free(slots, i) {
        let k = choose|i: int| is_first_free(slots, i);
        assert(is_first_free(slots, k));
    }
}

/// `slots` with `v` placed at `token`, which is either a slot of `slots` or the
/// slot just past its end.
pub open spec fn placed<T>(slots: Seq<Option<T>>, token: int, v: Option<T>) -> Seq<Option<T>> {
    if token < slots.len() {
        slots.update(token, v)
    } else {
        slots.push(v)
    }
}

/// Hands out the token of a free slot: the first free one, or a new slot pushed
/// at the end when none is free.
pub fn alloc_token<T>(slots: &mut Vec<Option<T>>) -> (token: usize)
    requires
        old(slots)@.len() < usize::MAX,
    ensures
        token == first_free(old(slots)@),
        token <= old(slots)@.len(),
        final(slots)@ == (if token < old(slots)@.len() {
            old(slots)@
        } else {
            old(slots)@.push(None)
        }),
{
    let n = slots.len();
    let mut i: usize = 0;
    while i < n
        invariant
            i <= n,
            n == slots@.len(),
            slots@ == old(slots)@,
            forall|j: int| 0 <= j < i ==> (#[trigger] old(slots)@[j]) is Some,
        decreases n - i,
    {
        if slots[i].is_none() {
            proof {
                let s = old(slots)@;
                assert(is_first_free(s, i as int));
                let k = choose|k: int| is_first_free(s, k);
                assert(k == i) by {
                    if k < i {
                        assert(s[k] is Some);
                    } else if i < k {
                        assert(s[i as int] is Some);
                    }
                }
            }
            return i;
        }
        i = i + 1;
    }
    proof {
        let s = old(slots)@;
        assert(!exists|k: int| is_first_free(s, k)) by {
            if exists|k: int| is_first_free(s, k) {
                let k = choose|k: int| is_first_free(s, k);
                assert(s[k] is Some);
            }
        }
    }
    slots.push(None);
    n
}

/// What the runtime reports of a session to the main thread, or does to it
/// without a report: it connected, packets were received from it, it was
/// disconnected (reported), or it was dropped on the main thread's request (not
/// reported).
pub enum Report {
    Connected(u128),
    Received(u128),
    Disconnected(u128),
    Dropped(u128),
}

/// The session that `report` is about.
pub open spec fn report_session(report: Report) -> u128 {
    match report {
        Report::Connected(s) => s,
        Report::Received(s) => s,
        Report::Disconnected(s) => s,
        Report::Dropped(s) => s,
    }
}

/// The latest of `log` about session `s`, if any.
pub open spec fn last_report(log: Seq<Report>, s: u128) -> Option<Report>
    decreases log.len(),
{
    if log.len() == 0 {
        None
    } else if report_session(log.last()) == s {
        Some(log.last())
    } else {
        last_report(log.drop_last(), s)
    }
}

/// Whether a session whose latest report is `last` is live: it connected, and
/// since then it was neither disconnected nor dropped.
pub open spec fn live(last: Option<Report>) -> bool {
    last matches Some(Report::Connected(_)) || last matches Some(Report::Received(_))
}

/// Whether every report of received packets or of a disconnection in `log`
/// is about a live session.
pub open spec fn reports_ordered(log: Seq<Report>) -> bool {
    forall|k: int|
        #![trigger log[k]]
        0 <= k < log.len() ==> ((log[k] is Received || log[k] is Disconnected) ==> live(
            last_report(log.take(k), report_session(log[k])),
        ))
}

proof fn lemma_last_report_push(log: Seq<Report>, report: Report, s: u128)
    ensures
        last_report(log.push(report), s) == (if report_session(report) == s {
            Some(report)
        } else {
            last_report(log, s)
        }),
{
    assert(log.push(report).drop_last() =~= log);
}

proof fn lemma_ordered_push(log: Seq<Report>, report: Report)
    requires
        reports_ordered(log),
        (report is Received || report is Disconnected) ==> live(last_report(log, report_session(report))),
    ensures
        reports_ordered(log.push(report)),
{
    let all = log.push(report);
    assert forall|k: int| 0 <= k < all.len() && (#[trigger] all[k] is Received || all[k] is Disconnected) implies live(
        last_report(all.take(k), report_session(all[k])),
    ) by {
        if k < log.len() {
            assert(all.take(k) =~= log.take(k));
            assert(all[k] == log[k]);
        } else {
            assert(all.take(k) =~= log);
        }
    }
}

/// The latest report about `s` among the first `n` of `log` is the one at the
/// last index below `n` that is about `s`.
proof fn lemma_last_report_index(log: Seq<Report>, n: int, s: u128)
    requires
        0 <= n <= log.len(),
    ensures
        last_report(log.take(n), s) matches Some(r) ==> exists|j: int|
            0 <= j < n && log[j] == r && report_session(r) == s && forall|m: int|
                j < m < n ==> report_session(#[trigger] log[m]) != s,
        last_report(log.take(n), s) is None ==> forall|m: int| 0 <= m < n ==> report_session(#[trigger] log[m]) != s,
    decreases n,
{
    if n > 0 {
        let t = log.take(n);
        assert(t.drop_last() =~= log.take(n - 1));
        assert(t.last() == log[n - 1]);
        lemma_last_report_index(log, n - 1, s);
        if report_session(log[n - 1]) != s {
            if let Some(r) = last_report(log.take(n - 1), s) {
                let j = choose|j: int|
                    0 <= j < n - 1 && log[j] == r && report_session(r) == s && forall|m: int|
                        j < m < n - 1 ==> report_session(#[trigger] log[m]) != s;
                assert forall|m: int| j < m < n implies report_session(#[trigger] log[m]) != s by {
                    if m < n - 1 {
                    }
                }
            }
        }
    }
}

/// A session reported disconnected, or dropped on request, is reported of
/// again (received packets or disconnected) only after it connected anew: so
/// each connection is reported disconnected at most once, nothing is reported
/// of it after that, and nothing after a requested disconnection.
pub proof fn reported_once_per_connection(log: Seq<Report>, first: int, later: int, s: u128)
    requires
        reports_ordered(log),
        0 <= first < later < log.len(),
        log[first] == Report::Disconnected(s) || log[first] == Report::Dropped(s),
        log[later] == Report::Received(s) || log[later] == Report::Disconnected(s),
    ensures
        exists|j: int| first < j < later && log[j] == Report::Connected(s),
    decreases later - first,
{
    assert(live(last_report(log.take(later), report_session(log[later]))));
    lemma_last_report_index(log, later, s);
    let r = last_report(log.take(later), s)->Some_0;
    let j = choose|j: int|
        0 <= j < later && log[j] == r && report_session(r) == s && forall|m: int|
            j < m < later ==> report_session(#[trigger] log[m]) != s;
    if j < first {
        assert(report_session(log[first]) != s);
    }
    if j == first {
        assert(!live(Some(log[first])));
    }
    match r {
        Report::Connected(_) => {
            assert(log[j] == Report::Connected(s));
        },
        Report::Received(_) => {
            assert(log[j] == Report::Received(s));
            reported_once_per_connection(log, first, j, s);
        },
        _ => {},
    }
}

/// Every report of received packets or of a disconnection about a session
/// comes after a report that the session connected.
pub proof fn connected_reported_first(log: Seq<Report>, later: int, s: u128)
    requires
        reports_ordered(log),
        0 <= later < log.len(),
        log[later] == Report::Received(s) || log[later] == Report::Disconnected(s),
    ensures
        exists|j: int| 0 <= j < later && log[j] == Report::Connected(s),
    decreases later,
{
    assert(live(last_report(log.take(later), report_session(log[later]))));
    lemma_last_report_index(log, later, s);
    let r = last_report(log.take(later), s)->Some_0;
    let j = choose|j: int|
        0 <= j < later && log[j] == r && report_session(r) == s && forall|m: int|
            j < m < later ==> report_session(#[trigger] log[m]) != s;
    match r {
        Report::Connected(_) => {
            assert(log[j] == Report::Connected(s));
        },
        Report::Received(_) => {
            assert(log[j] == Report::Received(s));
            connected_reported_first(log, j, s);
        },
        _ => {},
    }
}

/// A connected client: its protocol state and the caller's link to its socket.
pub struct Connection<S> {
    pub client: TcpClient,
    pub link: S,
}

/// What a slot of the runtime holds.
pub enum Slot<L, S> {
    Listener(L),
    Client(Connection<S>),
}

/// Whether slot `i` of `slots` holds a client of session `s`.
pub open spec fn serves<L, S>(slots: Seq<Option<Slot<L, S>>>, i: int, s: u128) -> bool {
    &&& 0 <= i < slots.len()
    &&& slots[i] matches Some(Slot::Client(c)) && c.client.session@ == s
}

/// Whether `after` is `before` with `reason` queued as its last frame, on the
/// exit code channel, and nothing else changed.
pub open spec fn exiting<S>(before: Connection<S>, after: Connection<S>, reason: Seq<u8>) -> bool {
    &&& after.link == before.link
    &&& after.client.session == before.client.session
    &&& after.client.writable == before.client.writable
    &&& after.client.decoder@ == before.client.decoder@
    &&& after.client.encoder.pending() == before.client.encoder.pending() + tcp_frame(
        EXIT_CODE_BITS,
        reason,
    )
}

/// Whether `after` is `before` with the frames of `packets` queued, in order,
/// and nothing else changed.
pub open spec fn sent<S>(before: Connection<S>, after: Connection<S>, packets: Seq<(u64, Seq<u8>)>) -> bool {
    &&& after.link == before.link
    &&& after.client.session == before.client.session
    &&& after.client.writable == before.client.writable
    &&& after.client.decoder@ == before.client.decoder@
    &&& after.client.encoder.pending() == before.client.encoder.pending() + tcp_frames(packets)
}

/// The runtime's tables.
pub struct Runtime<L, S> {
    slots: Vec<Option<Slot<L, S>>>,
    by_session: SessionTokens,
    disconnecting: Vec<Connection<S>>,
    reports: Ghost<Seq<Report>>,
}

impl<L, S> Runtime<L, S> {
    /// The slots, by token.
    pub closed spec fn slots(&self) -> Seq<Option<Slot<L, S>>> {
        self.slots@
    }

    /// The token of the slot that serves each session.
    pub closed spec fn tokens(&self) -> Map<u128, usize> {
        session_tokens(self.by_session)
    }

    /// The disconnected clients that still have bytes to write, in order.
    pub closed spec fn closing(&self) -> Seq<Connection<S>> {
        self.disconnecting@
    }

    /// What the runtime reported of the sessions, and which it dropped, in order.
    pub closed spec fn log(&self) -> Seq<Report> {
        self.reports@
    }

    /// The runtime's reports come in connection order: the table is sound, every
    /// client's slot is the one the table gives for its session, every session in
    /// the table is live, and every report of received packets or of a
    /// disconnection is about a live session (see `reported_once_per_connection`).
    pub open spec fn in_order(&self) -> bool {
        &&& self.wf()
        &&& forall|i: int, s: u128|
            #[trigger] serves(self.slots(), i, s) ==> self.tokens().dom().contains(s) && self.tokens()[s]
                == i
        &&& forall|s: u128| #[trigger]
            self.tokens().dom().contains(s) ==> live(last_report(self.log(), s))
        &&& reports_ordered(self.log())
    }

    /// Every session in the table leads to a slot that holds a client of that session.
    pub open spec fn wf(&self) -> bool {
        forall|s: u128| #[trigger]
            self.tokens().dom().contains(s) ==> serves(self.slots(), self.tokens()[s] as int, s)
    }

    /// Whether `after` is `self` with a client just accepted under `session`, over
    /// `link`, in slot `token`: the first free slot.
    pub open spec fn added_client(self, after: Self, token: int, session: Session, link: S) -> bool {
        &&& token == first_free(self.slots())
        &&& after.slots()[token] matches Some(Slot::Client(c))
        &&& c.link == link
        &&& just_accepted(c.client, session)
        &&& after.slots() == placed(self.slots(), token, Some(Slot::Client(c)))
        &&& after.tokens() == self.tokens().insert(session@, token as usize)
        &&& after.closing() == self.closing()
    }

    /// Whether `after` is `self` with the client of slot `token` disconnected: the
    /// slot is free, its session has left the table, and the client has joined
    /// the closing ones with `reason` queued as its last frame.
    pub open spec fn closed_client(self, after: Self, token: int, reason: Seq<u8>) -> bool {
        &&& self.slots()[token] matches Some(Slot::Client(c))
        &&& after.slots() == self.slots().update(token, None)
        &&& after.tokens() == self.tokens().remove(c.client.session@)
        &&& after.closing().len() == self.closing().len() + 1
        &&& after.closing().drop_last() == self.closing()
        &&& exiting(c, after.closing().last(), reason)
    }

    /// Whether `after` is `self` with the frames of `packets` queued for the
    /// client of `session`, when the table has it, and unchanged otherwise.
    pub open spec fn sent_to(self, after: Self, session: u128, packets: Seq<(u64, Seq<u8>)>) -> bool {
        &&& after.tokens() == self.tokens()
        &&& after.closing() == self.closing()
        &&& if self.tokens().dom().contains(session) {
            let token = self.tokens()[session] as int;
            &&& self.slots()[token] matches Some(Slot::Client(c))
            &&& after.slots()[token] matches Some(Slot::Client(d))
            &&& sent(c, d, packets)
            &&& after.slots() == self.slots().update(token, Some(Slot::Client(d)))
        } else {
            after.slots() == self.slots()
        }
    }

    /// A runtime with no slots, no sessions and nothing closing.
    pub fn new() -> (rt: Runtime<L, S>)
        ensures
            rt.slots() =~= Seq::<Option<Slot<L, S>>>::empty(),
            rt.tokens() =~= Map::<u128, usize>::empty(),
            rt.closing() =~= Seq::<Connection<S>>::empty(),
            rt.log() =~= Seq::<Report>::empty(),
            rt.wf(),
            rt.in_order(),
    {
        Runtime {
            slots: Vec::new(),
            by_session: session_tokens_new(),
            disconnecting: Vec::new(),
            reports: Ghost(Seq::empty()),
        }
    }

    /// The number of slots, free ones included.
    pub fn slot_count(&self) -> (n: usize)
        ensures
            n == self.slots().len(),
    {
        self.slots.len()
    }

    /// Puts `listener` in the first free slot and returns its token.
    pub fn add_listener(&mut self, listener: L) -> (token: usize)
        requires
            old(self).slots().len() < usize::MAX,
        ensures
            token == first_free(old(self).slots()),
            final(self).slots() == placed(old(self).slots(), token as int, Some(Slot::Listener(listener))),
            final(self).tokens() == old(self).tokens(),
            final(self).closing() == old(self).closing(),
            final(self).log() == old(self).log(),
            old(self).wf() ==> final(self).wf(),
            old(self).in_order() ==> final(self).in_order(),
    {
        proof {
            lemma_first_free(old(self).slots());
        }
        let token = alloc_token(&mut self.slots);
        self.slots.set(token, Some(Slot::Listener(listener)));
        proof {
            assert(self.slots@ =~= placed(old(self).slots(), token as int, Some(Slot::Listener(listener))));
            if old(self).wf() {
                assert forall|s: u128| #[trigger] self.tokens().dom().contains(s) implies serves(
                    self.slots(),
                    self.tokens()[s] as int,
                    s,
                ) by {
                    assert(serves(old(self).slots(), old(self).tokens()[s] as int, s));
                }
            }
            if old(self).in_order() {
                assert forall|i: int, s: u128| #[trigger] serves(self.slots(), i, s) implies serves(
                    old(self).slots(),
                    i,
                    s,
                ) by {
                    assert(i != token);
                    assert(self.slots()[i] == old(self).slots()[i]);
                }
                lemma_in_order_same_sessions(*old(self), *self);
            }
        }
        token
    }

    /// Puts a client just accepted under `session`, over `link`, in the first
    /// free slot, enters its session in the table and returns its token.
    pub fn add_client(&mut self, session: Session, link: S) -> (token: usize)
        requires
            old(self).slots().len() < usize::MAX,
        ensures
            old(self).added_client(*final(self), token as int, session, link),
            final(self).log() == old(self).log().push(Report::Connected(session@)),
            old(self).wf() ==> final(self).wf(),
            old(self).in_order() && !old(self).tokens().dom().contains(session@) ==> final(self).in_order(),
    {
        proof {
            lemma_first_free(old(self).slots());
        }
        let token = alloc_token(&mut self.slots);
        let client = TcpClient::accepted(session);
        let ghost conn = Connection { client, link };
        self.slots.set(token, Some(Slot::Client(Connection { client, link })));
        session_tokens_insert(&mut self.by_session, session.to_bits(), token);
        self.reports = Ghost(self.reports@.push(Report::Connected(session@)));
        proof {
            assert(self.slots@ =~= placed(old(self).slots(), token as int, Some(Slot::Client(conn))));
            if old(self).wf() {
                assert forall|s: u128| #[trigger] self.tokens().dom().contains(s) implies serves(
                    self.slots(),
                    self.tokens()[s] as int,
                    s,
                ) by {
                    if s != session@ {
                        assert(serves(old(self).slots(), old(self).tokens()[s] as int, s));
                    }
                }
            }
            if old(self).in_order() && !old(self).tokens().dom().contains(session@) {
                lemma_in_order_added(*old(self), *self, token as int, session, link);
            }
        }
        token
    }

    /// Accepts a client over `link` under a fresh session: puts it in the first
    /// free slot, enters the session in the table and returns the token and the
    /// session. `None`, with nothing changed, when the random source fails.
    pub fn accept(&mut self, link: S) -> (res: Option<(usize, Session)>)
        requires
            old(self).slots().len() < usize::MAX,
        ensures
            match res {
                Some((token, session)) => {
                    &&& old(self).added_client(*final(self), token as int, session, link)
                    &&& final(self).log() == old(self).log().push(Report::Connected(session@))
                    &&& old(self).in_order() && !old(self).tokens().dom().contains(session@)
                        ==> final(self).in_order()
                },
                None => {
                    &&& final(self).slots() == old(self).slots()
                    &&& final(self).tokens() == old(self).tokens()
                    &&& final(self).closing() == old(self).closing()
                    &&& final(self).log() == old(self).log()
                },
            },
            old(self).wf() ==> final(self).wf(),
    {
        match Session::new() {
            Some(session) => {
                let token = self.add_client(session, link);
                Some((token, session))
            },
            None => None,
        }
    }

    /// Disconnects the client of slot `token`, as `close` does, without a report,
    /// and returns its session.
    fn close_slot(&mut self, token: usize, reason_bytes: &[u8]) -> (session: Session)
        requires
            old(self).wf(),
            0 <= token < old(self).slots().len(),
            old(self).slots()[token as int] matches Some(Slot::Client(_)),
        ensures
            old(self).closed_client(*final(self), token as int, reason_bytes@),
            old(self).slots()[token as int] matches Some(Slot::Client(c)) && c.client.session == session,
            final(self).log() == old(self).log(),
            final(self).wf(),
    {
        let mut taken: Option<Slot<L, S>> = None;
        self.slots.set_and_swap(token, &mut taken);
        match taken {
            Some(Slot::Client(mut conn)) => {
                let ghost before = conn;
                conn.client.queue_exit_code(reason_bytes);
                let session = conn.client.session;
                session_tokens_remove(&mut self.by_session, session.to_bits());
                self.disconnecting.push(conn);
                proof {
                    assert(self.disconnecting@.drop_last() =~= old(self).closing());
                    assert forall|s: u128| #[trigger] self.tokens().dom().contains(s) implies serves(
                        self.slots(),
                        self.tokens()[s] as int,
                        s,
                    ) by {
                        assert(serves(old(self).slots(), old(self).tokens()[s] as int, s));
                    }
                }
                session
            },
            _ => {
                assert(false);
                Session::from_halves(0, 0)
            },
        }
    }

    /// Disconnects the client of slot `token` and returns its session, to be
    /// reported disconnected: frees the slot, takes the session out of the table,
    /// queues `reason_bytes` on the exit code channel as its last frame and keeps
    /// it among the closing clients until those bytes are written.
    pub fn close(&mut self, token: usize, reason_bytes: &[u8]) -> (session: Session)
        requires
            old(self).wf(),
            0 <= token < old(self).slots().len(),
            old(self).slots()[token as int] matches Some(Slot::Client(_)),
        ensures
            old(self).closed_client(*final(self), token as int, reason_bytes@),
            old(self).slots()[token as int] matches Some(Slot::Client(c)) && c.client.session == session,
            final(self).log() == old(self).log().push(Report::Disconnected(session@)),
            final(self).wf(),
            old(self).in_order() ==> final(self).in_order(),
    {
        let session = self.close_slot(token, reason_bytes);
        self.reports = Ghost(self.reports@.push(Report::Disconnected(session@)));
        proof {
            if old(self).in_order() {
                lemma_in_order_closed(*old(self), *self, token as int, reason_bytes@, Report::Disconnected(session@));
            }
        }
        session
    }

    /// Reports packets received from the client of slot `token`: returns its
    /// session, to name in the report.
    pub fn note_received(&mut self, token: usize) -> (session: Session)
        requires
            0 <= token < old(self).slots().len(),
            old(self).slots()[token as int] matches Some(Slot::Client(_)),
        ensures
            old(self).slots()[token as int] matches Some(Slot::Client(c)) && c.client.session == session,
            final(self).slots() == old(self).slots(),
            final(self).tokens() == old(self).tokens(),
            final(self).closing() == old(self).closing(),
            final(self).log() == old(self).log().push(Report::Received(session@)),
            old(self).wf() ==> final(self).wf(),
            old(self).in_order() ==> final(self).in_order(),
    {
        let session = match &self.slots[token] {
            Some(Slot::Client(conn)) => conn.client.session,
            _ => {
                assert(false);
                Session::from_halves(0, 0)
            },
        };
        self.reports = Ghost(self.reports@.push(Report::Received(session@)));
        proof {
            if old(self).in_order() {
                assert(serves(old(self).slots(), token as int, session@));
                lemma_ordered_push(old(self).log(), Report::Received(session@));
                assert forall|s: u128| #[trigger] self.tokens().dom().contains(s) implies live(
                    last_report(self.log(), s),
                ) by {
                    lemma_last_report_push(old(self).log(), Report::Received(session@), s);
                }
            }
        }
        session
    }

    /// Queues the frames of `packets`, in order, for the client of `session`, if
    /// the table has it; nothing happens otherwise.
    pub fn send_packets(&mut self, session: Session, packets: Vec<(ChannelId, Vec<u8>)>)
        requires
            old(self).wf(),
        ensures
            old(self).sent_to(*final(self), session@, packets_view(packets@)),
            final(self).log() == old(self).log(),
            final(self).wf(),
            old(self).in_order() ==> final(self).in_order(),
    {
        match session_tokens_get(&self.by_session, session.to_bits()) {
            Some(token) => {
                proof {
                    assert(self.tokens().dom().contains(session@));
                    assert(serves(self.slots(), token as int, session@));
                }
                let mut taken: Option<Slot<L, S>> = None;
                self.slots.set_and_swap(token, &mut taken);
                match taken {
                    Some(Slot::Client(mut conn)) => {
                        conn.client.encoder.encode_all(&packets);
                        let ghost after = conn;
                        self.slots.set(token, Some(Slot::Client(conn)));
                        proof {
                            assert(self.slots@ =~= old(self).slots().update(
                                token as int,
                                Some(Slot::Client(after)),
                            ));
                            assert forall|s: u128| #[trigger] self.tokens().dom().contains(s) implies serves(
                                self.slots(),
                                self.tokens()[s] as int,
                                s,
                            ) by {
                                assert(serves(old(self).slots(), old(self).tokens()[s] as int, s));
                            }
                            if old(self).in_order() {
                                assert forall|i: int, s: u128| #[trigger] serves(self.slots(), i, s) implies serves(
                                    old(self).slots(),
                                    i,
                                    s,
                                ) by {
                                    if i != token {
                                        assert(self.slots()[i] == old(self).slots()[i]);
                                    }
                                }
                                lemma_in_order_same_sessions(*old(self), *self);
                            }
                        }
                    },
                    _ => {
                        assert(false);
                    },
                }
            },
            None => {},
        }
    }

    /// Marks the client of slot `token`, if that slot holds one, as writable or not.
    pub fn set_writable(&mut self, token: usize, writable: bool)
        requires
            old(self).wf(),
        ensures
            final(self).tokens() == old(self).tokens(),
            final(self).closing() == old(self).closing(),
            match (if token < old(self).slots().len() { old(self).slots()[token as int] } else { None }) {
                Some(Slot::Client(c)) => final(self).slots()[token as int] matches Some(Slot::Client(d))
                    && d == (Connection { client: TcpClient { writable, ..c.client }, ..c })
                    && final(self).slots() == old(self).slots().update(token as int, Some(Slot::Client(d))),
                _ => final(self).slots() == old(self).slots(),
            },
            final(self).log() == old(self).log(),
            final(self).wf(),
            old(self).in_order() ==> final(self).in_order(),
    {
        if token < self.slots.len() {
            let mut taken: Option<Slot<L, S>> = None;
            self.slots.set_and_swap(token, &mut taken);
            let restored = match taken {
                Some(Slot::Client(mut conn)) => {
                    conn.client.writable = writable;
                    Some(Slot::Client(conn))
                },
                other => other,
            };
            self.slots.set(token, restored);
            proof {
                if old(self).slots()[token as int] is None || old(self).slots()[token as int] matches Some(Slot::Listener(_)) {
                    assert(self.slots@ =~= old(self).slots());
                }
                assert forall|s: u128| #[trigger] self.tokens().dom().contains(s) implies serves(
                    self.slots(),
                    self.tokens()[s] as int,
                    s,
                ) by {
                    assert(serves(old(self).slots(), old(self).tokens()[s] as int, s));
                }
                if old(self).in_order() {
                    assert forall|i: int, s: u128| #[trigger] serves(self.slots(), i, s) implies serves(
                        old(self).slots(),
                        i,
                        s,
                    ) by {
                        if i != token {
                            assert(self.slots()[i] == old(self).slots()[i]);
                        }
                    }
                    lemma_in_order_same_sessions(*old(self), *self);
                }
            }
        }
    }

    /// The listener of slot `token`, if that slot holds one.
    pub fn listener_mut(&mut self, token: usize) -> (res: Option<&mut L>)
        ensures
            final(self).log() == old(self).log(),
            final(self).tokens() == old(self).tokens(),
            final(self).closing() == old(self).closing(),
            match (if token < old(self).slots().len() { old(self).slots()[token as int] } else { None }) {
                Some(Slot::Listener(l)) => res matches Some(r) && *r == l
                    && final(self).slots() == old(self).slots().update(token as int, Some(Slot::Listener(*final(r)))),
                _ => res is None && final(self).slots() == old(self).slots(),
            },
    {
        if token < self.slots.len() {
            match &mut self.slots[token] {
                Some(Slot::Listener(l)) => Some(l),
                _ => None,
            }
        } else {
            None
        }
    }

    /// The client of slot `token`, if that slot holds one.
    pub fn connection_mut(&mut self, token: usize) -> (res: Option<&mut Connection<S>>)
        ensures
            final(self).log() == old(self).log(),
            final(self).tokens() == old(self).tokens(),
            final(self).closing() == old(self).closing(),
            match (if token < old(self).slots().len() { old(self).slots()[token as int] } else { None }) {
                Some(Slot::Client(c)) => res matches Some(r) && *r == c
                    && final(self).slots() == old(self).slots().update(token as int, Some(Slot::Client(*final(r)))),
                _ => res is None && final(self).slots() == old(self).slots(),
            },
    {
        if token < self.slots.len() {
            match &mut self.slots[token] {
                Some(Slot::Client(c)) => Some(c),
                _ => None,
            }
        } else {
            None
        }
    }

    /// The number of closing clients.
    pub fn closing_count(&self) -> (n: usize)
        ensures
            n == self.closing().len(),
    {
        self.disconnecting.len()
    }

    /// The closing client at position `i`.
    pub fn closing_mut(&mut self, i: usize) -> (res: &mut Connection<S>)
        requires
            i < old(self).closing().len(),
        ensures
            *res == old(self).closing()[i as int],
            final(self).closing() == old(self).closing().update(i as int, *final(res)),
            final(self).slots() == old(self).slots(),
            final(self).tokens() == old(self).tokens(),
            final(self).log() == old(self).log(),
    {
        &mut self.disconnecting[i]
    }

    /// Lets go of the closing client at position `i`, whose bytes are written or
    /// lost; the last closing client takes its place.
    pub fn drop_closing(&mut self, i: usize) -> (gone: Connection<S>)
        requires
            i < old(self).closing().len(),
        ensures
            gone == old(self).closing()[i as int],
            final(self).closing() == old(self).closing().update(i as int, old(self).closing().last()).drop_last(),
            final(self).slots() == old(self).slots(),
            final(self).tokens() == old(self).tokens(),
            final(self).log() == old(self).log(),
            old(self).wf() ==> final(self).wf(),
            old(self).in_order() ==> final(self).in_order(),
    {
        self.disconnecting.swap_remove(i)
    }

    /// Disconnects the client of `session`, if the table has it, as `close` does,
    /// and tells whether it did.
    pub fn disconnect(&mut self, session: Session, reason_bytes: &[u8]) -> (done: bool)
        requires
            old(self).wf(),
        ensures
            done == old(self).tokens().dom().contains(session@),
            done ==> old(self).closed_client(
                *final(self),
                old(self).tokens()[session@] as int,
                reason_bytes@,
            ),
            done ==> final(self).log() == old(self).log().push(Report::Dropped(session@)),
            !done ==> final(self).slots() == old(self).slots() && final(self).tokens() == old(
                self,
            ).tokens() && final(self).closing() == old(self).closing() && final(self).log() == old(
                self,
            ).log(),
            final(self).wf(),
            old(self).in_order() ==> final(self).in_order(),
    {
        match session_tokens_get(&self.by_session, session.to_bits()) {
            Some(token) => {
                proof {
                    assert(self.tokens().dom().contains(session@));
                    assert(serves(self.slots(), token as int, session@));
                }
                self.close_slot(token, reason_bytes);
                self.reports = Ghost(self.reports@.push(Report::Dropped(session@)));
                proof {
                    if old(self).in_order() {
                        lemma_in_order_closed(
                            *old(self),
                            *self,
                            token as int,
                            reason_bytes@,
                            Report::Dropped(session@),
                        );
                    }
                }
                true
            },
            None => false,
        }
    }
}

/// A step that keeps the table and the log, and lets no slot serve a session
/// that it did not serve before, keeps the reports in order.
proof fn lemma_in_order_same_sessions<L, S>(a: Runtime<L, S>, b: Runtime<L, S>)
    requires
        a.in_order(),
        b.wf(),
        b.tokens() == a.tokens(),
        b.log() == a.log(),
        forall|i: int, s: u128| #[trigger] serves(b.slots(), i, s) ==> serves(a.slots(), i, s),
    ensures
        b.in_order(),
{
    assert forall|i: int, s: u128| #[trigger] serves(b.slots(), i, s) implies b.tokens().dom().contains(s)
        && b.tokens()[s] == i by {
        assert(serves(a.slots(), i, s));
    }
}

/// Accepting a client under a session that the table does not hold, and
/// reporting it connected, keeps the reports in order.
proof fn lemma_in_order_added<L, S>(a: Runtime<L, S>, b: Runtime<L, S>, token: int, session: Session, link: S)
    requires
        a.in_order(),
        b.wf(),
        0 <= token <= usize::MAX,
        a.added_client(b, token, session, link),
        !a.tokens().dom().contains(session@),
        b.log() == a.log().push(Report::Connected(session@)),
    ensures
        b.in_order(),
{
    lemma_first_free(a.slots());
    lemma_ordered_push(a.log(), Report::Connected(session@));
    assert forall|i: int, s: u128| #[trigger] serves(b.slots(), i, s) implies b.tokens().dom().contains(s)
        && b.tokens()[s] == i by {
        if i != token {
            assert(i < a.slots().len());
            assert(b.slots()[i] == a.slots()[i]);
            assert(serves(a.slots(), i, s));
            if s == session@ {
                assert(a.tokens().dom().contains(s));
            }
        } else {
            let c = b.slots()[token]->Some_0->Client_0;
            assert(c.client.session == session);
        }
    }
    assert forall|s: u128| #[trigger] b.tokens().dom().contains(s) implies live(last_report(b.log(), s)) by {
        lemma_last_report_push(a.log(), Report::Connected(session@), s);
        if s != session@ {
            assert(a.tokens().dom().contains(s));
        }
    }
}

/// Closing the client of slot `token`, with a report that it was disconnected
/// or dropped, keeps the reports in order.
proof fn lemma_in_order_closed<L, S>(a: Runtime<L, S>, b: Runtime<L, S>, token: int, reason: Seq<u8>, report: Report)
    requires
        a.in_order(),
        b.wf(),
        0 <= token < a.slots().len(),
        a.closed_client(b, token, reason),
        a.slots()[token] matches Some(Slot::Client(c)) && (report == Report::Disconnected(c.client.session@)
            || report == Report::Dropped(c.client.session@)),
        b.log() == a.log().push(report),
    ensures
        b.in_order(),
{
    let c = a.slots()[token]->Some_0->Client_0;
    let sess = c.client.session@;
    assert(serves(a.slots(), token, sess));
    assert(a.tokens().dom().contains(sess));
    lemma_ordered_push(a.log(), report);
    assert forall|i: int, s: u128| #[trigger] serves(b.slots(), i, s) implies b.tokens().dom().contains(s)
        && b.tokens()[s] == i by {
        assert(i != token);
        assert(b.slots()[i] == a.slots()[i]);
        assert(serves(a.slots(), i, s));
    }
    assert forall|s: u128| #[trigger] b.tokens().dom().contains(s) implies live(last_report(b.log(), s)) by {
        lemma_last_report_push(a.log(), report, s);
        assert(a.tokens().dom().contains(s));
    }
}

/// Whether no two slots of `slots` hold clients of the same session.
pub open spec fn sessions_distinct<L, S>(slots: Seq<Option<Slot<L, S>>>) -> bool {
    forall|i: int, j: int, s: u128|
        #![trigger serves(slots, i, s), serves(slots, j, s)]
        serves(slots, i, s) && serves(slots, j, s) ==> i == j
}

/// A client accepted under a session that no slot serves keeps the sessions of
/// the slots distinct, and once a client is closed, no slot serves its session:
/// nothing more is read from it or reported of it until it is accepted anew.
pub proof fn closed_session_is_served_nowhere<L, S>(
    a: Runtime<L, S>,
    b: Runtime<L, S>,
    c: Runtime<L, S>,
    token: int,
    session: Session,
    link: S,
    closed: int,
    reason: Seq<u8>,
)
    requires
        sessions_distinct(a.slots()),
        forall|i: int| !serves(a.slots(), i, session@),
        a.added_client(b, token, session, link),
        0 <= closed < b.slots().len(),
        b.closed_client(c, closed, reason),
    ensures
        sessions_distinct(b.slots()),
        serves(b.slots(), token, session@),
        sessions_distinct(c.slots()),
        b.slots()[closed] matches Some(Slot::Client(k)) && forall|i: int|
            !serves(c.slots(), i, k.client.session@),
{
    lemma_first_free(a.slots());
    assert forall|i: int, j: int, s: u128|
        serves(b.slots(), i, s) && serves(b.slots(), j, s) implies i == j by {
        if i != token && j != token {
            assert(serves(a.slots(), i, s));
            assert(serves(a.slots(), j, s));
        } else if i == token && j != token {
            assert(serves(a.slots(), j, s));
        } else if j == token && i != token {
            assert(serves(a.slots(), i, s));
        }
    }
    assert(serves(b.slots(), token, session@));
    assert forall|i: int, j: int, s: u128|
        serves(c.slots(), i, s) && serves(c.slots(), j, s) implies i == j by {
        assert(i != closed && j != closed);
        assert(c.slots()[i] == b.slots()[i]);
        assert(c.slots()[j] == b.slots()[j]);
        assert(serves(b.slots(), i, s));
        assert(serves(b.slots(), j, s));
    }
    let k = b.slots()[closed]->Some_0->Client_0;
    assert forall|i: int| !serves(c.slots(), i, k.client.session@) by {
        if serves(c.slots(), i, k.client.session@) {
            assert(i != closed);
            assert(c.slots()[i] == b.slots()[i]);
            assert(serves(b.slots(), i, k.client.session@));
            assert(serves(b.slots(), closed, k.client.session@));
        }
    }
}

/// Once the client of a session is disconnected, packets sent to that session
/// go nowhere: the runtime is left as it was.
pub proof fn disconnected_session_is_not_served<L, S>(
    a: Runtime<L, S>,
    b: Runtime<L, S>,
    c: Runtime<L, S>,
    session: u128,
    reason: Seq<u8>,
    packets: Seq<(u64, Seq<u8>)>,
)
    requires
        a.wf(),
        a.tokens().dom().contains(session),
        a.closed_client(b, a.tokens()[session] as int, reason),
        b.sent_to(c, session, packets),
    ensures
        c.slots() == b.slots(),
        c.tokens() == b.tokens(),
        c.closing() == b.closing(),
{
    assert(serves(a.slots(), a.tokens()[session] as int, session));
    assert(!b.tokens().dom().contains(session));
}

} // verus!
