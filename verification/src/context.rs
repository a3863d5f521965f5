//! The table of live connections that the main thread keeps, and the
//! disconnections requested on it.
use vstd::prelude::*;

use bevy::ecs::entity::Entity;

use crate::collections::{
    pending_disconnects, pending_disconnects_drain, pending_disconnects_insert, pending_disconnects_new,
    session_entities, session_entities_contains, session_entities_get, session_entities_insert,
    session_entities_new, session_entities_remove, PendingDisconnects, SessionEntities,
};
use crate::messages::DisconnectReason;
use crate::session::Session;

verus! {

/// The keys of the entries of `all` from index `m` on.
pub open spec fn later_keys(all: Seq<(u128, DisconnectReason)>, m: int) -> Set<u128> {
    Set::new(|k: u128| exists|j: int| m <= j < all.len() && #[trigger] all[j].0 == k)
}

/// A message that the main thread sends about a session: that it connected,
/// with the entity that holds its transports, or that it disconnected, with
/// that entity.
pub enum Note {
    Connected(u128, Entity),
    Disconnected(u128, Entity),
}

/// Whether `note` is about session `s`.
pub open spec fn about(note: Note, s: u128) -> bool {
    match note {
        Note::Connected(t, _) => t == s,
        Note::Disconnected(t, _) => t == s,
    }
}

/// The latest of `notes` about session `s`, if any.
pub open spec fn latest_about(notes: Seq<Note>, s: u128) -> Option<Note>
    decreases notes.len(),
{
    if notes.len() == 0 {
        None
    } else if about(notes.last(), s) {
        Some(notes.last())
    } else {
        latest_about(notes.drop_last(), s)
    }
}

/// Whether the connections agree with the notes sent so far: a session is
/// connected, with entity `e`, exactly when the latest note about it says that
/// it connected with `e`.
pub open spec fn table_matches(connections: Map<u128, Entity>, notes: Seq<Note>) -> bool {
    forall|s: u128|
        #![trigger connections.dom().contains(s)]
        #![trigger latest_about(notes, s)]
        if connections.dom().contains(s) {
            latest_about(notes, s) == Some(Note::Connected(s, connections[s]))
        } else {
            !(latest_about(notes, s) matches Some(Note::Connected(_, _)))
        }
}

/// Whether every `Disconnected` note comes after a `Connected` note about the
/// same session, naming the same entity, with no note about that session in
/// between: so a session is reported disconnected at most once per connection.
pub open spec fn well_ordered(notes: Seq<Note>) -> bool {
    forall|k: int|
        #![trigger notes[k]]
        0 <= k < notes.len() ==> (notes[k] matches Note::Disconnected(s, e) ==> latest_about(
            notes.take(k),
            s,
        ) == Some(Note::Connected(s, e)))
}

proof fn lemma_latest_after_push(notes: Seq<Note>, note: Note, s: u128)
    ensures
        latest_about(notes.push(note), s) == (if about(note, s) {
            Some(note)
        } else {
            latest_about(notes, s)
        }),
{
    assert(notes.push(note).drop_last() =~= notes);
}

proof fn lemma_ordered_after_push(notes: Seq<Note>, note: Note)
    requires
        well_ordered(notes),
        note matches Note::Disconnected(s, e) ==> latest_about(notes, s) == Some(Note::Connected(s, e)),
    ensures
        well_ordered(notes.push(note)),
{
    let all = notes.push(note);
    assert forall|k: int| 0 <= k < all.len() implies (#[trigger] all[k] matches Note::Disconnected(s, e)
        ==> latest_about(all.take(k), s) == Some(Note::Connected(s, e))) by {
        if k < notes.len() {
            assert(all.take(k) =~= notes.take(k));
            assert(all[k] == notes[k]);
        } else {
            assert(all.take(k) =~= notes);
        }
    }
}

/// Reporting that a session connected keeps the table and the notes in step.
pub proof fn connected_keeps_notes_in_step(
    connections: Map<u128, Entity>,
    notes: Seq<Note>,
    s: u128,
    e: Entity,
)
    requires
        table_matches(connections, notes),
        well_ordered(notes),
    ensures
        table_matches(connections.insert(s, e), notes.push(Note::Connected(s, e))),
        well_ordered(notes.push(Note::Connected(s, e))),
{
    lemma_ordered_after_push(notes, Note::Connected(s, e));
    let c = connections.insert(s, e);
    let n = notes.push(Note::Connected(s, e));
    assert forall|t: u128| #![trigger c.dom().contains(t)] #![trigger latest_about(n, t)] (if c.dom().contains(t) {
        latest_about(n, t) == Some(Note::Connected(t, c[t]))
    } else {
        !(latest_about(n, t) matches Some(Note::Connected(_, _)))
    }) by {
        lemma_latest_after_push(notes, Note::Connected(s, e), t);
        assert(connections.dom().contains(t) || !connections.dom().contains(t));
    }
}

/// Reporting that a connected session disconnected, with the entity that the
/// table holds for it, keeps the table and the notes in step.
pub proof fn disconnected_keeps_notes_in_step(connections: Map<u128, Entity>, notes: Seq<Note>, s: u128)
    requires
        table_matches(connections, notes),
        well_ordered(notes),
        connections.dom().contains(s),
    ensures
        table_matches(connections.remove(s), notes.push(Note::Disconnected(s, connections[s]))),
        well_ordered(notes.push(Note::Disconnected(s, connections[s]))),
{
    assert(latest_about(notes, s) == Some(Note::Connected(s, connections[s])));
    lemma_ordered_after_push(notes, Note::Disconnected(s, connections[s]));
    let c = connections.remove(s);
    let n = notes.push(Note::Disconnected(s, connections[s]));
    assert forall|t: u128| #![trigger c.dom().contains(t)] #![trigger latest_about(n, t)] (if c.dom().contains(t) {
        latest_about(n, t) == Some(Note::Connected(t, c[t]))
    } else {
        !(latest_about(n, t) matches Some(Note::Connected(_, _)))
    }) by {
        lemma_latest_after_push(notes, Note::Disconnected(s, connections[s]), t);
        assert(connections.dom().contains(t) || !connections.dom().contains(t));
    }
}

/// The notes that report the sessions of `done` disconnected, in order.
pub open spec fn done_notes(done: Seq<(Session, Entity, DisconnectReason)>) -> Seq<Note>
    decreases done.len(),
{
    if done.len() == 0 {
        Seq::empty()
    } else {
        seq![Note::Disconnected(done[0].0@, done[0].1)] + done_notes(done.drop_first())
    }
}

/// Reporting disconnected the sessions that carrying out the requests `requests`
/// returned, in the order returned, keeps the table and the notes in step: each
/// such session was connected, is reported once with its entity, and every
/// requested session has left the table.
pub proof fn requests_keep_notes_in_step(
    connections: Map<u128, Entity>,
    requests: Map<u128, DisconnectReason>,
    notes: Seq<Note>,
    done: Seq<(Session, Entity, DisconnectReason)>,
)
    requires
        table_matches(connections, notes),
        well_ordered(notes),
        forall|i: int|
            #![trigger done[i]]
            0 <= i < done.len() ==> connections.dom().contains(done[i].0@) && requests.dom().contains(
                done[i].0@,
            ) && connections[done[i].0@] == done[i].1,
        forall|k: u128|
            connections.dom().contains(k) && requests.dom().contains(k) ==> exists|i: int|
                0 <= i < done.len() && (#[trigger] done[i]).0@ == k,
        forall|i: int, j: int| 0 <= i < j < done.len() ==> (#[trigger] done[i]).0@ != (#[trigger] done[j]).0@,
    ensures
        table_matches(connections.remove_keys(requests.dom()), notes + done_notes(done)),
        well_ordered(notes + done_notes(done)),
    decreases done.len(),
{
    if done.len() == 0 {
        assert(notes + done_notes(done) =~= notes);
        assert(connections.remove_keys(requests.dom()) =~= connections) by {
            assert forall|k: u128| connections.dom().contains(k) implies !requests.dom().contains(k) by {
                if requests.dom().contains(k) {
                    let i = choose|i: int| 0 <= i < done.len() && (#[trigger] done[i]).0@ == k;
                }
            }
        }
    } else {
        let s0 = done[0].0@;
        let tail = done.drop_first();
        disconnected_keeps_notes_in_step(connections, notes, s0);
        let c1 = connections.remove(s0);
        let r1 = requests.remove(s0);
        let n1 = notes.push(Note::Disconnected(s0, connections[s0]));
        assert forall|i: int| #![trigger tail[i]] 0 <= i < tail.len() implies c1.dom().contains(tail[i].0@)
            && r1.dom().contains(tail[i].0@) && c1[tail[i].0@] == tail[i].1 by {
            assert(tail[i] == done[i + 1]);
        }
        assert forall|k: u128| c1.dom().contains(k) && r1.dom().contains(k) implies exists|i: int|
            0 <= i < tail.len() && (#[trigger] tail[i]).0@ == k by {
            let i = choose|i: int| 0 <= i < done.len() && (#[trigger] done[i]).0@ == k;
            assert(tail[i - 1] == done[i]);
        }
        assert forall|i: int, j: int| 0 <= i < j < tail.len() implies (#[trigger] tail[i]).0@ != (
        #[trigger] tail[j]).0@ by {
            assert(tail[i] == done[i + 1]);
            assert(tail[j] == done[j + 1]);
        }
        requests_keep_notes_in_step(c1, r1, n1, tail);
        assert(c1.remove_keys(r1.dom()) =~= connections.remove_keys(requests.dom()));
        assert(n1 + done_notes(tail) =~= notes + done_notes(done));
    }
}

/// The connections of the main thread: which entity holds each session's
/// transports, and which sessions are to be disconnected, and why.
pub struct NetContext {
    transports: SessionEntities,
    dc_req: PendingDisconnects,
}

impl NetContext {
    /// The connected sessions, by number, with their entities.
    pub closed spec fn connections(&self) -> Map<u128, Entity> {
        session_entities(self.transports)
    }

    /// The sessions whose disconnection was requested, with the reasons.
    pub closed spec fn requests(&self) -> Map<u128, DisconnectReason> {
        pending_disconnects(self.dc_req)
    }

    /// No connections and no requests.
    pub fn new() -> (ctx: NetContext)
        ensures
            ctx.connections() =~= Map::empty(),
            ctx.requests() =~= Map::empty(),
    {
        NetContext { transports: session_entities_new(), dc_req: pending_disconnects_new() }
    }

    /// Asks for `session` to be disconnected for `reason`. Returns true if
    /// disconnection was already requested, or the session is already
    /// disconnected (it is not in the table); such a session is left alone.
    pub fn disconnect(&mut self, session: Session, reason: DisconnectReason) -> (already: bool)
        ensures
            old(self).connections().dom().contains(session@) ==> {
                &&& final(self).requests() == old(self).requests().insert(session@, reason)
                &&& already == old(self).requests().dom().contains(session@)
            },
            !old(self).connections().dom().contains(session@) ==> {
                &&& final(self).requests() == old(self).requests()
                &&& already
            },
            final(self).connections() == old(self).connections(),
    {
        if session_entities_contains(&self.transports, session.to_bits()) {
            pending_disconnects_insert(&mut self.dc_req, session.to_bits(), reason).is_some()
        } else {
            true
        }
    }

    /// Records that `session` connected and that `entity` holds its transports.
    pub fn on_connected(&mut self, session: Session, entity: Entity)
        ensures
            final(self).connections() == old(self).connections().insert(session@, entity),
            final(self).requests() == old(self).requests(),
    {
        session_entities_insert(&mut self.transports, session.to_bits(), entity);
    }

    /// The entity that holds the transports of `session`, if it is connected.
    pub fn entity_of(&self, session: Session) -> (res: Option<Entity>)
        ensures
            res == (if self.connections().dom().contains(session@) {
                Some(self.connections()[session@])
            } else {
                None
            }),
    {
        session_entities_get(&self.transports, session.to_bits())
    }

    /// Records that `session` disconnected on its own. Returns its entity if it
    /// was connected, and `None` (changing nothing) if it was not.
    pub fn on_disconnected(&mut self, session: Session) -> (res: Option<Entity>)
        ensures
            final(self).connections() == old(self).connections().remove(session@),
            final(self).requests() == old(self).requests(),
            res == (if old(self).connections().dom().contains(session@) {
                Some(old(self).connections()[session@])
            } else {
                None
            }),
    {
        session_entities_remove(&mut self.transports, session.to_bits())
    }

    /// Carries out every pending request: each requested session that is still
    /// connected is dropped from the table and returned once, with its entity and
    /// the reason; requests for sessions that are gone are discarded. The order of
    /// the result is left open.
    pub fn take_disconnect_requests(&mut self) -> (done: Vec<(Session, Entity, DisconnectReason)>)
        ensures
            final(self).requests() =~= Map::empty(),
            final(self).connections() =~= old(self).connections().remove_keys(
                old(self).requests().dom(),
            ),
            forall|i: int|
                #![trigger done@[i]]
                0 <= i < done@.len() ==> {
                    let (s, e, r) = done@[i];
                    &&& old(self).connections().dom().contains(s@)
                    &&& old(self).requests().dom().contains(s@)
                    &&& old(self).connections()[s@] == e
                    &&& old(self).requests()[s@] == r
                },
            forall|k: u128|
                old(self).connections().dom().contains(k) && old(self).requests().dom().contains(k)
                    ==> exists|i: int| 0 <= i < done@.len() && (#[trigger] done@[i]).0@ == k,
            forall|i: int, j: int|
                0 <= i < j < done@.len() ==> (#[trigger] done@[i]).0@ != (#[trigger] done@[j]).0@,
    {
        let ghost conns = self.connections();
        let ghost reqs = self.requests();
        let mut pending = pending_disconnects_drain(&mut self.dc_req);
        let ghost all = pending@;
        let mut done: Vec<(Session, Entity, DisconnectReason)> = Vec::new();
        proof {
            assert(conns.remove_keys(later_keys(all, all.len() as int)) =~= conns);
        }
        while pending.len() > 0
            invariant
                pending@ =~= all.subrange(0, pending@.len() as int),
                pending@.len() <= all.len(),
                self.requests() =~= Map::empty(),
                forall|i: int|
                    0 <= i < all.len() ==> reqs.dom().contains(#[trigger] all[i].0) && reqs[all[i].0]
                        == all[i].1,
                forall|k: u128|
                    reqs.dom().contains(k) ==> exists|i: int| 0 <= i < all.len() && #[trigger] all[i].0 == k,
                forall|i: int|
                    forall|j: int| 0 <= i < j < all.len() ==> #[trigger] all[i].0 != #[trigger] all[j].0,
                self.connections() == conns.remove_keys(later_keys(all, pending@.len() as int)),
                forall|i: int|
                    #![trigger done@[i]]
                    0 <= i < done@.len() ==> {
                        let (s, e, r) = done@[i];
                        &&& conns.dom().contains(s@)
                        &&& reqs.dom().contains(s@)
                        &&& conns[s@] == e
                        &&& reqs[s@] == r
                        &&& later_keys(all, pending@.len() as int).contains(s@)
                    },
                forall|k: u128|
                    conns.dom().contains(k) && reqs.dom().contains(k) && later_keys(
                        all,
                        pending@.len() as int,
                    ).contains(k) ==> exists|i: int| 0 <= i < done@.len() && (#[trigger] done@[i]).0@ == k,
                forall|i: int, j: int|
                    0 <= i < j < done@.len() ==> (#[trigger] done@[i]).0@ != (#[trigger] done@[j]).0@,
            decreases pending@.len(),
        {
            let ghost m = pending@.len() as int;
            let (key, reason) = pending.pop().unwrap();
            assert(all[m - 1] == (key, reason));
            let ghost before = self.connections();
            let ghost done_before = done@;
            proof {
                assert(later_keys(all, m - 1) =~= later_keys(all, m).insert(key));
                assert(!later_keys(all, m).contains(key));
            }
            match session_entities_remove(&mut self.transports, key) {
                Some(entity) => {
                    done.push((Session::from_bits(key), entity, reason));
                },
                None => {},
            }
            proof {
                assert(self.connections() =~= conns.remove_keys(later_keys(all, m - 1)));
                assert forall|k: u128|
                    conns.dom().contains(k) && reqs.dom().contains(k) && later_keys(all, m - 1).contains(
                        k,
                    ) implies exists|i: int| 0 <= i < done@.len() && (#[trigger] done@[i]).0@ == k by {
                    if k == key {
                        assert(done@[done@.len() - 1].0@ == k);
                    } else {
                        assert(later_keys(all, m).contains(k));
                        let i = choose|i: int| 0 <= i < done_before.len() && (#[trigger] done_before[i]).0@ == k;
                        assert(done@[i] == done_before[i]);
                    }
                }
            }
        }
        proof {
            assert(later_keys(all, 0) =~= reqs.dom());
        }
        done
    }
}

} // verus!
