//! Entity synchronization: the update that a local entity sends each tick, and
//! what a remote entity keeps of the updates it receives.
use vstd::prelude::*;

use bevy::ecs::component::Tick;

use crate::channel::ChannelId;
use crate::collections::{
    component_updates, component_updates_clear, component_updates_get, component_updates_insert,
    component_updates_new, ComponentUpdates,
};
use crate::version::Version;
use crate::wire::{
    byte_span, le_bytes, le_field, le_value, lemma_le_bytes_len, lemma_le_value_of_bytes, push_le,
    read_le,
};

verus! {

/// `bevy_ecs`'s `MAX_CHANGE_AGE`: the largest age, in ticks, that change
/// detection tells apart.
pub const MAX_CHANGE_AGE: u32 = 3_258_167_296u32;

/// The ticks from `earlier` to `later`, counted modulo `2^32`.
pub open spec fn tick_distance(later: u32, earlier: u32) -> int {
    if later >= earlier {
        later - earlier
    } else {
        later + 0x1_0000_0000 - earlier
    }
}

/// An age, capped at `MAX_CHANGE_AGE`.
pub open spec fn capped_age(age: int) -> int {
    if age < MAX_CHANGE_AGE {
        age
    } else {
        MAX_CHANGE_AGE as int
    }
}

/// Whether a change at tick `tick` happened since a system's last run at
/// `last_run`, seen from its current run at `this_run`: the last run is older,
/// both ages counted back from `this_run` and capped.
pub open spec fn tick_is_newer(tick: u32, last_run: u32, this_run: u32) -> bool {
    capped_age(tick_distance(this_run, last_run)) > capped_age(tick_distance(this_run, tick))
}

/// `bevy_ecs`'s `Tick::is_newer_than` on the ticks numbered `tick`, `last_run`
/// and `this_run`; its source compares `this_run - last_run` with
/// `this_run - tick`, each a wrapping subtraction capped at `MAX_CHANGE_AGE`.
#[verifier::external_body]
fn tick_newer_than(tick: u32, last_run: u32, this_run: u32) -> (res: bool)
    ensures
        res == tick_is_newer(tick, last_run, this_run),
{
    Tick::new(tick).is_newer_than(Tick::new(last_run), Tick::new(this_run))
}

/// The identifier under which an entity is synchronized on every peer.
#[derive(Copy, Clone, Debug, Hash, PartialEq, Eq, Structural)]
pub struct SyncEntityId(u32);

impl View for SyncEntityId {
    type V = u32;

    closed spec fn view(&self) -> u32 {
        self.0
    }
}

impl SyncEntityId {
    pub fn from_bits(bits: u32) -> (id: SyncEntityId)
        ensures
            id@ == bits,
    {
        SyncEntityId(bits)
    }

    pub fn to_bits(self) -> (bits: u32)
        ensures
            bits == self@,
    {
        self.0
    }
}

/// The eight bytes that open an update: the entity's identifier and the
/// update's version, each as four bytes, least significant first.
pub open spec fn update_header(id: u32, version: u32) -> Seq<u8> {
    le_bytes(id as nat, 4) + le_bytes(version as nat, 4)
}

/// One component's state in an update: the component's channel as two bytes
/// (its identifier modulo `2^16`), the length as two bytes (modulo `2^16`),
/// then the bytes. A remote entity reads a channel of eight bytes (see
/// `unpacked`), so an entry written here is not read back as written.
pub open spec fn component_entry(component: u64, bytes: Seq<u8>) -> Seq<u8> {
    le_bytes(component as nat % 0x10000, 2) + le_bytes(bytes.len() % 0x10000, 2) + bytes
}

/// An entity whose state is sent to remotes: it fills an update with its
/// components' states, sends it, and starts the next one.
pub struct LocalEntity {
    version: Version,
    sync_id: SyncEntityId,
    buffer: Vec<u8>,
}

impl LocalEntity {
    /// The update being filled opens with the entity's identifier and the
    /// version before the one it will use next. Every function that makes or
    /// changes a local entity keeps this so.
    pub closed spec fn header_in_place(&self) -> bool {
        &&& self.version@ >= 1
        &&& self.buffer@.len() >= 8
        &&& self.buffer@.subrange(0, 8) == update_header(self.sync_id@, (self.version@ - 1) as u32)
    }

    /// The version that the next update will carry.
    pub closed spec fn next_version(&self) -> u32 {
        self.version@
    }

    pub closed spec fn spec_id(&self) -> SyncEntityId {
        self.sync_id
    }

    /// The bytes of the update being filled.
    pub closed spec fn send_buffer(&self) -> Seq<u8> {
        self.buffer@
    }

    /// A local entity synchronized as `sync_id`, whose first update (version one)
    /// is open and empty.
    pub fn new(sync_id: SyncEntityId) -> (e: LocalEntity)
        ensures
            e.spec_id() == sync_id,
            e.send_buffer() == update_header(sync_id@, 1),
            e.next_version() == 2,
            e.header_in_place(),
    {
        let mut version = Version::one();
        let mut buffer: Vec<u8> = Vec::new();
        push_le(&mut buffer, sync_id.to_bits() as u128, 4);
        let v = version.take();
        push_le(&mut buffer, v.to_bits() as u128, 4);
        proof {
            lemma_le_bytes_len(sync_id@ as nat, 4);
            lemma_le_bytes_len(1, 4);
            assert(buffer@.subrange(0, 8) =~= buffer@);
        }
        LocalEntity { version, buffer, sync_id }
    }

    /// The identifier under which this entity is synchronized.
    pub fn id(&self) -> (id: SyncEntityId)
        ensures
            id == self.spec_id(),
    {
        self.sync_id
    }

    /// The version that the next update will carry.
    pub fn version(&self) -> (v: Version)
        ensures
            v@ == self.next_version(),
    {
        self.version
    }

    /// Writes a component's state, `bytes`, under the channel `component_id`
    /// into the update being filled.
    pub fn encode(&mut self, component_id: ChannelId, bytes: &[u8])
        requires
            old(self).header_in_place(),
        ensures
            final(self).header_in_place(),
            final(self).send_buffer() == old(self).send_buffer() + component_entry(
                component_id@,
                bytes@,
            ),
            final(self).spec_id() == old(self).spec_id(),
            final(self).next_version() == old(self).next_version(),
    {
        let ghost before = self.buffer@;
        push_le(&mut self.buffer, (component_id.to_bits() % 0x10000) as u128, 2);
        push_le(&mut self.buffer, (bytes.len() % 0x10000) as u128, 2);
        self.buffer.extend_from_slice(bytes);
        proof {
            assert(self.buffer@ =~= before + component_entry(component_id@, bytes@));
            assert(self.buffer@.subrange(0, 8) =~= before.subrange(0, 8));
        }
    }

    /// Starts the next update: the update being filled is dropped and the new
    /// one opens with the entity's identifier and the next version.
    pub fn clear(&mut self)
        requires
            old(self).header_in_place(),
            old(self).next_version() < u32::MAX,
        ensures
            final(self).header_in_place(),
            final(self).send_buffer() == update_header(old(self).spec_id()@, old(self).next_version()),
            final(self).next_version() == old(self).next_version() + 1,
            final(self).spec_id() == old(self).spec_id(),
    {
        let mut version = self.version;
        let mut buffer: Vec<u8> = Vec::new();
        push_le(&mut buffer, self.sync_id.to_bits() as u128, 4);
        let v = version.take();
        push_le(&mut buffer, v.to_bits() as u128, 4);
        proof {
            lemma_le_bytes_len(self.sync_id@ as nat, 4);
            lemma_le_bytes_len(v@ as nat, 4);
            assert(buffer@.subrange(0, 8) =~= buffer@);
        }
        self.version = version;
        self.buffer = buffer;
    }

    /// The update being filled, as it is to be sent. It opens with the entity's
    /// identifier and the version just before the next one.
    pub fn get_send_buffer(&self) -> (b: &[u8])
        requires
            self.header_in_place(),
        ensures
            b@ == self.send_buffer(),
            self.next_version() >= 1,
            b@.len() >= 8,
            b@.subrange(0, 8) == update_header(self.spec_id()@, (self.next_version() - 1) as u32),
    {
        self.buffer.as_slice()
    }
}

/// The entity identifier that opens `packet`.
pub open spec fn header_id(packet: Seq<u8>) -> nat {
    le_field(packet, 0, 4)
}

/// The version that `packet` carries.
pub open spec fn header_version(packet: Seq<u8>) -> nat {
    le_field(packet, 4, 4)
}

/// Splits an update into its entity identifier, its version and the component
/// entries that follow; `None` when the update is shorter than its header.
pub fn split_update_header(packet: &[u8]) -> (res: Option<(SyncEntityId, Version, &[u8])>)
    ensures
        packet@.len() < 8 ==> res is None,
        packet@.len() >= 8 ==> (res matches Some((id, version, rest)) && id@ == header_id(packet@)
            && version@ == header_version(packet@) && rest@ == packet@.skip(8)),
{
    if packet.len() < 8 {
        return None;
    }
    let id = read_le(packet, 0, 4);
    let version = read_le(packet, 4, 4);
    proof {
        reveal_with_fuel(byte_span, 5);
    }
    let rest = vstd::slice::slice_subrange(packet, 8, packet.len());
    assert(rest@ =~= packet@.skip(8));
    Some((SyncEntityId(id as u32), Version::from_bits(version as u32), rest))
}

/// The header that a local entity writes is read back by `split_update_header`:
/// the same identifier and version, and the entries after it.
pub proof fn update_header_roundtrip(id: u32, version: u32, entries: Seq<u8>)
    ensures
        header_id(update_header(id, version) + entries) == id,
        header_version(update_header(id, version) + entries) == version,
        (update_header(id, version) + entries).skip(8) == entries,
{
    let packet = update_header(id, version) + entries;
    lemma_le_bytes_len(id as nat, 4);
    lemma_le_bytes_len(version as nat, 4);
    reveal_with_fuel(byte_span, 5);
    lemma_le_value_of_bytes(id as nat, 4);
    lemma_le_value_of_bytes(version as nat, 4);
    assert(packet.subrange(0, 4) =~= le_bytes(id as nat, 4));
    assert(packet.subrange(4, 8) =~= le_bytes(version as nat, 4));
    assert(packet.skip(8) =~= entries);
}

/// Whether `buf` can be read as component updates, entry by entry, without
/// running short inside an entry's header: each entry opens with an eight-byte
/// channel and a two-byte length, reading goes on while four bytes or more are
/// left, and a tail of four to nine bytes cannot be read as a header.
pub open spec fn unpacks_cleanly(buf: Seq<u8>) -> bool
    decreases buf.len(),
{
    if buf.len() < 4 {
        true
    } else if buf.len() < 10 {
        false
    } else {
        let seg = le_field(buf, 8, 2);
        let rest = buf.skip(10);
        if rest.len() >= seg {
            unpacks_cleanly(rest.skip(seg as int))
        } else {
            true
        }
    }
}

/// The component updates that `buf` holds: each entry is an eight-byte channel,
/// a two-byte length and that many bytes; a later entry for a channel replaces an
/// earlier one, and reading stops at an entry whose bytes run past the end.
pub open spec fn unpacked(buf: Seq<u8>) -> Map<u64, Seq<u8>>
    decreases buf.len(),
{
    if buf.len() < 10 {
        Map::empty()
    } else {
        let id = le_field(buf, 0, 8) as u64;
        let seg = le_field(buf, 8, 2);
        let rest = buf.skip(10);
        if rest.len() >= seg {
            Map::empty().insert(id, rest.take(seg as int)).union_prefer_right(
                unpacked(rest.skip(seg as int)),
            )
        } else {
            Map::empty()
        }
    }
}

/// The entries of the component states `entries`, one after the other, as a
/// local entity writes them into an update.
pub open spec fn component_entries(entries: Seq<(u64, Seq<u8>)>) -> Seq<u8>
    decreases entries.len(),
{
    if entries.len() == 0 {
        Seq::empty()
    } else {
        component_entry(entries[0].0, entries[0].1) + component_entries(entries.drop_first())
    }
}

/// Writing one more component state appends its entry to those before.
pub proof fn component_entries_append(entries: Seq<(u64, Seq<u8>)>, component: u64, bytes: Seq<u8>)
    ensures
        component_entries(entries.push((component, bytes))) == component_entries(entries)
            + component_entry(component, bytes),
    decreases entries.len(),
{
    if entries.len() == 0 {
        assert(entries.push((component, bytes)).drop_first() =~= Seq::<(u64, Seq<u8>)>::empty());
        assert(component_entries(Seq::<(u64, Seq<u8>)>::empty()) =~= Seq::<u8>::empty());
        assert(component_entries(entries) =~= Seq::<u8>::empty());
        assert(component_entry(component, bytes) + Seq::<u8>::empty() =~= component_entry(component, bytes));
    } else {
        assert(entries.push((component, bytes)).drop_first() =~= entries.drop_first().push((component, bytes)));
        component_entries_append(entries.drop_first(), component, bytes);
        let head = component_entry(entries[0].0, entries[0].1);
        assert(head + (component_entries(entries.drop_first()) + component_entry(component, bytes)) =~= (head
            + component_entries(entries.drop_first())) + component_entry(component, bytes));
    }
}

/// An entry written by a local entity for channel `component` with `bytes`:
/// its first two bytes read back as the channel modulo `2^16`, the next two as
/// the length modulo `2^16`, and the bytes follow.
pub proof fn component_entry_layout(component: u64, bytes: Seq<u8>)
    ensures
        component_entry(component, bytes).len() == 4 + bytes.len(),
        le_value(component_entry(component, bytes).take(2)) == component as nat % 0x10000,
        le_value(component_entry(component, bytes).subrange(2, 4)) == bytes.len() % 0x10000,
        component_entry(component, bytes).skip(4) == bytes,
{
    let e = component_entry(component, bytes);
    lemma_le_bytes_len(component as nat % 0x10000, 2);
    lemma_le_bytes_len(bytes.len() % 0x10000, 2);
    reveal_with_fuel(byte_span, 3);
    lemma_le_value_of_bytes(component as nat % 0x10000, 2);
    lemma_le_value_of_bytes(bytes.len() % 0x10000, 2);
    assert(e.take(2) =~= le_bytes(component as nat % 0x10000, 2));
    assert(e.subrange(2, 4) =~= le_bytes(bytes.len() % 0x10000, 2));
    assert(e.skip(4) =~= bytes);
}

/// An entry made of the eight bytes of channel `c`, least significant first, a
/// two-byte length `n` and `n` bytes `d`, followed by `rest`, is read as `c`
/// mapped to `d`, with what `rest` holds read after it; alone, it unpacks
/// without running short to exactly `c` mapped to `d`.
pub proof fn full_channel_entry_unpacks(c: u64, d: Seq<u8>, rest: Seq<u8>)
    requires
        d.len() <= 0xFFFF,
    ensures
        unpacked(le_bytes(c as nat, 8) + le_bytes(d.len(), 2) + d + rest) == Map::<u64, Seq<u8>>::empty().insert(
            c,
            d,
        ).union_prefer_right(unpacked(rest)),
        unpacks_cleanly(le_bytes(c as nat, 8) + le_bytes(d.len(), 2) + d + rest) == unpacks_cleanly(rest),
        unpacks_cleanly(le_bytes(c as nat, 8) + le_bytes(d.len(), 2) + d),
        unpacked(le_bytes(c as nat, 8) + le_bytes(d.len(), 2) + d) == Map::<u64, Seq<u8>>::empty().insert(c, d),
{
    let buf = le_bytes(c as nat, 8) + le_bytes(d.len(), 2) + d + rest;
    lemma_le_bytes_len(c as nat, 8);
    lemma_le_bytes_len(d.len(), 2);
    reveal_with_fuel(byte_span, 9);
    lemma_le_value_of_bytes(c as nat, 8);
    lemma_le_value_of_bytes(d.len(), 2);
    assert(buf.subrange(0, 8) =~= le_bytes(c as nat, 8));
    assert(buf.subrange(8, 10) =~= le_bytes(d.len(), 2));
    assert(buf.skip(10) =~= d + rest);
    assert((d + rest).take(d.len() as int) =~= d);
    assert((d + rest).skip(d.len() as int) =~= rest);
    let empty = Seq::<u8>::empty();
    assert(le_bytes(c as nat, 8) + le_bytes(d.len(), 2) + d + empty =~= le_bytes(c as nat, 8) + le_bytes(
        d.len(),
        2,
    ) + d);
    let alone = le_bytes(c as nat, 8) + le_bytes(d.len(), 2) + d + empty;
    assert(alone.subrange(0, 8) =~= le_bytes(c as nat, 8));
    assert(alone.subrange(8, 10) =~= le_bytes(d.len(), 2));
    assert(alone.skip(10) =~= d + empty);
    assert((d + empty).take(d.len() as int) =~= d);
    assert((d + empty).skip(d.len() as int) =~= empty);
    let x = le_bytes(c as nat, 8) + le_bytes(d.len(), 2) + d;
    assert(x.subrange(0, 8) =~= le_bytes(c as nat, 8));
    assert(x.subrange(8, 10) =~= le_bytes(d.len(), 2));
    assert(x.skip(10) =~= d);
    assert(d.skip(d.len() as int) =~= empty);
    assert(unpacks_cleanly(empty));
    assert(unpacked(empty) =~= Map::<u64, Seq<u8>>::empty());
    assert(Map::<u64, Seq<u8>>::empty().insert(c, d).union_prefer_right(Map::empty()) =~= Map::<
        u64,
        Seq<u8>,
    >::empty().insert(c, d));
}

/// Decides `unpacks_cleanly`, so that a caller can test an update before
/// handing it to `RemoteEntity::unpack_component_updates`.
pub fn can_unpack(buf: &[u8]) -> (ok: bool)
    ensures
        ok == unpacks_cleanly(buf@),
{
    let len = buf.len();
    let mut pos: usize = 0;
    proof {
        assert(buf@.skip(0) =~= buf@);
    }
    while len - pos >= 4
        invariant
            pos <= len,
            len == buf@.len(),
            unpacks_cleanly(buf@.skip(pos as int)) == unpacks_cleanly(buf@),
        decreases len - pos,
    {
        if len - pos < 10 {
            return false;
        }
        let ghost rem = buf@.skip(pos as int);
        proof {
            reveal_with_fuel(byte_span, 3);
            assert(rem.subrange(8, 10) =~= buf@.subrange(pos + 8, pos + 10));
        }
        let seg = read_le(buf, pos + 8, 2) as usize;
        pos = pos + 10;
        assert(rem.skip(10) =~= buf@.skip(pos as int));
        if len - pos >= seg {
            assert(rem.skip(10).skip(seg as int) =~= buf@.skip(pos + seg));
            pos = pos + seg;
        } else {
            return true;
        }
    }
    true
}

/// What a decode system does with a component of a remote entity.
pub enum ComponentSync<'a> {
    /// Nothing: no update came, or it neither has nor had the component.
    Unchanged,
    /// Decode the component from these bytes, its latest state.
    Decode(&'a Vec<u8>),
    /// Remove the component: the latest update left it out.
    Remove,
}

/// An entity whose state follows that of an entity on some remote: the latest
/// update it received, by component channel, with the update's version and the
/// number of the tick it arrived at.
pub struct RemoteEntity {
    incoming: ComponentUpdates,
    last_update: u32,
    sync_id: SyncEntityId,
    version: Version,
}

impl RemoteEntity {
    /// The components' states from the latest update, by channel.
    pub closed spec fn updates(&self) -> Map<u64, Seq<u8>> {
        component_updates(self.incoming).map_values(|v: Vec<u8>| v@)
    }

    pub closed spec fn spec_id(&self) -> SyncEntityId {
        self.sync_id
    }

    pub closed spec fn spec_version(&self) -> Version {
        self.version
    }

    pub closed spec fn spec_last_update(&self) -> u32 {
        self.last_update
    }

    /// A remote entity synchronized as `sync_id`, made at `curr_tick`, that has
    /// received nothing yet (version zero).
    pub fn new(sync_id: SyncEntityId, curr_tick: u32) -> (e: RemoteEntity)
        ensures
            e.spec_id() == sync_id,
            e.spec_version()@ == 0,
            e.spec_last_update() == curr_tick,
            e.updates() =~= Map::empty(),
    {
        let e = RemoteEntity {
            incoming: component_updates_new(),
            version: Version::zero(),
            last_update: curr_tick,
            sync_id,
        };
        assert(e.updates() =~= Map::empty());
        e
    }

    pub fn id(&self) -> (id: SyncEntityId)
        ensures
            id == self.spec_id(),
    {
        self.sync_id
    }

    pub fn version(&self) -> (v: Version)
        ensures
            v == self.spec_version(),
    {
        self.version
    }

    pub fn last_update_tick(&self) -> (t: u32)
        ensures
            t == self.spec_last_update(),
    {
        self.last_update
    }

    /// The latest state received for the component on channel `id`, if any.
    pub fn get_update(&self, id: ChannelId) -> (res: Option<&Vec<u8>>)
        ensures
            self.updates().dom().contains(id@) ==> (res matches Some(v) && v@ == self.updates()[id@]),
            !self.updates().dom().contains(id@) ==> res is None,
    {
        component_updates_get(&self.incoming, id.to_bits())
    }

    /// Whether the entity took in an update since a system's last run at tick
    /// `last_run`, seen from its current run at `this_run`.
    pub fn updated_since(&self, last_run: u32, this_run: u32) -> (b: bool)
        ensures
            b == tick_is_newer(self.spec_last_update(), last_run, this_run),
    {
        tick_newer_than(self.last_update, last_run, this_run)
    }

    /// What a decode system running at `this_run`, last run at `last_run`, does
    /// with the component on `channel`, which the entity has (`present`) or not:
    /// nothing when no update came since; with an update, it decodes the
    /// component's latest state, or removes the component if the update left it out.
    pub fn component_sync(&self, channel: ChannelId, last_run: u32, this_run: u32, present: bool) -> (res: ComponentSync<'_>)
        ensures
            !tick_is_newer(self.spec_last_update(), last_run, this_run) ==> res is Unchanged,
            tick_is_newer(self.spec_last_update(), last_run, this_run) ==> {
                if self.updates().dom().contains(channel@) {
                    res matches ComponentSync::Decode(d) && d@ == self.updates()[channel@]
                } else if present {
                    res is Remove
                } else {
                    res is Unchanged
                }
            },
    {
        if !self.updated_since(last_run, this_run) {
            return ComponentSync::Unchanged;
        }
        match self.get_update(channel) {
            Some(data) => ComponentSync::Decode(data),
            None => if present {
                ComponentSync::Remove
            } else {
                ComponentSync::Unchanged
            },
        }
    }

    /// Takes in `entries`, the component entries of an update that carries
    /// `version` and arrived at `tick`, when that version is newer than the
    /// entity's; an update that is not newer is dropped and changes nothing.
    /// Returns whether the update was taken.
    pub fn take_update(&mut self, entries: &[u8], tick: u32, version: Version) -> (taken: bool)
        requires
            version@ > old(self).spec_version()@ ==> unpacks_cleanly(entries@),
        ensures
            update_taken(*old(self), *final(self), entries@, tick, version, taken),
    {
        if version.is_newer_than(self.version) {
            self.unpack_component_updates(entries, tick, version);
            true
        } else {
            false
        }
    }

    /// Takes in the component entries of an update, whose identifier and version
    /// were read already: the entity moves to `new_version` at `tick`, and its
    /// components' states become those of `buf`, each earlier state dropped.
    pub fn unpack_component_updates(&mut self, buf: &[u8], tick: u32, new_version: Version)
        requires
            unpacks_cleanly(buf@),
        ensures
            final(self).spec_version() == new_version,
            final(self).spec_last_update() == tick,
            final(self).spec_id() == old(self).spec_id(),
            final(self).updates() =~= unpacked(buf@),
    {
        self.version = new_version;
        self.last_update = tick;
        component_updates_clear(&mut self.incoming);
        let len = buf.len();
        let mut pos: usize = 0;
        proof {
            assert(buf@.skip(0) =~= buf@);
            assert(self.updates() =~= Map::empty());
            assert(Map::<u64, Seq<u8>>::empty().union_prefer_right(unpacked(buf@)) =~= unpacked(buf@));
        }
        while len - pos >= 4
            invariant
                pos <= len,
                len == buf@.len(),
                unpacks_cleanly(buf@.skip(pos as int)),
                self.updates().union_prefer_right(unpacked(buf@.skip(pos as int))) =~= unpacked(buf@),
                self.spec_version() == new_version,
                self.spec_last_update() == tick,
                self.spec_id() == old(self).spec_id(),
            decreases len - pos,
        {
            let ghost rem = buf@.skip(pos as int);
            assert(rem.len() >= 10);
            proof {
                reveal_with_fuel(byte_span, 9);
                assert(rem.subrange(0, 8) =~= buf@.subrange(pos as int, pos + 8));
                assert(rem.subrange(8, 10) =~= buf@.subrange(pos + 8, pos + 10));
            }
            let id = read_le(buf, pos, 8) as u64;
            let seg = read_le(buf, pos + 8, 2) as usize;
            let ghost rest = rem.skip(10);
            pos = pos + 10;
            assert(rest =~= buf@.skip(pos as int));
            if len - pos >= seg {
                let data = vstd::slice::slice_to_vec(vstd::slice::slice_subrange(buf, pos, pos + seg));
                let ghost before = self.updates();
                component_updates_insert(&mut self.incoming, id, data);
                proof {
                    assert(data@ =~= rest.take(seg as int));
                    assert(self.updates() =~= before.insert(id, rest.take(seg as int)));
                    assert(rest.skip(seg as int) =~= buf@.skip(pos + seg));
                    assert(before.insert(id, rest.take(seg as int)).union_prefer_right(
                        unpacked(rest.skip(seg as int)),
                    ) =~= before.union_prefer_right(
                        Map::empty().insert(id, rest.take(seg as int)).union_prefer_right(
                            unpacked(rest.skip(seg as int)),
                        ),
                    ));
                }
                pos = pos + seg;
            } else {
                proof {
                    assert(unpacked(rem) =~= Map::empty());
                    assert(self.updates().union_prefer_right(Map::empty()) =~= self.updates());
                }
                return;
            }
        }
        proof {
            assert(unpacked(buf@.skip(pos as int)) =~= Map::empty());
            assert(self.updates().union_prefer_right(Map::empty()) =~= self.updates());
        }
    }
}

/// Whether `after` is `before` once offered the update of `version`, with
/// component entries `entries`, at `tick`: the update is taken exactly when its
/// version is newer, and then the entity moves to it; otherwise nothing changes.
pub open spec fn update_taken(
    before: RemoteEntity,
    after: RemoteEntity,
    entries: Seq<u8>,
    tick: u32,
    version: Version,
    taken: bool,
) -> bool {
    &&& taken == (version@ > before.spec_version()@)
    &&& taken ==> {
        &&& after.spec_version() == version
        &&& after.spec_last_update() == tick
        &&& after.spec_id() == before.spec_id()
        &&& after.updates() =~= unpacked(entries)
    }
    &&& !taken ==> after == before
}

/// Updates reach a remote entity in the order of their versions: once it took
/// an update of version `v`, an update that carries `v` or an older version is
/// dropped, however late it arrives, and leaves the entity as it was.
pub proof fn stale_updates_are_dropped(
    a: RemoteEntity,
    b: RemoteEntity,
    c: RemoteEntity,
    first: Seq<u8>,
    first_tick: u32,
    first_version: Version,
    second: Seq<u8>,
    second_tick: u32,
    second_version: Version,
    second_taken: bool,
)
    requires
        update_taken(a, b, first, first_tick, first_version, true),
        update_taken(b, c, second, second_tick, second_version, second_taken),
        second_version@ <= first_version@,
    ensures
        !second_taken,
        c == b,
{
}

} // verus!
