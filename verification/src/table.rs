//! The presence table: the executable state and its operations.

use crate::error::Error;
use crate::model::{
    lemma_merge_wf, lemma_put_wf, named_by, EntryModel, MergeOutcome, RecordModel, TableModel,
};
use crate::wire::{
    all_encodable, apply_bytes, decode_records, decode_update, encodable, encode_record_into,
    encode_records, payload_model, record_models, UpdateRecord,
};
use vstd::prelude::*;

verus! {

/// What the table knows of one client.
#[derive(Debug, PartialEq, Eq)]
pub struct PresenceEntry {
    /// Counter of accepted writes.
    pub version: u64,
    /// Local wall-clock time of the last accepted write, in milliseconds.
    pub timestamp: u64,
    /// The client's state; `None` is a tombstone.
    pub payload: Option<String>,
}

impl View for PresenceEntry {
    type V = EntryModel;

    open spec fn view(&self) -> EntryModel {
        EntryModel {
            version: self.version,
            timestamp: self.timestamp,
            payload: payload_model(self.payload),
        }
    }
}

/// One client and its entry.
struct Slot {
    client: u64,
    entry: PresenceEntry,
}

/// The clients of `slots`, in order.
spec fn clients_of(slots: Seq<Slot>) -> Seq<u64> {
    slots.map_values(|s: Slot| s.client)
}

/// The entry that `slots` holds for each client.
spec fn entries_of(slots: Seq<Slot>) -> Map<u64, EntryModel> {
    Map::new(
        |c: u64| clients_of(slots).contains(c),
        |c: u64| slots[clients_of(slots).index_of(c)].entry@,
    )
}

/// The table that `slots` stand for.
spec fn model_of(local: u64, slots: Seq<Slot>) -> TableModel {
    TableModel { local, order: clients_of(slots), entries: entries_of(slots) }
}

/// With distinct clients, the entry of the client at `i` is the one stored at `i`.
proof fn lemma_entry_at(slots: Seq<Slot>, i: int)
    requires
        clients_of(slots).no_duplicates(),
        0 <= i < slots.len(),
    ensures
        clients_of(slots).contains(slots[i].client),
        clients_of(slots).index_of(slots[i].client) == i,
        entries_of(slots).contains_key(slots[i].client),
        entries_of(slots)[slots[i].client] == slots[i].entry@,
{
    let cs = clients_of(slots);
    assert(cs[i] == slots[i].client);
    let j = cs.index_of(slots[i].client);
    assert(0 <= j < cs.len() && cs[j] == cs[i]);
}

/// Slots with distinct clients make a well-formed table.
proof fn lemma_model_wf(local: u64, slots: Seq<Slot>)
    requires
        clients_of(slots).no_duplicates(),
    ensures
        model_of(local, slots).wf(),
{
}

/// Replacing the entry at `i` is a `put` for its client.
proof fn lemma_replace(local: u64, slots: Seq<Slot>, i: int, slot: Slot)
    requires
        clients_of(slots).no_duplicates(),
        0 <= i < slots.len(),
        slot.client == slots[i].client,
    ensures
        clients_of(slots.update(i, slot)).no_duplicates(),
        model_of(local, slots.update(i, slot)) == model_of(local, slots).put(
            slot.client,
            slot.entry@,
        ),
{
    let after = slots.update(i, slot);
    assert(clients_of(after) =~= clients_of(slots));
    lemma_entry_at(slots, i);
    assert forall|c: u64| entries_of(after).contains_key(c) implies #[trigger] entries_of(after)[c]
        == entries_of(slots).insert(slot.client, slot.entry@)[c] by {
        let j = clients_of(after).index_of(c);
        assert(0 <= j < after.len() && clients_of(after)[j] == c);
        lemma_entry_at(after, j);
        lemma_entry_at(slots, j);
    }
    assert(entries_of(after) =~= entries_of(slots).insert(slot.client, slot.entry@));
}

/// Appending a slot for an unknown client is a `put` for it.
proof fn lemma_append(local: u64, slots: Seq<Slot>, slot: Slot)
    requires
        clients_of(slots).no_duplicates(),
        !clients_of(slots).contains(slot.client),
    ensures
        clients_of(slots.push(slot)).no_duplicates(),
        model_of(local, slots.push(slot)) == model_of(local, slots).put(slot.client, slot.entry@),
{
    let after = slots.push(slot);
    assert(clients_of(after) =~= clients_of(slots).push(slot.client));
    assert forall|c: u64| #[trigger] clients_of(after).contains(c) <==> (clients_of(
        slots,
    ).contains(c) || c == slot.client) by {
        if clients_of(slots).contains(c) {
            let j = clients_of(slots).index_of(c);
            assert(clients_of(after)[j] == c);
        }
        if c == slot.client {
            assert(clients_of(after)[slots.len() as int] == c);
        }
    }
    assert forall|c: u64| entries_of(after).contains_key(c) implies #[trigger] entries_of(after)[c]
        == entries_of(slots).insert(slot.client, slot.entry@)[c] by {
        let j = clients_of(after).index_of(c);
        assert(0 <= j < after.len() && clients_of(after)[j] == c);
        lemma_entry_at(after, j);
        if j < slots.len() {
            lemma_entry_at(slots, j);
        }
    }
    assert(entries_of(after) =~= entries_of(slots).insert(slot.client, slot.entry@));
}

/// Taking the slot at `i` out is a `purge` of its client.
proof fn lemma_take_out(local: u64, slots: Seq<Slot>, i: int)
    requires
        clients_of(slots).no_duplicates(),
        0 <= i < slots.len(),
    ensures
        clients_of(slots.remove(i)).no_duplicates(),
        model_of(local, slots.remove(i)) == model_of(local, slots).purge(slots[i].client),
{
    let after = slots.remove(i);
    let gone = slots[i].client;
    lemma_entry_at(slots, i);
    assert(clients_of(after) =~= clients_of(slots).remove(i));
    assert forall|c: u64| #[trigger] clients_of(after).contains(c) <==> (clients_of(
        slots,
    ).contains(c) && c != gone) by {
        if clients_of(after).contains(c) {
            let j = clients_of(after).index_of(c);
            assert(0 <= j < after.len() && clients_of(after)[j] == c);
            if j < i {
                assert(clients_of(slots)[j] == c);
            } else {
                assert(clients_of(slots)[j + 1] == c);
            }
        }
        if clients_of(slots).contains(c) && c != gone {
            let j = clients_of(slots).index_of(c);
            assert(0 <= j < slots.len() && clients_of(slots)[j] == c);
            if j < i {
                assert(clients_of(after)[j] == c);
            } else {
                assert(clients_of(after)[j - 1] == c);
            }
        }
    }
    assert forall|c: u64| entries_of(after).contains_key(c) implies #[trigger] entries_of(after)[c]
        == entries_of(slots).remove(gone)[c] by {
        let j = clients_of(after).index_of(c);
        assert(0 <= j < after.len() && clients_of(after)[j] == c);
        lemma_entry_at(after, j);
        if j < i {
            lemma_entry_at(slots, j);
        } else {
            lemma_entry_at(slots, j + 1);
        }
    }
    assert(entries_of(after) =~= entries_of(slots).remove(gone));
}

/// A copy of an optional text.
fn copy_payload(payload: &Option<String>) -> (copy: Option<String>)
    ensures
        payload_model(copy) == payload_model(*payload),
{
    match payload {
        Some(text) => Some(text.clone()),
        None => None,
    }
}

/// The position of `client` among `slots`.
fn position(slots: &Vec<Slot>, client: u64) -> (found: Option<usize>)
    ensures
        match found {
            Some(i) => i < slots.len() && slots[i as int].client == client,
            None => !clients_of(slots@).contains(client),
        },
{
    let mut i: usize = 0;
    while i < slots.len()
        invariant
            i <= slots.len(),
            forall|j: int| 0 <= j < i ==> slots[j].client != client,
        decreases slots.len() - i,
    {
        if slots[i].client == client {
            return Some(i);
        }
        i += 1;
    }
    proof {
        if clients_of(slots@).contains(client) {
            let j = clients_of(slots@).index_of(client);
            assert(clients_of(slots@)[j] == client);
        }
    }
    None
}

/// Whether `client` occurs in `ids`.
fn is_named(ids: &[u64], client: u64) -> (named: bool)
    ensures
        named == ids@.contains(client),
{
    let mut i: usize = 0;
    while i < ids.len()
        invariant
            i <= ids.len(),
            forall|j: int| 0 <= j < i ==> ids@[j] != client,
        decreases ids.len() - i,
    {
        if ids[i] == client {
            return true;
        }
        i += 1;
    }
    false
}

/// What a merge reports: for each record of the update, in order, its client
/// and what became of it.
pub type MergeResult = Vec<(u64, MergeOutcome)>;

/// The clients that a caller selects, as a sequence.
pub open spec fn selection_model(client_ids: Option<&[u64]>) -> Option<Seq<u64>> {
    match client_ids {
        Some(ids) => Some(ids@),
        None => None,
    }
}

/// Those of `clients` that `selection` picks, in order.
spec fn pick(clients: Seq<u64>, selection: Option<Seq<u64>>) -> Seq<u64> {
    match selection {
        None => clients,
        Some(ids) => clients.filter(named_by(ids)),
    }
}

/// Picking from a sequence grown by one client picks that client last, if
/// at all.
proof fn lemma_pick_push(clients: Seq<u64>, client: u64, selection: Option<Seq<u64>>)
    ensures
        pick(clients.push(client), selection) == if selection matches Some(ids)
            && !ids.contains(client) {
            pick(clients, selection)
        } else {
            pick(clients, selection).push(client)
        },
{
    if let Some(ids) = selection {
        Seq::lemma_filter_push(clients, client, named_by(ids));
    }
}

/// A client of the sequence that the selection admits is picked.
proof fn lemma_pick_contains(clients: Seq<u64>, i: int, selection: Option<Seq<u64>>)
    requires
        0 <= i < clients.len(),
        selection matches Some(ids) ==> ids.contains(clients[i]),
    ensures
        pick(clients, selection).contains(clients[i]),
{
    if let Some(ids) = selection {
        clients.lemma_filter_contains(named_by(ids), i);
    }
}

/// The views of the pairs of a snapshot.
pub open spec fn snapshot_model(pairs: Seq<(u64, String)>) -> Seq<(u64, Seq<char>)> {
    pairs.map_values(|p: (u64, String)| (p.0, p.1@))
}

/// The presence table of one session participant.
///
/// It knows the state of every client it has heard of, may write the state of
/// its own client directly, and learns of the others by merging updates.
pub struct PresenceTable {
    local: u64,
    slots: Vec<Slot>,
}

impl View for PresenceTable {
    type V = TableModel;

    closed spec fn view(&self) -> TableModel {
        model_of(self.local, self.slots@)
    }
}

impl PresenceTable {
    /// No client has two slots.
    #[verifier::type_invariant]
    spec fn distinct_clients(self) -> bool {
        clients_of(self.slots@).no_duplicates()
    }

    /// A table for the participant `local_client_id` that knows no client yet.
    pub fn new(local_client_id: u64) -> (table: Self)
        ensures
            table@ == TableModel::empty(local_client_id),
            table@.wf(),
    {
        let table = PresenceTable { local: local_client_id, slots: Vec::new() };
        proof {
            assert(clients_of(table.slots@) =~= Seq::<u64>::empty());
            assert(entries_of(table.slots@) =~= Map::<u64, EntryModel>::empty());
        }
        table
    }

    /// The client that this table may write directly.
    pub fn local_client_id(&self) -> (id: u64)
        ensures
            id == self@.local,
    {
        self.local
    }

    /// Writes `entry` for `client`.
    fn put(&mut self, client: u64, entry: PresenceEntry)
        ensures
            final(self)@ == old(self)@.put(client, entry@),
            final(self)@.wf(),
    {
        proof {
            use_type_invariant(&*self);
            lemma_model_wf(self.local, self.slots@);
            lemma_put_wf(self@, client, entry@);
        }
        let mut slots: Vec<Slot> = Vec::new();
        core::mem::swap(&mut slots, &mut self.slots);
        let slot = Slot { client, entry };
        let ghost before = slots@;
        match position(&slots, client) {
            Some(i) => {
                proof {
                    lemma_replace(self.local, before, i as int, slot);
                }
                slots.set(i, slot);
            },
            None => {
                proof {
                    lemma_append(self.local, before, slot);
                }
                slots.push(slot);
            },
        }
        self.slots = slots;
    }

    /// The known clients, tombstones included, first seen first.
    pub fn clients(&self) -> (ids: Vec<u64>)
        ensures
            ids@ == self@.order,
            self@.wf(),
    {
        proof {
            use_type_invariant(self);
            lemma_model_wf(self.local, self.slots@);
        }
        let mut ids: Vec<u64> = Vec::new();
        let mut i: usize = 0;
        while i < self.slots.len()
            invariant
                i <= self.slots.len(),
                ids@ == clients_of(self.slots@).take(i as int),
            decreases self.slots.len() - i,
        {
            ids.push(self.slots[i].client);
            proof {
                assert(ids@ =~= clients_of(self.slots@).take(i + 1));
            }
            i += 1;
        }
        proof {
            assert(clients_of(self.slots@).take(i as int) =~= clients_of(self.slots@));
        }
        ids
    }

    /// Whether the local client's version can still grow, that is, whether
    /// its state can be set once more.
    pub fn can_set_local_state(&self) -> (ok: bool)
        ensures
            ok == self@.can_set_local(),
    {
        proof {
            use_type_invariant(self);
        }
        match position(&self.slots, self.local) {
            Some(i) => {
                proof {
                    lemma_entry_at(self.slots@, i as int);
                }
                self.slots[i].entry.version < u64::MAX
            },
            None => true,
        }
    }

    /// Sets the local client's state at time `now`, the wall-clock time that
    /// the caller has read: the entry gets `payload`, the next version and
    /// `now` as its timestamp. `None` leaves a tombstone.
    ///
    /// The version must have room to grow; [`Self::can_set_local_state`] tells.
    pub fn set_local_state(&mut self, payload: Option<String>, now: u64)
        requires
            old(self)@.can_set_local(),
        ensures
            final(self)@ == old(self)@.set_local(payload_model(payload), now),
            final(self)@.wf(),
    {
        proof {
            use_type_invariant(&*self);
        }
        let version = match position(&self.slots, self.local) {
            Some(i) => {
                proof {
                    lemma_entry_at(self.slots@, i as int);
                }
                self.slots[i].entry.version + 1
            },
            None => 1,
        };
        let local = self.local;
        self.put(local, PresenceEntry { version, timestamp: now, payload });
    }

    /// The local client's state; `None` when it is unknown or a tombstone.
    pub fn get_local_state(&self) -> (payload: Option<String>)
        ensures
            payload_model(payload) == self@.local_payload(),
    {
        proof {
            use_type_invariant(self);
        }
        match position(&self.slots, self.local) {
            Some(i) => {
                proof {
                    lemma_entry_at(self.slots@, i as int);
                }
                copy_payload(&self.slots[i].entry.payload)
            },
            None => None,
        }
    }

    /// What the table knows of `client`, tombstone or not; `None` when the
    /// client is unknown.
    pub fn entry(&self, client: u64) -> (found: Option<PresenceEntry>)
        ensures
            match found {
                Some(entry) => self@.contains(client) && entry@ == self@.entries[client],
                None => !self@.contains(client),
            },
    {
        proof {
            use_type_invariant(self);
        }
        match position(&self.slots, client) {
            Some(i) => {
                proof {
                    lemma_entry_at(self.slots@, i as int);
                }
                let stored = &self.slots[i].entry;
                Some(
                    PresenceEntry {
                        version: stored.version,
                        timestamp: stored.timestamp,
                        payload: copy_payload(&stored.payload),
                    },
                )
            },
            None => None,
        }
    }

    /// Deletes the entry of `client`, local or not, with its version; an
    /// unknown client is left unknown.
    pub fn remove_state(&mut self, client: u64)
        ensures
            final(self)@ == old(self)@.purge(client),
            final(self)@.wf(),
    {
        proof {
            use_type_invariant(&*self);
        }
        let mut slots: Vec<Slot> = Vec::new();
        core::mem::swap(&mut slots, &mut self.slots);
        let ghost before = slots@;
        match position(&slots, client) {
            Some(i) => {
                proof {
                    lemma_take_out(self.local, before, i as int);
                }
                slots.remove(i);
            },
            None => {},
        }
        proof {
            lemma_model_wf(self.local, slots@);
        }
        self.slots = slots;
    }

    /// Deletes the entries of all of `clients`.
    pub fn remove_states(&mut self, clients: &[u64])
        ensures
            final(self)@ == old(self)@.purge_all(clients@),
            final(self)@.wf(),
    {
        let mut i: usize = 0;
        proof {
            use_type_invariant(&*self);
            lemma_model_wf(self.local, self.slots@);
        }
        while i < clients.len()
            invariant
                i <= clients.len(),
                self@ == old(self)@.purge_all(clients@.take(i as int)),
                self@.wf(),
            decreases clients.len() - i,
        {
            self.remove_state(clients[i]);
            proof {
                assert(clients@.take(i + 1).drop_last() =~= clients@.take(i as int));
            }
            i += 1;
        }
        proof {
            assert(clients@.take(i as int) =~= clients@);
        }
    }

    /// Merges one record at time `now`.
    fn merge_record(&mut self, rec: &UpdateRecord, now: u64) -> (outcome: MergeOutcome)
        ensures
            final(self)@ == old(self)@.merge_one(rec@, now),
            outcome == old(self)@.outcome(rec@),
    {
        proof {
            use_type_invariant(&*self);
        }
        let outcome = match position(&self.slots, rec.client) {
            None => MergeOutcome::Added,
            Some(i) => {
                proof {
                    lemma_entry_at(self.slots@, i as int);
                }
                if self.slots[i].entry.version < rec.version {
                    if rec.payload.is_some() {
                        MergeOutcome::Updated
                    } else {
                        MergeOutcome::Removed
                    }
                } else {
                    return MergeOutcome::Unchanged;
                }
            },
        };
        self.put(
            rec.client,
            PresenceEntry {
                version: rec.version,
                timestamp: now,
                payload: copy_payload(&rec.payload),
            },
        );
        outcome
    }

    /// Merges `records`, first to last, at time `now`.
    ///
    /// A record is accepted, and replaces the entry of its client wholesale,
    /// when that client is unknown or the record's version is strictly greater
    /// than the entry's; any other record is ignored. The local client is no
    /// exception.
    pub fn merge_records(&mut self, records: &Vec<UpdateRecord>, now: u64) -> (report: MergeResult)
        ensures
            final(self)@ == old(self)@.merge_all(record_models(records@), now),
            final(self)@.wf(),
            report@ == old(self)@.outcomes(record_models(records@), now),
    {
        proof {
            use_type_invariant(&*self);
            lemma_model_wf(self.local, self.slots@);
            lemma_merge_wf(self@, record_models(records@), now);
        }
        let mut report: MergeResult = Vec::new();
        let mut i: usize = 0;
        let ghost models = record_models(records@);
        while i < records.len()
            invariant
                i <= records.len(),
                models == record_models(records@),
                self@ == old(self)@.merge_all(models.take(i as int), now),
                report@.len() == i,
                forall|j: int|
                    0 <= j < i ==> report@[j] == (
                        models[j].client,
                        old(self)@.merge_all(models.take(j), now).outcome(models[j]),
                    ),
            decreases records.len() - i,
        {
            let outcome = self.merge_record(&records[i], now);
            report.push((records[i].client, outcome));
            proof {
                assert(models.take(i + 1).drop_last() =~= models.take(i as int));
            }
            i += 1;
        }
        proof {
            assert(models.take(i as int) =~= models);
            assert(report@ =~= old(self)@.outcomes(models, now));
        }
        report
    }

    /// Applies an update at time `now`, the wall-clock time that the caller
    /// has read.
    ///
    /// Well-formed bytes are merged as [`Self::merge_records`] merges their
    /// records. Malformed bytes are rejected whole: the table stays as it was.
    pub fn apply_update(&mut self, bytes: &[u8], now: u64) -> (result: Result<
        MergeResult,
        Error,
    >)
        ensures
            final(self)@ == apply_bytes(old(self)@, bytes@, now),
            final(self)@.wf(),
            match decode_records(bytes@) {
                Some(recs) => result matches Ok(report) && report@ == old(self)@.outcomes(
                    recs,
                    now,
                ),
                None => result matches Err(e) && e == Error::DecodeError,
            },
    {
        proof {
            use_type_invariant(&*self);
            lemma_model_wf(self.local, self.slots@);
        }
        match decode_update(bytes) {
            Ok(records) => Ok(self.merge_records(&records, now)),
            Err(e) => Err(e),
        }
    }

    /// The update that carries the current `(version, payload)` of the
    /// selected clients, tombstones included: of every known client where
    /// `client_ids` is `None`, else of the known clients among `client_ids`.
    /// Records come in table order; an unknown client is passed over.
    ///
    /// Fails, with no bytes produced, exactly where a selected payload is too
    /// long for the wire format.
    pub fn derive_update(&self, client_ids: Option<&[u64]>) -> (result: Result<Vec<u8>, Error>)
        ensures
            self@.wf(),
            match result {
                Ok(bytes) => {
                    &&& all_encodable(self@.records(selection_model(client_ids)))
                    &&& bytes@ == encode_records(self@.records(selection_model(client_ids)))
                },
                Err(e) => {
                    &&& e == Error::EncodeError
                    &&& !all_encodable(self@.records(selection_model(client_ids)))
                },
            },
    {
        proof {
            use_type_invariant(self);
            lemma_model_wf(self.local, self.slots@);
        }
        let ghost clients = clients_of(self.slots@);
        let ghost sel = selection_model(client_ids);
        let ghost model = self@;
        let mut out: Vec<u8> = Vec::new();
        let mut i: usize = 0;
        proof {
            assert(clients.take(0) =~= Seq::<u64>::empty());
            reveal(Seq::filter);
        }
        while i < self.slots.len()
            invariant
                i <= self.slots.len(),
                clients == clients_of(self.slots@),
                clients.no_duplicates(),
                sel == selection_model(client_ids),
                model == self@,
                all_encodable(model.records_of(pick(clients.take(i as int), sel))),
                out@ == encode_records(model.records_of(pick(clients.take(i as int), sel))),
            decreases self.slots.len() - i,
        {
            let slot = &self.slots[i];
            let wanted = match client_ids {
                None => true,
                Some(ids) => is_named(ids, slot.client),
            };
            let ghost seen = pick(clients.take(i as int), sel);
            proof {
                lemma_entry_at(self.slots@, i as int);
                assert(clients.take(i + 1) =~= clients.take(i as int).push(clients[i as int]));
                lemma_pick_push(clients.take(i as int), clients[i as int], sel);
            }
            if wanted {
                let ok = encode_record_into(
                    slot.client,
                    slot.entry.version,
                    &slot.entry.payload,
                    &mut out,
                );
                let ghost rec = model.record_of(slot.client);
                if !ok {
                    proof {
                        lemma_pick_contains(clients, i as int, sel);
                        let all = pick(clients, sel);
                        let k = all.index_of(slot.client);
                        assert(model.records_of(all)[k] == rec);
                    }
                    return Err(Error::EncodeError);
                }
                proof {
                    let grown = model.records_of(seen.push(slot.client));
                    assert(grown.drop_last() =~= model.records_of(seen));
                    assert(grown.last() == rec);
                    assert forall|j: int| 0 <= j < grown.len() implies encodable(
                        #[trigger] grown[j],
                    ) by {
                        if j < seen.len() {
                            assert(grown[j] == model.records_of(seen)[j]);
                        }
                    }
                }
            }
            i += 1;
        }
        proof {
            assert(clients.take(i as int) =~= clients);
        }
        Ok(out)
    }

    /// The externally visible state: each client that is present (known and
    /// not a tombstone) with its payload, in table order. Reads only.
    pub fn snapshot(&self) -> (pairs: Vec<(u64, String)>)
        ensures
            self@.wf(),
            snapshot_model(pairs@) == self@.snapshot(),
    {
        proof {
            use_type_invariant(self);
            lemma_model_wf(self.local, self.slots@);
        }
        let ghost clients = clients_of(self.slots@);
        let ghost model = self@;
        let mut pairs: Vec<(u64, String)> = Vec::new();
        let mut i: usize = 0;
        proof {
            assert(clients.take(0) =~= Seq::<u64>::empty());
            reveal(Seq::filter);
        }
        while i < self.slots.len()
            invariant
                i <= self.slots.len(),
                clients == clients_of(self.slots@),
                clients.no_duplicates(),
                model == self@,
                snapshot_model(pairs@) == clients.take(i as int).filter(
                    model.is_present(),
                ).map_values(|c: u64| (c, model.entries[c].payload->0)),
            decreases self.slots.len() - i,
        {
            let slot = &self.slots[i];
            let ghost before = snapshot_model(pairs@);
            let ghost seen = clients.take(i as int);
            proof {
                lemma_entry_at(self.slots@, i as int);
                assert(clients.take(i + 1) =~= seen.push(clients[i as int]));
                Seq::lemma_filter_push(seen, clients[i as int], model.is_present());
            }
            match &slot.entry.payload {
                Some(text) => {
                    let pair = (slot.client, text.clone());
                    proof {
                        assert(snapshot_model(pairs@.push(pair)) =~= before.push((pair.0, pair.1@)));
                    }
                    pairs.push(pair);
                },
                None => {},
            }
            proof {
                assert(snapshot_model(pairs@) =~= clients.take(i + 1).filter(
                    model.is_present(),
                ).map_values(|c: u64| (c, model.entries[c].payload->0)));
            }
            i += 1;
        }
        proof {
            assert(clients.take(i as int) =~= clients);
        }
        pairs
    }
}

} // verus!
