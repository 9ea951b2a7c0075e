//! The mathematical model of the presence table.
//!
//! A table is an ordered map: `entries` holds what is known of each client,
//! `order` lists the clients in the order in which they were first seen.
//! Every operation of the executable table is specified here as a function on
//! this model.

use vstd::prelude::*;

verus! {

/// What a table knows of one client.
pub struct EntryModel {
    /// Counter of accepted writes; only ever grows while the entry lives.
    pub version: u64,
    /// Local wall-clock time of the last accepted write, in milliseconds.
    pub timestamp: u64,
    /// The client's state; `None` is a tombstone.
    pub payload: Option<Seq<char>>,
}

/// One record of an update: the state of one client at one version.
pub struct RecordModel {
    pub client: u64,
    pub version: u64,
    pub payload: Option<Seq<char>>,
}

/// What a merge did with one record.
#[derive(Clone, Copy, Debug, PartialEq, Eq, Structural)]
pub enum MergeOutcome {
    /// The client was unknown and now has an entry.
    Added,
    /// The client was known and the record replaced its entry with a payload.
    Updated,
    /// The client was known and the record replaced its entry with a tombstone.
    Removed,
    /// The record was not newer than the entry and was ignored.
    Unchanged,
}

/// One write to a table: a local write, or the merge of an update.
pub enum Step {
    SetLocal { payload: Option<Seq<char>>, now: u64 },
    Merge { records: Seq<RecordModel>, now: u64 },
}

/// The state of a table.
#[verifier::ext_equal]
pub struct TableModel {
    /// The client this table may write directly.
    pub local: u64,
    /// The known clients, first seen first.
    pub order: Seq<u64>,
    /// The entry of each known client.
    pub entries: Map<u64, EntryModel>,
}

impl TableModel {
    /// A table that knows no client.
    pub open spec fn empty(local: u64) -> TableModel {
        TableModel { local, order: Seq::empty(), entries: Map::empty() }
    }

    /// `order` names each known client exactly once.
    pub open spec fn wf(self) -> bool {
        &&& self.order.no_duplicates()
        &&& forall|c: u64| self.order.contains(c) <==> self.entries.contains_key(c)
    }

    pub open spec fn contains(self, client: u64) -> bool {
        self.entries.contains_key(client)
    }

    /// Writes `entry` for `client`; a client not seen before goes last.
    pub open spec fn put(self, client: u64, entry: EntryModel) -> TableModel {
        TableModel {
            local: self.local,
            order: if self.contains(client) {
                self.order
            } else {
                self.order.push(client)
            },
            entries: self.entries.insert(client, entry),
        }
    }

    /// Forgets `client` altogether, version included.
    pub open spec fn purge(self, client: u64) -> TableModel {
        if self.contains(client) {
            TableModel {
                local: self.local,
                order: self.order.remove(self.order.index_of(client)),
                entries: self.entries.remove(client),
            }
        } else {
            self
        }
    }

    /// Forgets each of `clients`, in turn.
    pub open spec fn purge_all(self, clients: Seq<u64>) -> TableModel
        decreases clients.len(),
    {
        if clients.len() == 0 {
            self
        } else {
            self.purge_all(clients.drop_last()).purge(clients.last())
        }
    }

    /// The version that the next local write gives the local entry.
    pub open spec fn next_local_version(self) -> int {
        if self.contains(self.local) {
            self.entries[self.local].version + 1
        } else {
            1
        }
    }

    /// The local entry's version can still grow.
    pub open spec fn can_set_local(self) -> bool {
        self.next_local_version() <= u64::MAX
    }

    /// A local write of `payload` at time `now`.
    pub open spec fn set_local(self, payload: Option<Seq<char>>, now: u64) -> TableModel {
        self.put(
            self.local,
            EntryModel { version: self.next_local_version() as u64, timestamp: now, payload },
        )
    }

    /// The local client's state; `None` when it is unknown or a tombstone.
    pub open spec fn local_payload(self) -> Option<Seq<char>> {
        if self.contains(self.local) {
            self.entries[self.local].payload
        } else {
            None
        }
    }

    /// A record is accepted when its client is unknown or its version is
    /// strictly greater than the entry's.
    pub open spec fn accepts(self, rec: RecordModel) -> bool {
        !self.contains(rec.client) || self.entries[rec.client].version < rec.version
    }

    /// What merging `rec` reports.
    pub open spec fn outcome(self, rec: RecordModel) -> MergeOutcome {
        if !self.contains(rec.client) {
            MergeOutcome::Added
        } else if self.entries[rec.client].version < rec.version {
            if rec.payload is Some {
                MergeOutcome::Updated
            } else {
                MergeOutcome::Removed
            }
        } else {
            MergeOutcome::Unchanged
        }
    }

    /// Merges one record at time `now`: an accepted record replaces the
    /// entry wholesale, any other leaves the table as it is.
    pub open spec fn merge_one(self, rec: RecordModel, now: u64) -> TableModel {
        if self.accepts(rec) {
            self.put(
                rec.client,
                EntryModel { version: rec.version, timestamp: now, payload: rec.payload },
            )
        } else {
            self
        }
    }

    /// Merges the records of an update, first to last, at time `now`.
    pub open spec fn merge_all(self, recs: Seq<RecordModel>, now: u64) -> TableModel
        decreases recs.len(),
    {
        if recs.len() == 0 {
            self
        } else {
            self.merge_all(recs.drop_last(), now).merge_one(recs.last(), now)
        }
    }

    /// The report of `merge_all`: for each record its client and what the
    /// merge did with it, given the records before it.
    pub open spec fn outcomes(self, recs: Seq<RecordModel>, now: u64) -> Seq<(u64, MergeOutcome)> {
        Seq::new(
            recs.len(),
            |i: int| (recs[i].client, self.merge_all(recs.take(i), now).outcome(recs[i])),
        )
    }

    /// The table after one write.
    pub open spec fn step(self, step: Step) -> TableModel {
        match step {
            Step::SetLocal { payload, now } => self.set_local(payload, now),
            Step::Merge { records, now } => self.merge_all(records, now),
        }
    }

    /// The table after a history of writes, first to last.
    pub open spec fn run(self, steps: Seq<Step>) -> TableModel
        decreases steps.len(),
    {
        if steps.len() == 0 {
            self
        } else {
            self.run(steps.drop_last()).step(steps.last())
        }
    }

    /// Every local write of the history happens while the local version can
    /// still grow.
    pub open spec fn admits(self, steps: Seq<Step>) -> bool {
        forall|k: int|
            0 <= k < steps.len() && #[trigger] steps[k] is SetLocal ==> self.run(
                steps.take(k),
            ).can_set_local()
    }

    /// The record that an update carries for a known client.
    pub open spec fn record_of(self, client: u64) -> RecordModel {
        RecordModel {
            client,
            version: self.entries[client].version,
            payload: self.entries[client].payload,
        }
    }

    /// The clients that an update derived for `selection` speaks of: all
    /// known clients, or those among them that `selection` names, in table
    /// order.
    pub open spec fn selected(self, selection: Option<Seq<u64>>) -> Seq<u64> {
        match selection {
            None => self.order,
            Some(ids) => self.order.filter(named_by(ids)),
        }
    }

    /// The records that an update carries for `clients`, in their order.
    pub open spec fn records_of(self, clients: Seq<u64>) -> Seq<RecordModel> {
        clients.map_values(|c: u64| self.record_of(c))
    }

    /// The records of an update derived for `selection`, tombstones included.
    pub open spec fn records(self, selection: Option<Seq<u64>>) -> Seq<RecordModel> {
        self.records_of(self.selected(selection))
    }

    /// True of the clients that are present: not a tombstone.
    pub open spec fn is_present(self) -> spec_fn(u64) -> bool {
        |c: u64| self.entries[c].payload is Some
    }

    /// The clients that are present, in table order.
    pub open spec fn present_clients(self) -> Seq<u64> {
        self.order.filter(self.is_present())
    }

    /// The externally visible state: each present client with its payload.
    pub open spec fn snapshot(self) -> Seq<(u64, Seq<char>)> {
        self.present_clients().map_values(|c: u64| (c, self.entries[c].payload->0))
    }
}

/// True of the clients that occur in `ids`.
pub open spec fn named_by(ids: Seq<u64>) -> spec_fn(u64) -> bool {
    |c: u64| ids.contains(c)
}

/// Writing an entry keeps a table well-formed.
pub proof fn lemma_put_wf(t: TableModel, client: u64, entry: EntryModel)
    requires
        t.wf(),
    ensures
        t.put(client, entry).wf(),
{
    let after = t.put(client, entry);
    if t.contains(client) {
        assert(t.order.contains(client));
        assert forall|c: u64| after.order.contains(c) <==> after.entries.contains_key(c) by {
            assert(t.order.contains(c) <==> t.entries.contains_key(c));
        }
    } else {
        assert(!t.order.contains(client));
        assert forall|i: int, j: int|
            0 <= i < after.order.len() && 0 <= j < after.order.len() && i != j implies after.order[i]
            != after.order[j] by {
            if i < t.order.len() {
                assert(t.order.contains(t.order[i]));
            }
            if j < t.order.len() {
                assert(t.order.contains(t.order[j]));
            }
        }
        assert forall|c: u64| after.order.contains(c) <==> after.entries.contains_key(c) by {
            assert(t.order.contains(c) <==> t.entries.contains_key(c));
            if after.order.contains(c) {
                let j = after.order.index_of(c);
                assert(after.order[j] == c);
                if j < t.order.len() {
                    assert(t.order[j] == c);
                }
            }
            if t.order.contains(c) {
                let j = t.order.index_of(c);
                assert(after.order[j] == c);
            }
            if c == client {
                assert(after.order[t.order.len() as int] == c);
            }
        }
    }
}

/// Merging keeps a table well-formed.
pub proof fn lemma_merge_wf(t: TableModel, recs: Seq<RecordModel>, now: u64)
    requires
        t.wf(),
    ensures
        t.merge_all(recs, now).wf(),
    decreases recs.len(),
{
    if recs.len() > 0 {
        lemma_merge_wf(t, recs.drop_last(), now);
        let mid = t.merge_all(recs.drop_last(), now);
        let rec = recs.last();
        lemma_put_wf(
            mid,
            rec.client,
            EntryModel { version: rec.version, timestamp: now, payload: rec.payload },
        );
    }
}

} // verus!
