//! What holds of the table whatever is done with it, proved over the model.

use crate::model::{
    lemma_merge_wf, lemma_put_wf, named_by, EntryModel, MergeOutcome, RecordModel, Step, TableModel,
};
use crate::wire::{
    all_encodable, apply_bytes, decode_records, encode_records, lemma_decode_encode,
};
use vstd::prelude::*;

verus! {

/// An update of one record is merged as that record is.
pub proof fn lemma_merge_single(t: TableModel, rec: RecordModel, now: u64)
    ensures
        t.merge_all(seq![rec], now) == t.merge_one(rec, now),
{
    reveal_with_fuel(TableModel::merge_all, 2);
    assert(seq![rec].drop_last() =~= Seq::<RecordModel>::empty());
}

/// A merge forgets no client and lowers no version.
pub proof fn lemma_merge_grows(t: TableModel, recs: Seq<RecordModel>, now: u64, client: u64)
    requires
        t.contains(client),
    ensures
        t.merge_all(recs, now).contains(client),
        t.merge_all(recs, now).entries[client].version >= t.entries[client].version,
    decreases recs.len(),
{
    if recs.len() > 0 {
        lemma_merge_grows(t, recs.drop_last(), now, client);
    }
}

/// Every accepted write to a known client strictly raises its version: a
/// local write by one, a merged record to the record's version.
pub proof fn lemma_accepted_write_raises_version(
    t: TableModel,
    rec: RecordModel,
    payload: Option<Seq<char>>,
    now: u64,
)
    ensures
        t.contains(rec.client) && t.accepts(rec) ==> t.merge_one(rec, now).entries[rec.client].version
            > t.entries[rec.client].version,
        t.contains(t.local) && t.can_set_local() ==> t.set_local(payload, now).entries[t.local].version
            == t.entries[t.local].version + 1,
        !t.contains(t.local) ==> t.set_local(payload, now).entries[t.local].version == 1,
{
}

/// After a merge, none of the merged records would be accepted again.
proof fn lemma_merged_records_are_stale(
    t: TableModel,
    recs: Seq<RecordModel>,
    now: u64,
    i: int,
)
    requires
        0 <= i < recs.len(),
    ensures
        t.merge_all(recs, now).contains(recs[i].client),
        !t.merge_all(recs, now).accepts(recs[i]),
    decreases recs.len(),
{
    let mid = t.merge_all(recs.drop_last(), now);
    if i < recs.len() - 1 {
        lemma_merged_records_are_stale(t, recs.drop_last(), now, i);
        assert(recs.drop_last()[i] == recs[i]);
        lemma_merge_single(mid, recs.last(), now);
        lemma_merge_grows(mid, seq![recs.last()], now, recs[i].client);
    }
}

/// A merge of records of which none is accepted changes nothing and reports
/// every record as unchanged.
proof fn lemma_stale_merge_is_noop(t: TableModel, recs: Seq<RecordModel>, now: u64)
    requires
        forall|i: int| 0 <= i < recs.len() ==> !t.accepts(#[trigger] recs[i]),
    ensures
        t.merge_all(recs, now) == t,
    decreases recs.len(),
{
    if recs.len() > 0 {
        assert forall|i: int| 0 <= i < recs.drop_last().len() implies !t.accepts(
            #[trigger] recs.drop_last()[i],
        ) by {
            assert(recs.drop_last()[i] == recs[i]);
        }
        lemma_stale_merge_is_noop(t, recs.drop_last(), now);
        assert(!t.accepts(recs[recs.len() - 1]));
    }
}

/// Idempotence. Applying the same update twice leaves the table exactly as
/// the first application left it, whenever the two happen: the second
/// application changes no entry, no version and no timestamp, and reports
/// every record as unchanged.
pub proof fn lemma_merge_idempotent(t: TableModel, recs: Seq<RecordModel>, first: u64, second: u64)
    ensures
        t.merge_all(recs, first).merge_all(recs, second) == t.merge_all(recs, first),
        t.merge_all(recs, first).outcomes(recs, second) == Seq::new(
            recs.len(),
            |i: int| (recs[i].client, MergeOutcome::Unchanged),
        ),
{
    let once = t.merge_all(recs, first);
    assert forall|i: int| 0 <= i < recs.len() implies !once.accepts(#[trigger] recs[i]) by {
        lemma_merged_records_are_stale(t, recs, first, i);
    }
    lemma_stale_merge_is_noop(once, recs, second);
    assert forall|i: int| 0 <= i < recs.len() implies #[trigger] once.outcomes(recs, second)[i] == (
        recs[i].client,
        MergeOutcome::Unchanged,
    ) by {
        assert forall|j: int| 0 <= j < recs.take(i).len() implies !once.accepts(
            #[trigger] recs.take(i)[j],
        ) by {
            assert(recs.take(i)[j] == recs[j]);
        }
        lemma_stale_merge_is_noop(once, recs.take(i), second);
        lemma_merged_records_are_stale(t, recs, first, i);
    }
    assert(once.outcomes(recs, second) =~= Seq::new(
        recs.len(),
        |i: int| (recs[i].client, MergeOutcome::Unchanged),
    ));
}

/// Idempotence, of bytes. Applying the same bytes twice, well-formed or not,
/// leaves the table as the first application left it.
pub proof fn lemma_apply_idempotent(t: TableModel, bytes: Seq<u8>, first: u64, second: u64)
    ensures
        apply_bytes(apply_bytes(t, bytes, first), bytes, second) == apply_bytes(t, bytes, first),
{
    if decode_records(bytes) is Some {
        lemma_merge_idempotent(t, decode_records(bytes)->0, first, second);
    }
}

/// Malformed update rejection. Bytes that are not a well-formed update
/// change nothing in the table they are applied to.
pub proof fn lemma_malformed_update_changes_nothing(t: TableModel, bytes: Seq<u8>, now: u64)
    requires
        decode_records(bytes) is None,
    ensures
        apply_bytes(t, bytes, now) == t,
{
}

/// Last writer wins. Of two single-record updates for one client, with
/// versions `older.version < newer.version`, the newer decides the entry in
/// whichever order the two are applied: the entry ends with the newer
/// version and payload. This holds of every table that would accept the
/// newer record, that is, whose own entry for the client is not already at
/// or past the newer version.
pub proof fn lemma_last_writer_wins(
    t: TableModel,
    older: RecordModel,
    newer: RecordModel,
    first: u64,
    second: u64,
)
    requires
        older.client == newer.client,
        older.version < newer.version,
        t.accepts(newer),
    ensures
        ({
            let client = newer.client;
            let in_order = t.merge_all(seq![older], first).merge_all(seq![newer], second);
            let reversed = t.merge_all(seq![newer], first).merge_all(seq![older], second);
            &&& in_order.contains(client)
            &&& in_order.entries[client].version == newer.version
            &&& in_order.entries[client].payload == newer.payload
            &&& reversed.contains(client)
            &&& reversed.entries[client].version == newer.version
            &&& reversed.entries[client].payload == newer.payload
        }),
{
    lemma_merge_single(t, older, first);
    lemma_merge_single(t.merge_one(older, first), newer, second);
    lemma_merge_single(t, newer, first);
    lemma_merge_single(t.merge_one(newer, first), older, second);
}

/// Monotonicity. Through any history of local writes and merges, a client
/// once known stays known and its version never goes down: what is seen
/// after `i` steps is no newer than what is seen after `j >= i` steps.
/// (A history `admits` its local writes when each of them happens below the
/// largest version; the executable table asks this of every local write.)
pub proof fn lemma_versions_never_decrease(
    t: TableModel,
    steps: Seq<Step>,
    i: int,
    j: int,
    client: u64,
)
    requires
        t.admits(steps),
        0 <= i <= j <= steps.len(),
        t.run(steps.take(i)).contains(client),
    ensures
        t.run(steps.take(j)).contains(client),
        t.run(steps.take(j)).entries[client].version >= t.run(steps.take(i)).entries[client].version,
    decreases j - i,
{
    if i < j {
        lemma_versions_never_decrease(t, steps, i, j - 1, client);
        let before = t.run(steps.take(j - 1));
        assert(steps.take(j).drop_last() =~= steps.take(j - 1));
        assert(steps.take(j).last() == steps[j - 1]);
        match steps[j - 1] {
            Step::SetLocal { payload, now } => {
                assert(before.can_set_local());
            },
            Step::Merge { records, now } => {
                lemma_merge_grows(before, records, now, client);
            },
        }
    }
}

/// Tombstone visibility. Clearing the local state leaves the local entry in
/// the table, without a payload and with the next version, so that updates
/// still carry it; the snapshot no longer shows the local client.
pub proof fn lemma_cleared_state_is_a_tombstone(t: TableModel, now: u64)
    requires
        t.wf(),
    ensures
        ({
            let cleared = t.set_local(None, now);
            &&& cleared.contains(t.local)
            &&& cleared.entries[t.local].payload is None
            &&& cleared.entries[t.local].version == t.next_local_version() as u64
            &&& cleared.records(None).contains(cleared.record_of(t.local))
            &&& !cleared.present_clients().contains(t.local)
            &&& forall|i: int|
                0 <= i < cleared.snapshot().len() ==> (#[trigger] cleared.snapshot()[i]).0
                    != t.local
        }),
{
    let cleared = t.set_local(None, now);
    lemma_put_wf(
        t,
        t.local,
        EntryModel { version: t.next_local_version() as u64, timestamp: now, payload: None },
    );
    assert(cleared.order.contains(t.local));
    let at = cleared.order.index_of(t.local);
    assert(cleared.records(None)[at] == cleared.record_of(t.local));
    let shown = cleared.present_clients();
    assert forall|i: int| 0 <= i < shown.len() implies #[trigger] shown[i] != t.local by {
        cleared.order.lemma_filter_pred(cleared.is_present(), i);
    }
}

/// Filtering keeps a sequence free of duplicates, and keeps exactly the
/// elements that pass.
proof fn lemma_filter_distinct(s: Seq<u64>, keep: spec_fn(u64) -> bool)
    requires
        s.no_duplicates(),
    ensures
        s.filter(keep).no_duplicates(),
        forall|c: u64| #[trigger] s.filter(keep).contains(c) <==> s.contains(c) && keep(c),
    decreases s.len(),
{
    reveal(Seq::filter);
    if s.len() > 0 {
        let front = s.drop_last();
        let last = s.last();
        lemma_filter_distinct(front, keep);
        assert(s =~= front.push(last));
        assert(!front.contains(last)) by {
            if front.contains(last) {
                let k = front.index_of(last);
                assert(s[k] == s[s.len() - 1]);
            }
        }
        let kept = front.filter(keep);
        assert forall|c: u64| #[trigger] s.filter(keep).contains(c) <==> s.contains(c) && keep(
            c,
        ) by {
            if s.contains(c) {
                let k = s.index_of(c);
                if k < front.len() {
                    assert(front[k] == c);
                }
            }
            if front.contains(c) {
                let k = front.index_of(c);
                assert(s[k] == c);
            }
            assert(s[s.len() - 1] == last);
            if keep(last) {
                assert(kept.push(last)[kept.len() as int] == last);
                if kept.contains(c) {
                    let k = kept.index_of(c);
                    assert(kept.push(last)[k] == c);
                }
                if kept.push(last).contains(c) {
                    let k = kept.push(last).index_of(c);
                    if k < kept.len() {
                        assert(kept[k] == c);
                    }
                }
            }
        }
        if keep(last) {
            assert(!kept.contains(last));
        }
    }
}

/// Two predicates that agree on the elements of a sequence filter it alike.
proof fn lemma_filter_agree(s: Seq<u64>, p: spec_fn(u64) -> bool, q: spec_fn(u64) -> bool)
    requires
        forall|i: int| 0 <= i < s.len() ==> p(#[trigger] s[i]) == q(s[i]),
    ensures
        s.filter(p) == s.filter(q),
    decreases s.len(),
{
    reveal(Seq::filter);
    if s.len() > 0 {
        assert forall|i: int| 0 <= i < s.drop_last().len() implies p(#[trigger] s.drop_last()[i])
            == q(s.drop_last()[i]) by {
            assert(s.drop_last()[i] == s[i]);
        }
        lemma_filter_agree(s.drop_last(), p, q);
        assert(p(s[s.len() - 1]) == q(s[s.len() - 1]));
    }
}

/// Merging the records of distinct known clients into an empty table gives
/// a table of exactly these clients, in this order, each with the version
/// and payload it has in `t`.
proof fn lemma_rebuild(t: TableModel, clients: Seq<u64>, local: u64, now: u64)
    requires
        clients.no_duplicates(),
        forall|i: int| 0 <= i < clients.len() ==> t.contains(#[trigger] clients[i]),
    ensures
        ({
            let back = TableModel::empty(local).merge_all(t.records_of(clients), now);
            &&& back.wf()
            &&& back.order == clients
            &&& forall|c: u64|
                #[trigger] back.contains(c) ==> {
                    &&& t.contains(c)
                    &&& back.entries[c].version == t.entries[c].version
                    &&& back.entries[c].timestamp == now
                    &&& back.entries[c].payload == t.entries[c].payload
                }
        }),
    decreases clients.len(),
{
    let recs = t.records_of(clients);
    let back = TableModel::empty(local).merge_all(recs, now);
    lemma_merge_wf(TableModel::empty(local), recs, now);
    if clients.len() == 0 {
        assert(back.order =~= clients);
    } else {
        let front = clients.drop_last();
        let last = clients.last();
        assert(recs.drop_last() =~= t.records_of(front));
        assert(recs.last() == t.record_of(last));
        assert forall|i: int| 0 <= i < front.len() implies t.contains(#[trigger] front[i]) by {
            assert(front[i] == clients[i]);
        }
        lemma_rebuild(t, front, local, now);
        let mid = TableModel::empty(local).merge_all(t.records_of(front), now);
        assert(!mid.contains(last)) by {
            if mid.contains(last) {
                assert(mid.order.contains(last));
                let k = front.index_of(last);
                assert(clients[k] == clients[clients.len() - 1]);
            }
        }
        assert(back == mid.merge_one(t.record_of(last), now));
        assert(t.contains(clients[clients.len() - 1]));
        assert(back.order =~= clients);
        assert forall|c: u64| #[trigger] back.contains(c) implies {
            &&& t.contains(c)
            &&& back.entries[c].version == t.entries[c].version
            &&& back.entries[c].timestamp == now
            &&& back.entries[c].payload == t.entries[c].payload
        } by {
            if c != last {
                assert(mid.contains(c));
            }
        }
    }
}

/// Round trip. The update derived from a table, decoded and applied to an
/// empty table, rebuilds what the update speaks of: the selected clients in
/// the same order, each with the same version and payload (tombstones too).
/// With every client selected the two tables show the same snapshot.
pub proof fn lemma_round_trip(t: TableModel, selection: Option<Seq<u64>>, local: u64, now: u64)
    requires
        t.wf(),
        all_encodable(t.records(selection)),
    ensures
        ({
            let bytes = encode_records(t.records(selection));
            let back = apply_bytes(TableModel::empty(local), bytes, now);
            &&& decode_records(bytes) == Some(t.records(selection))
            &&& back.wf()
            &&& back.order == t.selected(selection)
            &&& forall|c: u64|
                #[trigger] back.contains(c) ==> {
                    &&& t.contains(c)
                    &&& back.entries[c].version == t.entries[c].version
                    &&& back.entries[c].timestamp == now
                    &&& back.entries[c].payload == t.entries[c].payload
                }
            &&& selection is None ==> back.snapshot() == t.snapshot()
        }),
{
    let clients = t.selected(selection);
    let back = TableModel::empty(local).merge_all(t.records(selection), now);
    lemma_decode_encode(t.records(selection));
    match selection {
        None => {},
        Some(ids) => {
            lemma_filter_distinct(t.order, named_by(ids));
        },
    }
    assert forall|i: int| 0 <= i < clients.len() implies t.contains(#[trigger] clients[i]) by {
        assert(clients.contains(clients[i]));
        assert(t.order.contains(clients[i]));
    }
    lemma_rebuild(t, clients, local, now);
    if selection is None {
        assert forall|i: int| 0 <= i < t.order.len() implies (back.is_present())(
            #[trigger] t.order[i],
        ) == (t.is_present())(t.order[i]) by {
            assert(back.order[i] == t.order[i]);
            assert(back.order.contains(t.order[i]));
            assert(back.contains(t.order[i]));
        }
        lemma_filter_agree(t.order, back.is_present(), t.is_present());
        let shown = t.present_clients();
        assert forall|i: int| 0 <= i < shown.len() implies back.entries[#[trigger] shown[i]].payload
            == t.entries[shown[i]].payload by {
            assert(shown.contains(shown[i]));
            t.order.lemma_filter_contains_rev(t.is_present(), shown[i]);
            assert(back.order.contains(shown[i]));
            assert(back.contains(shown[i]));
        }
        assert(back.snapshot() =~= t.snapshot());
    }
}

} // verus!
