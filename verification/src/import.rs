//! The import pipeline: the converter walks changeset records in commit
//! order, emitting one work item per changeset and one per referenced
//! manifest or file blob, plus head and linknode side effects; the
//! consumer drains the work items, deduplicates shared content blobs by
//! key, writes through a blobstore and tallies outcome statistics.

use vstd::prelude::*;

use crate::blobstore::{Blobstore, BlobstoreError};
use crate::hash::{NodeHash, hex_of_bytes};
use crate::heads::{Heads, HeadsError};
use crate::kvlist::{KvList, copy_bytes};
use crate::linknodes::{Linknodes, RepoPath, link_key};

verus! {

/// A changeset as stored: its content-derived identity and its
/// serialized record.
#[derive(Debug)]
pub struct BlobChangeset {
    /// The changeset hash.
    pub hash: NodeHash,
    /// The serialized changeset record.
    pub payload: Vec<u8>,
}

/// One unit of work handed from the converter to the consumer.
#[derive(Debug)]
pub enum BlobstoreEntry {
    /// A content-addressed manifest or file blob: equal keys mean
    /// byte-identical content, so the consumer deduplicates these.
    ManifestEntry { key: Vec<u8>, payload: Vec<u8> },
    /// A changeset record; always written, never deduplicated.
    Changeset(BlobChangeset),
}

/// The prefix of every changeset storage key.
pub open spec fn changeset_prefix() -> Seq<u8> {
    seq![99u8, 104u8, 97u8, 110u8, 103u8, 101u8, 115u8, 101u8, 116u8, 45u8]
}

/// The storage key a changeset is written under: `changeset-` followed
/// by the 40 hex characters of its hash.
pub open spec fn changeset_key(hash: Seq<u8>) -> Seq<u8> {
    changeset_prefix() + hex_of_bytes(hash)
}

/// The executable changeset storage key.
pub fn changeset_key_bytes(hash: &NodeHash) -> (r: Vec<u8>)
    ensures
        r@ == changeset_key(hash@),
{
    let mut r: Vec<u8> = vec![99u8, 104u8, 97u8, 110u8, 103u8, 101u8, 115u8, 101u8, 116u8, 45u8];
    let mut hx = hash.to_hex();
    r.append(&mut hx);
    proof {
        assert(r@ =~= changeset_key(hash@));
    }
    r
}

/// What one work item means to the consumer: its kind, the key it
/// writes, and the payload.
pub ghost struct EntryModel {
    /// Whether the item is a deduplicated manifest/file blob.
    pub is_manifest: bool,
    /// The storage key written.
    pub key: Seq<u8>,
    /// The payload written.
    pub payload: Seq<u8>,
}

impl View for BlobstoreEntry {
    type V = EntryModel;

    open spec fn view(&self) -> EntryModel {
        match self {
            BlobstoreEntry::ManifestEntry { key, payload } => EntryModel {
                is_manifest: true,
                key: key@,
                payload: payload@,
            },
            BlobstoreEntry::Changeset(c) => EntryModel {
                is_manifest: false,
                key: changeset_key(c.hash@),
                payload: c.payload@,
            },
        }
    }
}

/// The models of a sequence of work items.
pub open spec fn models_of(es: Seq<BlobstoreEntry>) -> Seq<EntryModel> {
    es.map_values(|e: BlobstoreEntry| e@)
}

/// One changeset of the external source, reduced to plain values: its
/// hash, its serialized record, the manifest/file blobs it references,
/// whether it is a branch tip, and the objects it introduces.
#[derive(Debug)]
pub struct ChangesetRecord {
    /// The changeset hash.
    pub hash: NodeHash,
    /// The serialized changeset record.
    pub payload: Vec<u8>,
    /// Referenced manifest/file blobs, as `(key, payload)` pairs. The
    /// converter emits every one; deduplication is the consumer's job.
    pub blobs: Vec<(Vec<u8>, Vec<u8>)>,
    /// Whether this changeset is a branch tip.
    pub is_head: bool,
    /// The `(path, node)` objects this changeset introduces.
    pub linknodes: Vec<(RepoPath, NodeHash)>,
}

/// The work-item models one record emits: its blobs in order, then the
/// changeset itself.
pub open spec fn record_models(rec: ChangesetRecord) -> Seq<EntryModel> {
    blob_models(rec.blobs@) + seq![
        EntryModel { is_manifest: false, key: changeset_key(rec.hash@), payload: rec.payload@ },
    ]
}

/// The manifest-blob models of a record's blob list.
pub open spec fn blob_models(blobs: Seq<(Vec<u8>, Vec<u8>)>) -> Seq<EntryModel> {
    blobs.map_values(
        |b: (Vec<u8>, Vec<u8>)| EntryModel { is_manifest: true, key: b.0@, payload: b.1@ },
    )
}

/// The work-item models a run of records emits, in commit order.
pub open spec fn plan_models(records: Seq<ChangesetRecord>) -> Seq<EntryModel>
    decreases records.len(),
{
    if records.len() == 0 {
        Seq::empty()
    } else {
        record_models(records.first()) + plan_models(records.drop_first())
    }
}

/// Emitting one more record appends its models.
proof fn lemma_plan_models_push(records: Seq<ChangesetRecord>, rec: ChangesetRecord)
    ensures
        plan_models(records.push(rec)) == plan_models(records) + record_models(rec),
    decreases records.len(),
{
    let pushed = records.push(rec);
    if records.len() == 0 {
        assert(pushed.first() == rec);
        assert(pushed.drop_first() =~= Seq::<ChangesetRecord>::empty());
        assert(plan_models(pushed.drop_first()) == Seq::<EntryModel>::empty());
        assert(plan_models(pushed) == record_models(rec) + Seq::<EntryModel>::empty());
        assert(plan_models(pushed) =~= plan_models(records) + record_models(rec));
    } else {
        assert(pushed.first() == records.first());
        assert(pushed.drop_first() =~= records.drop_first().push(rec));
        lemma_plan_models_push(records.drop_first(), rec);
        assert(plan_models(pushed) == record_models(records.first()) + plan_models(
            pushed.drop_first(),
        ));
        assert(plan_models(records) == record_models(records.first()) + plan_models(
            records.drop_first(),
        ));
        assert(plan_models(pushed) =~= plan_models(records) + record_models(rec));
    }
}

/// Index of the first selected record: the configured number of leading
/// commits is skipped, clipped to the history's length.
pub open spec fn sel_start(len: nat, skip: Option<u64>) -> int {
    match skip {
        Some(n) => if n as int <= len as int {
            n as int
        } else {
            len as int
        },
        None => 0,
    }
}

/// One past the last selected record: at most the configured count of
/// commits past the start.
pub open spec fn sel_end(len: nat, skip: Option<u64>, limit: Option<u64>) -> int {
    match limit {
        Some(n) => if sel_start(len, skip) + n as int <= len as int {
            sel_start(len, skip) + n as int
        } else {
            len as int
        },
        None => len as int,
    }
}

/// The records a run converts: the commit-ordered range the skip and
/// limit options select.
pub open spec fn selected(
    records: Seq<ChangesetRecord>,
    skip: Option<u64>,
    limit: Option<u64>,
) -> Seq<ChangesetRecord> {
    records.subrange(sel_start(records.len(), skip), sel_end(records.len(), skip, limit))
}

/// The executable bounds of the selected range.
pub fn select_bounds(len: usize, skip: Option<u64>, limit: Option<u64>) -> (r: (usize, usize))
    ensures
        r.0 == sel_start(len as nat, skip),
        r.1 == sel_end(len as nat, skip, limit),
        r.0 <= r.1 <= len,
{
    let start: usize = match skip {
        Some(n) => if n <= len as u64 {
            n as usize
        } else {
            len
        },
        None => 0,
    };
    let end: usize = match limit {
        Some(n) => if n <= (len - start) as u64 {
            start + n as usize
        } else {
            len
        },
        None => len,
    };
    (start, end)
}

/// The work items one changeset record emits: one per referenced blob,
/// in order, then the changeset itself.
pub fn record_entries(rec: &ChangesetRecord) -> (es: Vec<BlobstoreEntry>)
    ensures
        models_of(es@) == record_models(*rec),
{
    let mut es: Vec<BlobstoreEntry> = Vec::new();
    proof {
        assert(models_of(es@) =~= Seq::<EntryModel>::empty());
    }
    let mut j: usize = 0;
    while j < rec.blobs.len()
        invariant
            0 <= j <= rec.blobs@.len(),
            models_of(es@) == blob_models(rec.blobs@.take(j as int)),
        decreases rec.blobs@.len() - j,
    {
        let ghost es_pre = es@;
        let key = copy_bytes(&rec.blobs[j].0);
        let payload = copy_bytes(&rec.blobs[j].1);
        es.push(BlobstoreEntry::ManifestEntry { key, payload });
        proof {
            assert(es@ == es_pre.push(es@.last()));
            assert(models_of(es@) =~= models_of(es_pre).push(es@.last()@));
            assert(es@.last()@ == EntryModel {
                is_manifest: true,
                key: rec.blobs@[j as int].0@,
                payload: rec.blobs@[j as int].1@,
            });
            assert(rec.blobs@.take(j + 1 as int) =~= rec.blobs@.take(j as int).push(
                rec.blobs@[j as int],
            ));
            assert(blob_models(rec.blobs@.take(j + 1 as int)) =~= blob_models(
                rec.blobs@.take(j as int),
            ).push(es@.last()@));
        }
        j = j + 1;
    }
    let ghost es_pre = es@;
    let cs = BlobChangeset { hash: rec.hash.clone(), payload: copy_bytes(&rec.payload) };
    es.push(BlobstoreEntry::Changeset(cs));
    proof {
        assert(es@ == es_pre.push(es@.last()));
        assert(models_of(es@) =~= models_of(es_pre).push(es@.last()@));
        assert(es@.last()@ == EntryModel {
            is_manifest: false,
            key: changeset_key(rec.hash@),
            payload: rec.payload@,
        });
        assert(rec.blobs@.take(rec.blobs@.len() as int) =~= rec.blobs@);
        assert(models_of(es@) =~= record_models(*rec));
    }
    es
}

/// Walk the selected records in commit order and emit their work items:
/// for each changeset one item per referenced blob, then the changeset
/// itself. Every referenced blob is emitted whether or not its key has
/// been seen; deduplication belongs to the consumer.
pub fn plan_import(records: &Vec<ChangesetRecord>, skip: Option<u64>, commits_limit: Option<u64>)
    -> (es: Vec<BlobstoreEntry>)
    ensures
        models_of(es@) == plan_models(selected(records@, skip, commits_limit)),
{
    let (start, end) = select_bounds(records.len(), skip, commits_limit);
    let ghost sel = selected(records@, skip, commits_limit);
    let mut es: Vec<BlobstoreEntry> = Vec::new();
    let mut i: usize = start;
    proof {
        assert(sel =~= records@.subrange(start as int, end as int));
        assert(records@.subrange(start as int, start as int) =~= Seq::<ChangesetRecord>::empty());
        assert(models_of(es@) =~= plan_models(records@.subrange(start as int, start as int)));
    }
    while i < end
        invariant
            start <= i <= end <= records@.len(),
            sel == records@.subrange(start as int, end as int),
            models_of(es@) == plan_models(records@.subrange(start as int, i as int)),
        decreases end - i,
    {
        let ghost es_pre = es@;
        let mut more = record_entries(&records[i]);
        let ghost more_snapshot = more@;
        es.append(&mut more);
        proof {
            assert(es@ == es_pre + more_snapshot);
            assert(models_of(es@) =~= models_of(es_pre) + models_of(more_snapshot));
            assert(records@.subrange(start as int, i + 1 as int) =~= records@.subrange(
                start as int,
                i as int,
            ).push(records@[i as int]));
            lemma_plan_models_push(
                records@.subrange(start as int, i as int),
                records@[i as int],
            );
        }
        i = i + 1;
    }
    proof {
        assert(records@.subrange(start as int, end as int) =~= sel);
    }
    es
}

/// The consumer's bookkeeping: the manifest keys already submitted, the
/// duplicate tally, and the writes issued so far, in order.
pub ghost struct ConsumeState {
    /// Manifest keys already submitted to the backend.
    pub seen: Set<Seq<u8>>,
    /// Manifest items skipped because their key had been seen.
    pub duplicates: nat,
    /// The work items actually written, in issue order.
    pub writes: Seq<EntryModel>,
}

/// The consumer's starting state: nothing seen, nothing counted.
pub open spec fn consume_init() -> ConsumeState {
    ConsumeState { seen: Set::empty(), duplicates: 0, writes: Seq::empty() }
}

/// Whether the consumer issues a write for this item in this state.
pub open spec fn entry_written(st: ConsumeState, m: EntryModel) -> bool {
    !m.is_manifest || !st.seen.contains(m.key)
}

/// One consumer step: a changeset is always written; a manifest blob is
/// written the first time its key appears and counted as a duplicate
/// afterwards.
pub open spec fn consume_step(st: ConsumeState, m: EntryModel) -> ConsumeState {
    if m.is_manifest {
        if st.seen.contains(m.key) {
            ConsumeState { seen: st.seen, duplicates: st.duplicates + 1, writes: st.writes }
        } else {
            ConsumeState {
                seen: st.seen.insert(m.key),
                duplicates: st.duplicates,
                writes: st.writes.push(m),
            }
        }
    } else {
        ConsumeState { seen: st.seen, duplicates: st.duplicates, writes: st.writes.push(m) }
    }
}

/// The consumer's state after draining a sequence of items.
pub open spec fn consume_all(st: ConsumeState, ms: Seq<EntryModel>) -> ConsumeState
    decreases ms.len(),
{
    if ms.len() == 0 {
        st
    } else {
        consume_all(consume_step(st, ms.first()), ms.drop_first())
    }
}

/// Draining one more item steps the state once.
proof fn lemma_consume_all_push(st: ConsumeState, ms: Seq<EntryModel>, m: EntryModel)
    ensures
        consume_all(st, ms.push(m)) == consume_step(consume_all(st, ms), m),
    decreases ms.len(),
{
    let pushed = ms.push(m);
    if ms.len() == 0 {
        assert(pushed.first() == m);
        assert(pushed.drop_first() =~= Seq::<EntryModel>::empty());
        assert(consume_all(consume_step(st, pushed.first()), pushed.drop_first()) == consume_step(
            st,
            m,
        ));
        assert(consume_all(st, ms) == st);
    } else {
        assert(pushed.first() == ms.first());
        assert(pushed.drop_first() =~= ms.drop_first().push(m));
        lemma_consume_all_push(consume_step(st, ms.first()), ms.drop_first(), m);
        assert(consume_all(st, pushed) == consume_all(
            consume_step(st, ms.first()),
            pushed.drop_first(),
        ));
        assert(consume_all(st, ms) == consume_all(consume_step(st, ms.first()), ms.drop_first()));
    }
}

/// Outcome statistics of one import run.
#[derive(Clone, Copy, Debug, PartialEq, Eq, Structural)]
pub struct ImportStats {
    /// Changesets converted.
    pub changesets: usize,
    /// Head updates recorded.
    pub heads: usize,
    /// Manifest blobs skipped as already submitted.
    pub duplicates: usize,
    /// Backend writes that completed.
    pub successes: usize,
    /// Backend writes that failed.
    pub failures: usize,
}

impl ImportStats {
    /// All counters at zero.
    pub fn new() -> (r: ImportStats)
        ensures
            r.changesets == 0 && r.heads == 0 && r.duplicates == 0 && r.successes == 0
                && r.failures == 0,
    {
        ImportStats { changesets: 0, heads: 0, duplicates: 0, successes: 0, failures: 0 }
    }
}

/// How an import run fails; each error names what was being done.
#[derive(Debug)]
pub enum ImportError {
    /// A backend write failed; carries the key being written.
    Put { key: Vec<u8>, error: BlobstoreError },
    /// Recording a branch head failed.
    Head(HeadsError),
    /// Recording a linknode failed.
    Linknode(crate::linknodes::ErrorKind),
}

/// The mapping an exact engine holds after writing the given items in
/// order.
pub open spec fn apply_writes(
    m: Map<Seq<u8>, Seq<u8>>,
    writes: Seq<EntryModel>,
) -> Map<Seq<u8>, Seq<u8>>
    decreases writes.len(),
{
    if writes.len() == 0 {
        m
    } else {
        apply_writes(m.insert(writes.first().key, writes.first().payload), writes.drop_first())
    }
}

proof fn lemma_apply_writes_push(m: Map<Seq<u8>, Seq<u8>>, writes: Seq<EntryModel>, w: EntryModel)
    ensures
        apply_writes(m, writes.push(w)) == apply_writes(m, writes).insert(w.key, w.payload),
    decreases writes.len(),
{
    let pushed = writes.push(w);
    if writes.len() == 0 {
        assert(pushed.first() == w);
        assert(pushed.drop_first() =~= Seq::<EntryModel>::empty());
        assert(apply_writes(m.insert(w.key, w.payload), pushed.drop_first()) == m.insert(
            w.key,
            w.payload,
        ));
        assert(apply_writes(m, writes) == m);
    } else {
        assert(pushed.first() == writes.first());
        assert(pushed.drop_first() =~= writes.drop_first().push(w));
        lemma_apply_writes_push(
            m.insert(writes.first().key, writes.first().payload),
            writes.drop_first(),
            w,
        );
    }
}

/// Some record of the run is a branch tip.
pub open spec fn any_head(recs: Seq<ChangesetRecord>) -> bool {
    exists|i: int| 0 <= i < recs.len() && (#[trigger] recs[i]).is_head
}

/// Some record of the run carries linknode entries.
pub open spec fn any_linknodes(recs: Seq<ChangesetRecord>) -> bool {
    exists|i: int| 0 <= i < recs.len() && (#[trigger] recs[i]).linknodes@.len() > 0
}

/// On a backend write failure over an exact engine, the store holds
/// exactly the writes issued before the stop.
pub open spec fn import_store_at_stop(
    ms: Seq<EntryModel>,
    stats: ImportStats,
    res: Result<(), ImportError>,
    m0: Map<Seq<u8>, Seq<u8>>,
    m1: Map<Seq<u8>, Seq<u8>>,
) -> bool {
    match res {
        Err(e) => (e matches ImportError::Put { .. }) ==> exists|i: int|
            #![trigger consumer_failed_at(ms, i, stats, e)]
            consumer_failed_at(ms, i, stats, e) && m1 == apply_writes(
                m0,
                consume_all(consume_init(), ms.take(i)).writes,
            ),
        Ok(_) => true,
    }
}

/// Any reported failure names a real stop point: the consumer stopped
/// at some item whose write failed.
pub open spec fn consumer_failure_reported(
    ms: Seq<EntryModel>,
    stats: ImportStats,
    res: Result<(), ImportError>,
) -> bool {
    match res {
        Err(e) => exists|i: int| consumer_failed_at(ms, i, stats, e),
        Ok(_) => true,
    }
}

/// On a backend write failure the run reports exactly where the
/// consumer stopped.
pub open spec fn import_put_failure(
    ms: Seq<EntryModel>,
    stats: ImportStats,
    res: Result<(), ImportError>,
) -> bool {
    match res {
        Err(e) => (e matches ImportError::Put { .. }) ==> exists|i: int|
            consumer_failed_at(ms, i, stats, e),
        Ok(_) => true,
    }
}

/// The consumer stopped at item `i`: the write it issued failed, every
/// earlier item was consumed, and the tallies stand at that point.
pub open spec fn consumer_failed_at(
    ms: Seq<EntryModel>,
    i: int,
    stats: ImportStats,
    e: ImportError,
) -> bool {
    let st = consume_all(consume_init(), ms.take(i));
    &&& 0 <= i < ms.len()
    &&& entry_written(st, ms[i])
    &&& stats.duplicates == st.duplicates
    &&& stats.successes == st.writes.len()
    &&& stats.failures == 1
    &&& e matches ImportError::Put { key, .. } && key@ == ms[i].key
}

/// The consumer's working state, advanced one work item at a time: the
/// manifest keys already submitted and the tallies of duplicates and
/// completed writes. `run_consumer` drains a whole list through it; a
/// shell thread can just as well feed it item by item as a channel
/// hands them over.
pub struct Consumer {
    seen: KvList<()>,
    duplicates: usize,
    successes: usize,
}

impl Consumer {
    /// Manifest keys already submitted to the backend.
    pub closed spec fn seen_set(&self) -> Set<Seq<u8>> {
        self.seen.contents().dom()
    }

    /// Manifest items skipped because their key had been seen.
    pub closed spec fn dup_count(&self) -> nat {
        self.duplicates as nat
    }

    /// Backend writes that completed.
    pub closed spec fn success_count(&self) -> nat {
        self.successes as nat
    }

    /// A fresh consumer: nothing seen, nothing counted.
    pub fn new() -> (r: Consumer)
        ensures
            r.seen_set() == Set::<Seq<u8>>::empty(),
            r.dup_count() == 0,
            r.success_count() == 0,
    {
        let r = Consumer { seen: KvList::new(), duplicates: 0, successes: 0 };
        proof {
            assert(r.seen_set() =~= Set::<Seq<u8>>::empty());
        }
        r
    }

    /// The duplicate tally.
    pub fn duplicates(&self) -> (r: usize)
        ensures
            r == self.dup_count(),
    {
        self.duplicates
    }

    /// The completed-write tally.
    pub fn successes(&self) -> (r: usize)
        ensures
            r == self.success_count(),
    {
        self.successes
    }

    /// Consume one work item: write a changeset always; write a manifest
    /// blob the first time its key appears and count it as a duplicate
    /// afterwards. On a backend failure the item's write is the one that
    /// failed and the tallies are untouched.
    pub fn step<B: Blobstore>(&mut self, store: &mut B, entry: &BlobstoreEntry) -> (r: Result<
        (),
        ImportError,
    >)
        requires
            old(self).dup_count() < usize::MAX,
            old(self).success_count() < usize::MAX,
        ensures
            final(store).is_exact() == old(store).is_exact(),
            ({
                let m = entry@;
                let st0 = ConsumeState {
                    seen: old(self).seen_set(),
                    duplicates: old(self).dup_count(),
                    writes: Seq::empty(),
                };
                let st1 = consume_step(st0, m);
                &&& final(self).seen_set() == st1.seen
                &&& final(self).dup_count() == st1.duplicates
                &&& (r matches Ok(_) ==> final(self).success_count() == old(self).success_count()
                    + st1.writes.len())
                &&& (r matches Err(_)
                    ==> final(self).success_count() == old(self).success_count())
                &&& ((r matches Ok(_) && entry_written(st0, m))
                    ==> final(store).contents() == old(store).put_contents(m.key, m.payload))
                &&& ((r matches Ok(_) && entry_written(st0, m) && old(store).is_exact())
                    ==> final(store).contents() == old(store).contents().insert(m.key, m.payload))
                &&& (!entry_written(st0, m)
                    ==> (r matches Ok(_) && final(store).contents() == old(store).contents()))
                &&& (r matches Err(e)
                    ==> (entry_written(st0, m) && final(store).contents() == old(
                        store,
                    ).contents() && (e matches ImportError::Put { key, .. } && key@ == m.key)))
            }),
    {
        match entry {
            BlobstoreEntry::ManifestEntry { key, payload } => {
                if self.seen.contains(key) {
                    self.duplicates = self.duplicates + 1;
                    Ok(())
                } else {
                    self.seen.insert(copy_bytes(key), ());
                    proof {
                        assert(self.seen.contents().dom() =~= old(
                            self,
                        ).seen.contents().dom().insert(key@));
                    }
                    match store.put(copy_bytes(key), copy_bytes(payload)) {
                        Ok(()) => {
                            self.successes = self.successes + 1;
                            Ok(())
                        }
                        Err(be) => Err(ImportError::Put { key: copy_bytes(key), error: be }),
                    }
                }
            }
            BlobstoreEntry::Changeset(c) => {
                let k = changeset_key_bytes(&c.hash);
                let kerr = copy_bytes(&k);
                match store.put(k, copy_bytes(&c.payload)) {
                    Ok(()) => {
                        self.successes = self.successes + 1;
                        Ok(())
                    }
                    Err(be) => Err(ImportError::Put { key: kerr, error: be }),
                }
            }
        }
    }
}

/// Drain the work items in order against a blobstore: write every
/// changeset, write each manifest key the first time and count later
/// occurrences as duplicates, tally completed writes, and stop at the
/// first backend error. Returns the consumer's tallies (converter-side
/// counters stay zero) beside the outcome.
pub fn run_consumer<B: Blobstore>(store: &mut B, entries: &Vec<BlobstoreEntry>) -> (r: (
    ImportStats,
    Result<(), ImportError>,
))
    ensures
        r.0.changesets == 0 && r.0.heads == 0,
        r.1 matches Ok(_) ==> ({
            let fin = consume_all(consume_init(), models_of(entries@));
            &&& r.0.duplicates == fin.duplicates
            &&& r.0.successes == fin.writes.len()
            &&& r.0.failures == 0
        }),
        consumer_failure_reported(models_of(entries@), r.0, r.1),
        (old(store).is_exact() && r.1 matches Ok(_)) ==> final(store).contents() == apply_writes(
            old(store).contents(),
            consume_all(consume_init(), models_of(entries@)).writes,
        ),
        old(store).is_exact() ==> import_store_at_stop(
            models_of(entries@),
            r.0,
            r.1,
            old(store).contents(),
            final(store).contents(),
        ),
{
    let ghost ms = models_of(entries@);
    let mut consumer = Consumer::new();
    let mut i: usize = 0;
    proof {
        assert(ms.take(0) =~= Seq::<EntryModel>::empty());
    }
    while i < entries.len()
        invariant
            0 <= i <= entries@.len(),
            ms == models_of(entries@),
            ({
                let st = consume_all(consume_init(), ms.take(i as int));
                &&& consumer.seen_set() == st.seen
                &&& consumer.dup_count() == st.duplicates
                &&& consumer.success_count() == st.writes.len()
                &&& consumer.dup_count() <= i
                &&& consumer.success_count() <= i
                &&& store.is_exact() == old(store).is_exact()
                &&& (old(store).is_exact() ==> store.contents() == apply_writes(
                    old(store).contents(),
                    st.writes,
                ))
            }),
        decreases entries@.len() - i,
    {
        let ghost st = consume_all(consume_init(), ms.take(i as int));
        proof {
            assert(ms.take(i + 1 as int) =~= ms.take(i as int).push(ms[i as int]));
            lemma_consume_all_push(consume_init(), ms.take(i as int), ms[i as int]);
            assert(ms[i as int] == entries@[i as int]@);
        }
        match consumer.step(store, &entries[i]) {
            Ok(()) => {
                proof {
                    if old(store).is_exact() && entry_written(st, ms[i as int]) {
                        lemma_apply_writes_push(old(store).contents(), st.writes, ms[i as int]);
                    }
                }
            }
            Err(e) => {
                let stats = ImportStats {
                    changesets: 0,
                    heads: 0,
                    duplicates: consumer.duplicates(),
                    successes: consumer.successes(),
                    failures: 1,
                };
                let r = (stats, Err(e));
                proof {
                    assert(consumer_failed_at(models_of(entries@), i as int, stats, r.1->Err_0));
                    assert(consumer_failure_reported(models_of(entries@), stats, r.1));
                    assert(old(store).is_exact() ==> import_store_at_stop(
                        models_of(entries@),
                        stats,
                        r.1,
                        old(store).contents(),
                        store.contents(),
                    ));
                }
                return r;
            }
        }
        i = i + 1;
    }
    proof {
        assert(ms.take(i as int) =~= ms);
    }
    let stats = ImportStats {
        changesets: 0,
        heads: 0,
        duplicates: consumer.duplicates(),
        successes: consumer.successes(),
        failures: 0,
    };
    (stats, Ok(()))
}

/// How many of the items are manifest blobs with this key.
pub open spec fn manifest_count(ms: Seq<EntryModel>, k: Seq<u8>) -> nat
    decreases ms.len(),
{
    if ms.len() == 0 {
        0
    } else {
        (if ms.first().is_manifest && ms.first().key == k {
            1nat
        } else {
            0nat
        }) + manifest_count(ms.drop_first(), k)
    }
}

/// How many of the items are manifest blobs.
pub open spec fn manifest_total(ms: Seq<EntryModel>) -> nat
    decreases ms.len(),
{
    if ms.len() == 0 {
        0
    } else {
        (if ms.first().is_manifest {
            1nat
        } else {
            0nat
        }) + manifest_total(ms.drop_first())
    }
}

/// The changeset items among the given items, in order.
pub open spec fn changeset_models(ms: Seq<EntryModel>) -> Seq<EntryModel>
    decreases ms.len(),
{
    if ms.len() == 0 {
        Seq::empty()
    } else if !ms.first().is_manifest {
        seq![ms.first()] + changeset_models(ms.drop_first())
    } else {
        changeset_models(ms.drop_first())
    }
}

proof fn lemma_manifest_count_push(ms: Seq<EntryModel>, m: EntryModel, k: Seq<u8>)
    ensures
        manifest_count(ms.push(m), k) == manifest_count(ms, k) + (if m.is_manifest && m.key == k {
            1nat
        } else {
            0nat
        }),
    decreases ms.len(),
{
    let pushed = ms.push(m);
    if ms.len() == 0 {
        assert(pushed.first() == m);
        assert(pushed.drop_first() =~= Seq::<EntryModel>::empty());
        assert(manifest_count(pushed.drop_first(), k) == 0);
    } else {
        assert(pushed.first() == ms.first());
        assert(pushed.drop_first() =~= ms.drop_first().push(m));
        lemma_manifest_count_push(ms.drop_first(), m, k);
    }
}

proof fn lemma_manifest_total_push(ms: Seq<EntryModel>, m: EntryModel)
    ensures
        manifest_total(ms.push(m)) == manifest_total(ms) + (if m.is_manifest {
            1nat
        } else {
            0nat
        }),
    decreases ms.len(),
{
    let pushed = ms.push(m);
    if ms.len() == 0 {
        assert(pushed.first() == m);
        assert(pushed.drop_first() =~= Seq::<EntryModel>::empty());
        assert(manifest_total(pushed.drop_first()) == 0);
    } else {
        assert(pushed.first() == ms.first());
        assert(pushed.drop_first() =~= ms.drop_first().push(m));
        lemma_manifest_total_push(ms.drop_first(), m);
    }
}

proof fn lemma_changeset_models_push(ms: Seq<EntryModel>, m: EntryModel)
    ensures
        changeset_models(ms.push(m)) == if m.is_manifest {
            changeset_models(ms)
        } else {
            changeset_models(ms).push(m)
        },
    decreases ms.len(),
{
    let pushed = ms.push(m);
    if ms.len() == 0 {
        assert(pushed.first() == m);
        assert(pushed.drop_first() =~= Seq::<EntryModel>::empty());
        assert(changeset_models(pushed.drop_first()) == Seq::<EntryModel>::empty());
        if !m.is_manifest {
            assert(seq![m] + Seq::<EntryModel>::empty() =~= changeset_models(ms).push(m));
        }
    } else {
        assert(pushed.first() == ms.first());
        assert(pushed.drop_first() =~= ms.drop_first().push(m));
        lemma_changeset_models_push(ms.drop_first(), m);
        if !ms.first().is_manifest {
            if m.is_manifest {
                assert(changeset_models(pushed) =~= changeset_models(ms));
            } else {
                assert(changeset_models(pushed) =~= changeset_models(ms).push(m));
            }
        }
    }
}

/// One induction carrying every per-run dedup fact, from an arbitrary
/// starting state.
proof fn lemma_consume_all_facts(st: ConsumeState, ms: Seq<EntryModel>, k: Seq<u8>)
    ensures
        ({
            let fin = consume_all(st, ms);
            &&& manifest_count(fin.writes, k) == manifest_count(st.writes, k) + (
            if manifest_count(ms, k) > 0 && !st.seen.contains(k) {
                1nat
            } else {
                0nat
            })
            &&& fin.duplicates + manifest_total(fin.writes) == st.duplicates + manifest_total(
                st.writes,
            ) + manifest_total(ms)
            &&& changeset_models(fin.writes) == changeset_models(st.writes) + changeset_models(ms)
        }),
    decreases ms.len(),
{
    if ms.len() == 0 {
        assert(changeset_models(st.writes) + Seq::<EntryModel>::empty() =~= changeset_models(
            st.writes,
        ));
    } else {
        let m = ms.first();
        let st2 = consume_step(st, m);
        lemma_consume_all_facts(st2, ms.drop_first(), k);
        if m.is_manifest && !st.seen.contains(m.key) {
            lemma_manifest_count_push(st.writes, m, k);
            lemma_manifest_total_push(st.writes, m);
            lemma_changeset_models_push(st.writes, m);
        } else if !m.is_manifest {
            lemma_manifest_count_push(st.writes, m, k);
            lemma_manifest_total_push(st.writes, m);
            lemma_changeset_models_push(st.writes, m);
            assert(changeset_models(st2.writes) =~= changeset_models(st.writes) + seq![m]);
            assert(changeset_models(st.writes) + (seq![m] + changeset_models(ms.drop_first()))
                =~= (changeset_models(st.writes) + seq![m]) + changeset_models(ms.drop_first()));
        }
    }
}

/// The linknode mapping after recording one changeset's objects.
pub open spec fn record_links(
    m: Map<Seq<u8>, Seq<u8>>,
    links: Seq<(RepoPath, NodeHash)>,
    cs: Seq<u8>,
) -> Map<Seq<u8>, Seq<u8>>
    decreases links.len(),
{
    if links.len() == 0 {
        m
    } else {
        record_links(
            m.insert(link_key(links.first().0@, links.first().1@), cs),
            links.drop_first(),
            cs,
        )
    }
}

/// The linknode mapping after converting a run of records; a store that
/// does not persist keeps its mapping.
pub open spec fn all_links(
    m: Map<Seq<u8>, Seq<u8>>,
    recs: Seq<ChangesetRecord>,
    persists: bool,
) -> Map<Seq<u8>, Seq<u8>>
    decreases recs.len(),
{
    if !persists || recs.len() == 0 {
        m
    } else {
        all_links(
            record_links(m, recs.first().linknodes@, recs.first().hash@),
            recs.drop_first(),
            persists,
        )
    }
}

/// The head set after converting a run of records.
pub open spec fn all_heads(s: Set<Seq<u8>>, recs: Seq<ChangesetRecord>) -> Set<Seq<u8>>
    decreases recs.len(),
{
    if recs.len() == 0 {
        s
    } else {
        all_heads(
            if recs.first().is_head {
                s.insert(recs.first().hash@)
            } else {
                s
            },
            recs.drop_first(),
        )
    }
}

/// How many of the records are branch tips.
pub open spec fn count_heads(recs: Seq<ChangesetRecord>) -> nat
    decreases recs.len(),
{
    if recs.len() == 0 {
        0
    } else {
        (if recs.first().is_head {
            1nat
        } else {
            0nat
        }) + count_heads(recs.drop_first())
    }
}

proof fn lemma_record_links_push(
    m: Map<Seq<u8>, Seq<u8>>,
    links: Seq<(RepoPath, NodeHash)>,
    l: (RepoPath, NodeHash),
    cs: Seq<u8>,
)
    ensures
        record_links(m, links.push(l), cs) == record_links(m, links, cs).insert(
            link_key(l.0@, l.1@),
            cs,
        ),
    decreases links.len(),
{
    let pushed = links.push(l);
    if links.len() == 0 {
        assert(pushed.first() == l);
        assert(pushed.drop_first() =~= Seq::<(RepoPath, NodeHash)>::empty());
        assert(record_links(m.insert(link_key(l.0@, l.1@), cs), pushed.drop_first(), cs)
            == m.insert(link_key(l.0@, l.1@), cs));
    } else {
        assert(pushed.first() == links.first());
        assert(pushed.drop_first() =~= links.drop_first().push(l));
        lemma_record_links_push(
            m.insert(link_key(links.first().0@, links.first().1@), cs),
            links.drop_first(),
            l,
            cs,
        );
    }
}

proof fn lemma_all_links_push(
    m: Map<Seq<u8>, Seq<u8>>,
    recs: Seq<ChangesetRecord>,
    rec: ChangesetRecord,
    persists: bool,
)
    ensures
        all_links(m, recs.push(rec), persists) == if persists {
            record_links(all_links(m, recs, persists), rec.linknodes@, rec.hash@)
        } else {
            m
        },
    decreases recs.len(),
{
    let pushed = recs.push(rec);
    if !persists {
    } else if recs.len() == 0 {
        assert(pushed.first() == rec);
        assert(pushed.drop_first() =~= Seq::<ChangesetRecord>::empty());
        assert(all_links(record_links(m, rec.linknodes@, rec.hash@), pushed.drop_first(), persists)
            == record_links(m, rec.linknodes@, rec.hash@));
    } else {
        assert(pushed.first() == recs.first());
        assert(pushed.drop_first() =~= recs.drop_first().push(rec));
        lemma_all_links_push(
            record_links(m, recs.first().linknodes@, recs.first().hash@),
            recs.drop_first(),
            rec,
            persists,
        );
    }
}

proof fn lemma_all_heads_push(s: Set<Seq<u8>>, recs: Seq<ChangesetRecord>, rec: ChangesetRecord)
    ensures
        all_heads(s, recs.push(rec)) == if rec.is_head {
            all_heads(s, recs).insert(rec.hash@)
        } else {
            all_heads(s, recs)
        },
    decreases recs.len(),
{
    let pushed = recs.push(rec);
    if recs.len() == 0 {
        assert(pushed.first() == rec);
        assert(pushed.drop_first() =~= Seq::<ChangesetRecord>::empty());
        if rec.is_head {
            assert(all_heads(s.insert(rec.hash@), pushed.drop_first()) == s.insert(rec.hash@));
        } else {
            assert(all_heads(s, pushed.drop_first()) == s);
        }
    } else {
        assert(pushed.first() == recs.first());
        assert(pushed.drop_first() =~= recs.drop_first().push(rec));
        lemma_all_heads_push(
            if recs.first().is_head {
                s.insert(recs.first().hash@)
            } else {
                s
            },
            recs.drop_first(),
            rec,
        );
    }
}

proof fn lemma_count_heads_push(recs: Seq<ChangesetRecord>, rec: ChangesetRecord)
    ensures
        count_heads(recs.push(rec)) == count_heads(recs) + (if rec.is_head {
            1nat
        } else {
            0nat
        }),
    decreases recs.len(),
{
    let pushed = recs.push(rec);
    if recs.len() == 0 {
        assert(pushed.first() == rec);
        assert(pushed.drop_first() =~= Seq::<ChangesetRecord>::empty());
        assert(count_heads(pushed.drop_first()) == 0);
    } else {
        assert(pushed.first() == recs.first());
        assert(pushed.drop_first() =~= recs.drop_first().push(rec));
        lemma_count_heads_push(recs.drop_first(), rec);
    }
}

/// Record one changeset's side effects: its linknodes, then its head
/// update when it is a branch tip. Returns whether a head was recorded;
/// the first store error aborts, naming what was being done.
pub fn record_side_effects<H: Heads, L: Linknodes>(
    rec: &ChangesetRecord,
    headstore: &mut H,
    linkstore: &mut L,
) -> (r: Result<bool, ImportError>)
    ensures
        final(linkstore).persists() == old(linkstore).persists(),
        r matches Ok(h) ==> ({
            &&& final(linkstore).contents() == (if old(linkstore).persists() {
                record_links(old(linkstore).contents(), rec.linknodes@, rec.hash@)
            } else {
                old(linkstore).contents()
            })
            &&& final(headstore).contents() == (if rec.is_head {
                old(headstore).contents().insert(rec.hash@)
            } else {
                old(headstore).contents()
            })
            &&& h == rec.is_head
        }),
        r matches Err(e) ==> (e matches ImportError::Head(_) || e matches ImportError::Linknode(
            _,
        )),
        r matches Err(e) ==> (e matches ImportError::Head(_) ==> rec.is_head),
        r matches Err(e) ==> (e matches ImportError::Linknode(_) ==> rec.linknodes@.len() > 0),
{
    let ghost persists = linkstore.persists();
    let ghost links_before = linkstore.contents();
    let mut j: usize = 0;
    while j < rec.linknodes.len()
        invariant
            0 <= j <= rec.linknodes@.len(),
            persists == old(linkstore).persists(),
            links_before == old(linkstore).contents(),
            linkstore.persists() == persists,
            linkstore.contents() == (if persists {
                record_links(links_before, rec.linknodes@.take(j as int), rec.hash@)
            } else {
                links_before
            }),
        decreases rec.linknodes@.len() - j,
    {
        let path = rec.linknodes[j].0.clone();
        let node = &rec.linknodes[j].1;
        match linkstore.add(path, node, &rec.hash) {
            Ok(()) => {
                proof {
                    if persists {
                        assert(rec.linknodes@.take(j + 1 as int) =~= rec.linknodes@.take(
                            j as int,
                        ).push(rec.linknodes@[j as int]));
                        lemma_record_links_push(
                            links_before,
                            rec.linknodes@.take(j as int),
                            rec.linknodes@[j as int],
                            rec.hash@,
                        );
                    }
                }
            }
            Err(e) => {
                return Err(ImportError::Linknode(e));
            }
        }
        j = j + 1;
    }
    proof {
        assert(rec.linknodes@.take(rec.linknodes@.len() as int) =~= rec.linknodes@);
    }
    if rec.is_head {
        match headstore.add(&rec.hash) {
            Ok(()) => Ok(true),
            Err(e) => Err(ImportError::Head(e)),
        }
    } else {
        Ok(false)
    }
}

/// Convert and store a whole history in one pass: walk the selected
/// records in commit order, recording each changeset's linknodes and any
/// branch-head update, then drain the emitted work items through the
/// consumer against the blobstore. The first error observed aborts the
/// run; there is no partial-success mode.
#[verifier::rlimit(50)]
pub fn run_import<B: Blobstore, H: Heads, L: Linknodes>(
    records: &Vec<ChangesetRecord>,
    skip: Option<u64>,
    commits_limit: Option<u64>,
    store: &mut B,
    headstore: &mut H,
    linkstore: &mut L,
) -> (r: (ImportStats, Result<(), ImportError>))
    ensures
        r.1 matches Ok(_) ==> ({
            let sel = selected(records@, skip, commits_limit);
            let fin = consume_all(consume_init(), plan_models(sel));
            &&& final(headstore).contents() == all_heads(old(headstore).contents(), sel)
            &&& final(linkstore).contents() == all_links(
                old(linkstore).contents(),
                sel,
                old(linkstore).persists(),
            )
            &&& r.0.changesets == sel.len()
            &&& r.0.heads == count_heads(sel)
            &&& r.0.duplicates == fin.duplicates
            &&& r.0.successes == fin.writes.len()
            &&& r.0.failures == 0
        }),
        ({
            match r.1 {
                Err(e) => (e matches ImportError::Head(_) || e matches ImportError::Linknode(_))
                    ==> (r.0.duplicates == 0 && r.0.successes == 0 && r.0.failures == 0),
                Ok(_) => true,
            }
        }),
        import_put_failure(
            plan_models(selected(records@, skip, commits_limit)),
            r.0,
            r.1,
        ),
        ({
            match r.1 {
                Err(e) => e matches ImportError::Head(_) ==> any_head(
                    selected(records@, skip, commits_limit),
                ),
                Ok(_) => true,
            }
        }),
        ({
            match r.1 {
                Err(e) => e matches ImportError::Linknode(_) ==> any_linknodes(
                    selected(records@, skip, commits_limit),
                ),
                Ok(_) => true,
            }
        }),
        (old(store).is_exact() && r.1 matches Ok(_)) ==> final(store).contents() == apply_writes(
            old(store).contents(),
            consume_all(
                consume_init(),
                plan_models(selected(records@, skip, commits_limit)),
            ).writes,
        ),
        old(store).is_exact() ==> import_store_at_stop(
            plan_models(selected(records@, skip, commits_limit)),
            r.0,
            r.1,
            old(store).contents(),
            final(store).contents(),
        ),
{
    let ghost sel = selected(records@, skip, commits_limit);
    let ghost h0 = headstore.contents();
    let ghost m0 = linkstore.contents();
    let ghost persists = linkstore.persists();
    let mut stats = ImportStats::new();
    let (start, end) = select_bounds(records.len(), skip, commits_limit);
    proof {
        assert(sel =~= records@.subrange(start as int, end as int));
    }
    let mut i: usize = start;
    proof {
        assert(records@.subrange(start as int, start as int) =~= Seq::<ChangesetRecord>::empty());
    }
    while i < end
        invariant
            start <= i <= end <= records@.len(),
            sel == selected(records@, skip, commits_limit),
            sel == records@.subrange(start as int, end as int),
            headstore.contents() == all_heads(h0, records@.subrange(start as int, i as int)),
            linkstore.contents() == all_links(
                m0,
                records@.subrange(start as int, i as int),
                persists,
            ),
            linkstore.persists() == persists,
            stats.changesets == i - start,
            stats.heads == count_heads(records@.subrange(start as int, i as int)),
            stats.heads <= stats.changesets,
            stats.duplicates == 0 && stats.successes == 0 && stats.failures == 0,
        decreases end - i,
    {
        let rec = &records[i];
        let ghost prefix = records@.subrange(start as int, i as int);
        match record_side_effects(rec, headstore, linkstore) {
            Ok(recorded_head) => {
                if recorded_head {
                    stats.heads = stats.heads + 1;
                }
            }
            Err(e) => {
                proof {
                    assert(sel[i - start] == records@[i as int]);
                    if e matches ImportError::Head(_) {
                        assert(any_head(sel));
                    }
                    if e matches ImportError::Linknode(_) {
                        assert(any_linknodes(sel));
                    }
                }
                return (stats, Err(e));
            }
        }
        stats.changesets = stats.changesets + 1;
        proof {
            assert(records@.subrange(start as int, i + 1 as int) =~= prefix.push(
                records@[i as int],
            ));
            assert(rec.linknodes@.take(rec.linknodes@.len() as int) =~= rec.linknodes@);
            lemma_all_heads_push(h0, prefix, records@[i as int]);
            lemma_all_links_push(m0, prefix, records@[i as int], persists);
            lemma_count_heads_push(prefix, records@[i as int]);
        }
        i = i + 1;
    }
    proof {
        assert(records@.subrange(start as int, end as int) =~= sel);
    }
    let entries = plan_import(records, skip, commits_limit);
    let (cstats, res) = run_consumer(store, &entries);
    stats.duplicates = cstats.duplicates;
    stats.successes = cstats.successes;
    stats.failures = cstats.failures;
    proof {
        assert(models_of(entries@) == plan_models(sel));
        match &res {
            Err(e) => {
                let i = choose|i: int| consumer_failed_at(models_of(entries@), i, cstats, *e);
                assert(consumer_failed_at(
                    plan_models(selected(records@, skip, commits_limit)),
                    i,
                    stats,
                    *e,
                ));
                if old(store).is_exact() {
                    let j = choose|j: int|
                        #![trigger consumer_failed_at(models_of(entries@), j, cstats, *e)]
                        consumer_failed_at(models_of(entries@), j, cstats, *e)
                            && store.contents() == apply_writes(
                            old(store).contents(),
                            consume_all(consume_init(), models_of(entries@).take(j)).writes,
                        );
                    assert(consumer_failed_at(
                        plan_models(selected(records@, skip, commits_limit)),
                        j,
                        stats,
                        *e,
                    ));
                }
            }
            Ok(_) => {}
        }
        assert(import_put_failure(
            plan_models(selected(records@, skip, commits_limit)),
            stats,
            res,
        ));
        assert(old(store).is_exact() ==> import_store_at_stop(
            plan_models(selected(records@, skip, commits_limit)),
            stats,
            res,
            old(store).contents(),
            store.contents(),
        ));
    }
    (stats, res)
}

/// Deduplication across one consumer run: a manifest key is written at
/// most once — exactly once when any item carries it — the duplicate
/// tally counts exactly the manifest items beyond each key's first, and
/// every changeset item is written, in order, deduplicated never.
pub proof fn lemma_dedup(ms: Seq<EntryModel>, k: Seq<u8>)
    ensures
        ({
            let fin = consume_all(consume_init(), ms);
            &&& manifest_count(fin.writes, k) == if manifest_count(ms, k) > 0 {
                1nat
            } else {
                0nat
            }
            &&& fin.duplicates + manifest_total(fin.writes) == manifest_total(ms)
            &&& changeset_models(fin.writes) == changeset_models(ms)
        }),
{
    lemma_consume_all_facts(consume_init(), ms, k);
    let fin = consume_all(consume_init(), ms);
    assert(Seq::<EntryModel>::empty() + changeset_models(ms) =~= changeset_models(ms));
}

} // verus!
