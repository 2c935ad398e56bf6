use vstd::prelude::*;

use crate::cache::Cache;
use crate::cache::NoteEntryView;
use crate::cache::bytes_clone;
use crate::error::SyncError;
use crate::filter::find_owner;
use crate::filter::lemma_owner_index;
use crate::filter::owner_index;
use crate::keys::KeyTuple;

verus! {

/// The serialized request payload that asks the ledger for all note
/// records from `pos` onward; a function of the position alone.
pub uninterp spec fn position_request_bytes(pos: u64) -> Seq<u8>;

/// Relies on rkyv::to_bytes: the archived form of an integer depends on
/// the integer alone, serializing an integer cannot fail (its Serialize
/// impl returns Ok and the output serializer's write error is
/// Infallible), and an archived 64-bit integer is its 8 bytes.
#[verifier::external_body]
fn encode_position_request(pos: u64) -> (r: Result<Vec<u8>, SyncError>)
    ensures
        r is Ok,
        r matches Ok(v) ==> v@ == position_request_bytes(pos) && v@.len() == 8,
{
    match rkyv::to_bytes::<u64, 8>(&pos) {
        Ok(v) => Ok(v.to_vec()),
        Err(_) => Err(SyncError::Deserialization),
    }
}

/// The position the next sync run must request records from: one past
/// the persisted high-water mark, or the very beginning when the wallet
/// was never synced.
pub open spec fn spec_request_pos(last: Option<u64>) -> u64 {
    match last {
        Some(p) => (p + 1) as u64,
        None => 0u64,
    }
}

/// The starting watermark of a run: the persisted position, or zero when
/// none was ever persisted.
pub open spec fn spec_watermark_base(last: Option<u64>) -> u64 {
    match last {
        Some(p) => p,
        None => 0u64,
    }
}

/// The resume point of the next run: the position to request records
/// from and the watermark to start the running maximum at.
pub fn resume_points(last: Option<u64>) -> (r: (u64, u64))
    requires
        last matches Some(p) ==> p < u64::MAX,
    ensures
        r.0 == spec_request_pos(last),
        r.1 == spec_watermark_base(last),
{
    match last {
        Some(p) => (p + 1, p),
        None => (0, 0),
    }
}

/// Reads the resume point from the cache and builds the remote request
/// for every record from there onward.
///
/// Always returns the position to search from, the starting watermark,
/// and the serialized request payload: encoding a position cannot fail.
pub fn prepare_stream_request(cache: &Cache) -> (r: Result<(u64, u64, Vec<u8>), SyncError>)
    requires
        cache.pos_view() matches Some(p) ==> p < u64::MAX,
    ensures
        r is Ok,
        r matches Ok(t) ==> t.0 == spec_request_pos(cache.pos_view()) && t.1
            == spec_watermark_base(cache.pos_view()) && t.2@ == position_request_bytes(t.0),
    {
    let last = cache.last_pos();
    let (pos_to_search, base) = resume_points(last);
    match encode_position_request(pos_to_search) {
        Ok(req) => Ok((pos_to_search, base, req)),
        Err(_) => Err(SyncError::Deserialization),
    }
}

/// One decoded record together with the cryptography collaborator's
/// verdicts on it: one ownership answer per configured key, in the
/// caller-supplied key order, and the nullifier derived with the first
/// owning key's spend key, when there is one.
pub struct CandidateRecord {
    /// Height of the block the note was produced in.
    pub block_height: u64,
    /// The ledger-assigned position of the note.
    pub pos: u64,
    /// The serialized note payload, opaque to the engine.
    pub note: Vec<u8>,
    /// For each configured key, whether its view key owns the note.
    pub owns: Vec<bool>,
    /// The nullifier derived for the first owning key; present exactly
    /// when some key owns the note.
    pub nullifier: Option<Vec<u8>>,
}

/// A candidate is coherent with a key list when it carries one verdict
/// per key and a nullifier exactly when some key owns it.
pub open spec fn candidate_wf(item: CandidateRecord, nkeys: nat) -> bool {
    &&& item.owns@.len() == nkeys
    &&& (item.nullifier is Some <==> owner_index(item.owns@) is Some)
}

/// The live partition of `qk` after processing `items` in order against
/// `keys`, starting from `m`: each owned record is written into its
/// first owner's partition under its nullifier.
pub open spec fn live_after(
    m: Map<Seq<u8>, NoteEntryView>,
    qk: Seq<u8>,
    keys: Seq<KeyTuple>,
    items: Seq<CandidateRecord>,
) -> Map<Seq<u8>, NoteEntryView>
    decreases items.len(),
{
    if items.len() == 0 {
        m
    } else {
        let prev = live_after(m, qk, keys, items.drop_last());
        let it = items.last();
        match owner_index(it.owns@) {
            Some(i) => if 0 <= i < keys.len() && keys[i].public@ == qk && it.nullifier is Some {
                prev.insert(
                    it.nullifier.unwrap()@,
                    NoteEntryView { block_height: it.block_height, note: it.note@ },
                )
            } else {
                prev
            },
            None => prev,
        }
    }
}

/// The running maximum position after processing `items`, starting from
/// `base`.
pub open spec fn watermark_after(base: u64, items: Seq<CandidateRecord>) -> u64
    decreases items.len(),
{
    if items.len() == 0 {
        base
    } else {
        let prev = watermark_after(base, items.drop_last());
        if items.last().pos > prev {
            items.last().pos
        } else {
            prev
        }
    }
}

/// The watermark never sinks below its base nor below any processed
/// position, whatever order positions arrive in.
pub proof fn lemma_watermark_monotone(base: u64, items: Seq<CandidateRecord>)
    ensures
        base <= watermark_after(base, items),
        forall|a: int|
            0 <= a < items.len() ==> (#[trigger] items[a]).pos <= watermark_after(base, items),
    decreases items.len(),
{
    if items.len() > 0 {
        lemma_watermark_monotone(base, items.drop_last());
        assert forall|a: int|
            0 <= a < items.len() implies (#[trigger] items[a]).pos <= watermark_after(
            base,
            items,
        ) by {
            if a < items.len() - 1 {
                assert(items.drop_last()[a] == items[a]);
            }
        }
    }
}

/// Monotonic position: across any two consecutive batches, within one
/// run or across runs, the persisted watermark never decreases — even
/// when records arrive with out-of-order positions.
pub proof fn lemma_position_monotone(
    base: u64,
    first: Seq<CandidateRecord>,
    second: Seq<CandidateRecord>,
)
    ensures
        base <= watermark_after(base, first),
        watermark_after(base, first) <= watermark_after(watermark_after(base, first), second),
{
    lemma_watermark_monotone(base, first);
    lemma_watermark_monotone(watermark_after(base, first), second);
}

/// Processing an empty batch changes nothing: the live partitions and
/// the watermark come out exactly as they went in. Together with the
/// position-cache clauses of [`process_records`], a completed run
/// followed by a run that receives no new records performs zero
/// insertions and leaves the position cache unchanged.
pub proof fn lemma_empty_run_identity(
    m: Map<Seq<u8>, NoteEntryView>,
    qk: Seq<u8>,
    keys: Seq<KeyTuple>,
    base: u64,
)
    ensures
        live_after(m, qk, keys, Seq::<CandidateRecord>::empty()) == m,
        watermark_after(base, Seq::<CandidateRecord>::empty()) == base,
{
}

/// The record's nullifier does not collide with its owner's spent
/// partition in `c`: the condition under which an insertion keeps live
/// and spent disjoint.
pub open spec fn no_spent_collision(item: CandidateRecord, keys: Seq<KeyTuple>, c: Cache) -> bool {
    match owner_index(item.owns@) {
        Some(i) => (0 <= i < keys.len() && item.nullifier is Some) ==> !c.spent_map(
            keys[i].public@,
        ).dom().contains(item.nullifier.unwrap()@),
        None => true,
    }
}

/// Runs the decode-filter-persist step of one batch of records, in
/// stream order.
///
/// Each record first raises the running maximum position; if some key
/// owns it, the note is written into that key's live partition under its
/// nullifier; then the running maximum is persisted, so an interrupted
/// run never has to revisit a completed record. Records owned by no key
/// are discarded but still advance the observed position.
pub fn process_records(
    cache: &mut Cache,
    keys: &Vec<KeyTuple>,
    items: &Vec<CandidateRecord>,
    base: u64,
) -> (wm: u64)
    requires
        old(cache).wf(),
        forall|a: int| 0 <= a < items@.len() ==> candidate_wf(#[trigger] items@[a], keys@.len()),
    ensures
        final(cache).wf(),
        wm == watermark_after(base, items@),
        forall|qk: Seq<u8>|
            (#[trigger] final(cache).live_map(qk)) == live_after(
                old(cache).live_map(qk),
                qk,
                keys@,
                items@,
            ),
        forall|qk: Seq<u8>| (#[trigger] final(cache).spent_map(qk)) == old(cache).spent_map(qk),
        final(cache).pos_view() == if items@.len() == 0 {
            old(cache).pos_view()
        } else {
            Some(wm)
        },
        old(cache).partitions_disjoint() && (forall|a: int|
            0 <= a < items@.len() ==> no_spent_collision(#[trigger] items@[a], keys@, *old(cache)))
            ==> final(cache).partitions_disjoint(),
{
    let mut wm: u64 = base;
    let mut i: usize = 0;
    proof {
        assert(items@.take(0) =~= Seq::<CandidateRecord>::empty());
    }
    while i < items.len()
        invariant
            cache.wf(),
            i <= items@.len(),
            forall|a: int|
                0 <= a < items@.len() ==> candidate_wf(#[trigger] items@[a], keys@.len()),
            wm == watermark_after(base, items@.take(i as int)),
            forall|qk: Seq<u8>|
                (#[trigger] cache.live_map(qk)) == live_after(
                    old(cache).live_map(qk),
                    qk,
                    keys@,
                    items@.take(i as int),
                ),
            forall|qk: Seq<u8>| (#[trigger] cache.spent_map(qk)) == old(cache).spent_map(qk),
            cache.pos_view() == if i == 0 {
                old(cache).pos_view()
            } else {
                Some(wm)
            },
            old(cache).partitions_disjoint() && (forall|a: int|
                0 <= a < items@.len() ==> no_spent_collision(
                    #[trigger] items@[a],
                    keys@,
                    *old(cache),
                )) ==> cache.partitions_disjoint(),
        decreases items@.len() - i,
    {
        let item = &items[i];
        if item.pos > wm {
            wm = item.pos;
        }
        let ghost prefix = items@.take(i as int);
        let owner = find_owner(&item.owns);
        proof {
            lemma_owner_index(item.owns@);
        }
        match owner {
            Some(k) => {
                let nf = match &item.nullifier {
                    Some(v) => bytes_clone(v),
                    None => unreached(),
                };
                let note = bytes_clone(&item.note);
                cache.insert(&keys[k].public, item.block_height, note, nf);
            },
            None => {},
        }
        cache.insert_last_pos(wm);
        i = i + 1;
        proof {
            assert(items@.take(i as int) =~= prefix.push(items@[i - 1]));
            assert(items@.take(i as int).drop_last() =~= prefix);
            assert forall|qk: Seq<u8>|
                (#[trigger] cache.live_map(qk)) == live_after(
                    old(cache).live_map(qk),
                    qk,
                    keys@,
                    items@.take(i as int),
                ) by {
                let prev = live_after(old(cache).live_map(qk), qk, keys@, prefix);
                assert(items@.take(i as int).last() == items@[i - 1]);
            }
        }
    }
    proof {
        assert(items@.take(items@.len() as int) =~= items@);
    }
    wm
}

/// Whether the spent-note reconciliation for a key needs a remote round
/// trip: only when some live nullifier exists to ask about. An empty
/// live partition short-circuits without contacting the node.
pub fn needs_remote_query(nullifiers: &Vec<Vec<u8>>) -> (b: bool)
    ensures
        b <==> nullifiers@.len() > 0,
{
    nullifiers.len() > 0
}

/// The byte sequences of a list of byte vectors.
pub open spec fn byte_views(s: Seq<Vec<u8>>) -> Seq<Seq<u8>> {
    s.map_values(|v: Vec<u8>| v@)
}

/// The live partition after migrating the first `n` confirmed
/// nullifiers, in order: each migration removes its nullifier from live.
pub open spec fn moved_live(
    live: Map<Seq<u8>, NoteEntryView>,
    confirmed: Seq<Seq<u8>>,
    n: int,
) -> Map<Seq<u8>, NoteEntryView>
    decreases n,
{
    if n <= 0 {
        live
    } else {
        moved_live(live, confirmed, n - 1).remove(confirmed[n - 1])
    }
}

/// The spent partition after migrating the first `n` confirmed
/// nullifiers: each found nullifier carries its live entry over,
/// unmodified.
pub open spec fn moved_spent(
    live: Map<Seq<u8>, NoteEntryView>,
    spent: Map<Seq<u8>, NoteEntryView>,
    confirmed: Seq<Seq<u8>>,
    n: int,
) -> Map<Seq<u8>, NoteEntryView>
    decreases n,
{
    if n <= 0 {
        spent
    } else {
        let prev_live = moved_live(live, confirmed, n - 1);
        let prev = moved_spent(live, spent, confirmed, n - 1);
        if prev_live.dom().contains(confirmed[n - 1]) {
            prev.insert(confirmed[n - 1], prev_live[confirmed[n - 1]])
        } else {
            prev
        }
    }
}

/// Whether the first `n` migrations all find their nullifier live at
/// their turn.
pub open spec fn moves_ok(live: Map<Seq<u8>, NoteEntryView>, confirmed: Seq<Seq<u8>>, n: int) -> bool
    decreases n,
{
    if n <= 0 {
        true
    } else {
        moves_ok(live, confirmed, n - 1) && moved_live(live, confirmed, n - 1).dom().contains(
            confirmed[n - 1],
        )
    }
}

proof fn lemma_moves_ok_mono(live: Map<Seq<u8>, NoteEntryView>, confirmed: Seq<Seq<u8>>, a: int, b: int)
    requires
        a <= b,
        moves_ok(live, confirmed, b),
    ensures
        moves_ok(live, confirmed, a),
    decreases b,
{
    if a < b && b > 0 {
        lemma_moves_ok_mono(live, confirmed, a, b - 1);
    }
}

/// Migrates every nullifier the remote ledger confirmed as spent out of
/// the live partition of `pk` and into its spent partition, in response
/// order.
///
/// A confirmed nullifier absent from the live partition is an invariant
/// violation: the run stops there with a not-found error, migrations
/// already made stand, and nothing else is touched. Migration keeps live
/// and spent disjoint.
pub fn reconcile_with_confirmed(cache: &mut Cache, pk: &Vec<u8>, confirmed: &Vec<Vec<u8>>) -> (r:
    Result<(), SyncError>)
    requires
        old(cache).wf(),
    ensures
        final(cache).wf(),
        final(cache).pos_view() == old(cache).pos_view(),
        forall|qk: Seq<u8>|
            qk != pk@ ==> (#[trigger] final(cache).live_map(qk)) == old(cache).live_map(qk),
        forall|qk: Seq<u8>|
            qk != pk@ ==> (#[trigger] final(cache).spent_map(qk)) == old(cache).spent_map(qk),
        r is Ok <==> moves_ok(
            old(cache).live_map(pk@),
            byte_views(confirmed@),
            confirmed@.len() as int,
        ),
        r is Ok ==> final(cache).live_map(pk@) == moved_live(
            old(cache).live_map(pk@),
            byte_views(confirmed@),
            confirmed@.len() as int,
        ) && final(cache).spent_map(pk@) == moved_spent(
            old(cache).live_map(pk@),
            old(cache).spent_map(pk@),
            byte_views(confirmed@),
            confirmed@.len() as int,
        ),
        r is Err ==> r == Err::<(), SyncError>(SyncError::NotFound) && (exists|n: int|
            0 <= n < confirmed@.len() && moves_ok(old(cache).live_map(pk@), byte_views(confirmed@), n)
                && !moved_live(old(cache).live_map(pk@), byte_views(confirmed@), n).dom().contains(
                byte_views(confirmed@)[n],
            ) && final(cache).live_map(pk@) == moved_live(
                old(cache).live_map(pk@),
                byte_views(confirmed@),
                n,
            ) && final(cache).spent_map(pk@) == moved_spent(
                old(cache).live_map(pk@),
                old(cache).spent_map(pk@),
                byte_views(confirmed@),
                n,
            )),
        old(cache).partitions_disjoint() ==> final(cache).partitions_disjoint(),
{
    let ghost views = byte_views(confirmed@);
    let ghost live0 = old(cache).live_map(pk@);
    let ghost spent0 = old(cache).spent_map(pk@);
    let mut n: usize = 0;
    while n < confirmed.len()
        invariant
            cache.wf(),
            n <= confirmed@.len(),
            views == byte_views(confirmed@),
            live0 == old(cache).live_map(pk@),
            spent0 == old(cache).spent_map(pk@),
            moves_ok(live0, views, n as int),
            cache.live_map(pk@) == moved_live(live0, views, n as int),
            cache.spent_map(pk@) == moved_spent(live0, spent0, views, n as int),
            forall|qk: Seq<u8>|
                qk != pk@ ==> (#[trigger] cache.live_map(qk)) == old(cache).live_map(qk),
            forall|qk: Seq<u8>|
                qk != pk@ ==> (#[trigger] cache.spent_map(qk)) == old(cache).spent_map(qk),
            cache.pos_view() == old(cache).pos_view(),
            old(cache).partitions_disjoint() ==> cache.partitions_disjoint(),
        decreases confirmed@.len() - n,
    {
        proof {
            assert(views[n as int] == confirmed@[n as int]@);
        }
        let r = cache.move_to_spent(pk, &confirmed[n]);
        match r {
            Ok(_) => {
                n = n + 1;
            },
            Err(_) => {
                proof {
                    let ghost w = n as int;
                    assert(moves_ok(live0, views, w) && !moved_live(live0, views, w).dom().contains(
                        views[w],
                    ));
                    if moves_ok(live0, views, confirmed@.len() as int) {
                        lemma_moves_ok_mono(live0, views, w + 1, confirmed@.len() as int);
                    }
                }
                return Err(SyncError::NotFound);
            },
        }
    }
    Ok(())
}

/// Reconciliation correctness: when the confirmed nullifiers are
/// distinct and all live, every migration in the batch succeeds, the
/// live partition is left holding exactly the nullifiers that were not
/// confirmed, and the spent partition its old contents plus the
/// confirmed ones.
pub proof fn lemma_reconcile_partitions(
    live: Map<Seq<u8>, NoteEntryView>,
    spent: Map<Seq<u8>, NoteEntryView>,
    confirmed: Seq<Seq<u8>>,
    n: int,
)
    requires
        0 <= n <= confirmed.len(),
        forall|a: int, b: int|
            #![trigger confirmed[a], confirmed[b]]
            0 <= a < b < confirmed.len() ==> confirmed[a] != confirmed[b],
        forall|a: int| 0 <= a < confirmed.len() ==> live.dom().contains(#[trigger] confirmed[a]),
    ensures
        moves_ok(live, confirmed, n),
        forall|k: Seq<u8>|
            #![trigger moved_live(live, confirmed, n).dom().contains(k)]
            moved_live(live, confirmed, n).dom().contains(k) <==> (live.dom().contains(k)
                && !confirmed.take(n).contains(k)),
        forall|k: Seq<u8>|
            #![trigger moved_spent(live, spent, confirmed, n).dom().contains(k)]
            moved_spent(live, spent, confirmed, n).dom().contains(k) <==> (spent.dom().contains(k)
                || confirmed.take(n).contains(k)),
    decreases n,
{
    if n <= 0 {
        assert(confirmed.take(0) =~= Seq::<Seq<u8>>::empty());
        assert(forall|k: Seq<u8>| !confirmed.take(0).contains(k));
    } else {
        lemma_reconcile_partitions(live, spent, confirmed, n - 1);
        let c = confirmed[n - 1];
        assert(!confirmed.take(n - 1).contains(c)) by {
            if confirmed.take(n - 1).contains(c) {
                let a = choose|a: int| 0 <= a < n - 1 && #[trigger] confirmed.take(n - 1)[a] == c;
                assert(confirmed[a] == confirmed[n - 1]);
            }
        }
        assert(moved_live(live, confirmed, n - 1).dom().contains(c));
        assert(confirmed.take(n) =~= confirmed.take(n - 1).push(c));
        assert forall|k: Seq<u8>|
            #![trigger confirmed.take(n).contains(k)]
            confirmed.take(n).contains(k) <==> (confirmed.take(n - 1).contains(k) || k == c) by {
            if confirmed.take(n).contains(k) {
                let a = choose|a: int| 0 <= a < n && #[trigger] confirmed.take(n)[a] == k;
                if a < n - 1 {
                    assert(confirmed.take(n - 1)[a] == k);
                }
            } else {
                assert(confirmed.take(n)[n - 1] == c);
            }
            if confirmed.take(n - 1).contains(k) {
                let a = choose|a: int| 0 <= a < n - 1 && #[trigger] confirmed.take(n - 1)[a] == k;
                assert(confirmed.take(n)[a] == k);
            }
        }
        assert forall|k: Seq<u8>|
            #![trigger moved_live(live, confirmed, n).dom().contains(k)]
            moved_live(live, confirmed, n).dom().contains(k) <==> (live.dom().contains(k)
                && !confirmed.take(n).contains(k)) by {
            assert(moved_live(live, confirmed, n) == moved_live(live, confirmed, n - 1).remove(c));
        }
        assert forall|k: Seq<u8>|
            #![trigger moved_spent(live, spent, confirmed, n).dom().contains(k)]
            moved_spent(live, spent, confirmed, n).dom().contains(k) <==> (spent.dom().contains(k)
                || confirmed.take(n).contains(k)) by {
            assert(moved_spent(live, spent, confirmed, n) == moved_spent(
                live,
                spent,
                confirmed,
                n - 1,
            ).insert(c, moved_live(live, confirmed, n - 1)[c]));
        }
    }
}

} // verus!
