use vstd::prelude::*;
use vstd::std_specs::cmp::PartialEqSpec;

use crate::error::SyncError;

verus! {

/// The data stored for one owned note: the height of the block that
/// produced it and its opaque serialized payload.
pub struct NoteEntry {
    /// Height of the block the note was produced in.
    pub block_height: u64,
    /// Serialized confidential-output payload; opaque to the engine.
    pub note: Vec<u8>,
}

/// Mathematical value of a [`NoteEntry`].
pub struct NoteEntryView {
    /// Height of the block the note was produced in.
    pub block_height: u64,
    /// The payload bytes.
    pub note: Seq<u8>,
}

impl View for NoteEntry {
    type V = NoteEntryView;

    open spec fn view(&self) -> NoteEntryView {
        NoteEntryView { block_height: self.block_height, note: self.note@ }
    }
}

/// One key's two partitions: notes still spendable and notes confirmed
/// spent, each keyed by nullifier bytes in storage order.
struct AddressPartitions {
    pk: Vec<u8>,
    live: Vec<(Vec<u8>, NoteEntry)>,
    spent: Vec<(Vec<u8>, NoteEntry)>,
}

/// The partial map that a key-value listing denotes: later entries win,
/// though well-formed listings never repeat a key.
pub open spec fn entries_map(s: Seq<(Vec<u8>, NoteEntry)>) -> Map<Seq<u8>, NoteEntryView>
    decreases s.len(),
{
    if s.len() == 0 {
        Map::empty()
    } else {
        entries_map(s.drop_last()).insert(s.last().0@, s.last().1@)
    }
}

/// No two entries of the listing share a key.
pub open spec fn distinct_keys(s: Seq<(Vec<u8>, NoteEntry)>) -> bool {
    forall|i: int, j: int| #![trigger s[i], s[j]] 0 <= i < j < s.len() ==> s[i].0@ != s[j].0@
}

/// The first partition record for `pk`, if one exists.
spec fn find_part(parts: Seq<AddressPartitions>, pk: Seq<u8>) -> Option<AddressPartitions>
    decreases parts.len(),
{
    if parts.len() == 0 {
        None
    } else if parts.first().pk@ == pk {
        Some(parts.first())
    } else {
        find_part(parts.drop_first(), pk)
    }
}

proof fn lemma_entries_map_domain(s: Seq<(Vec<u8>, NoteEntry)>)
    ensures
        forall|k: Seq<u8>|
            entries_map(s).dom().contains(k) <==> (exists|i: int|
                0 <= i < s.len() && (#[trigger] s[i]).0@ == k),
    decreases s.len(),
{
    if s.len() > 0 {
        lemma_entries_map_domain(s.drop_last());
        assert forall|k: Seq<u8>| entries_map(s).dom().contains(k) implies (exists|i: int|
            0 <= i < s.len() && (#[trigger] s[i]).0@ == k) by {
            if k == s.last().0@ {
                assert(s[s.len() - 1].0@ == k);
            } else {
                assert(entries_map(s).dom() == entries_map(s.drop_last()).dom().insert(
                    s.last().0@,
                ));
                assert(entries_map(s.drop_last()).dom().contains(k));
                let i = choose|i: int| 0 <= i < s.drop_last().len() && (#[trigger] s.drop_last()[i]).0@ == k;
                assert(s.drop_last()[i] == s[i]);
                assert(s[i].0@ == k);
            }
        }
        assert forall|k: Seq<u8>| (exists|i: int| 0 <= i < s.len() && (#[trigger] s[i]).0@ == k)
            implies entries_map(s).dom().contains(k) by {
            let i = choose|i: int| 0 <= i < s.len() && (#[trigger] s[i]).0@ == k;
            if i < s.len() - 1 {
                assert(s.drop_last()[i] == s[i]);
                assert(exists|l: int|
                    0 <= l < s.drop_last().len() && (#[trigger] s.drop_last()[l]).0@ == k);
                assert(entries_map(s.drop_last()).dom().contains(k));
                assert(entries_map(s).dom() == entries_map(s.drop_last()).dom().insert(
                    s.last().0@,
                ));
            } else {
                assert(k == s.last().0@);
            }
        }
    }
}

proof fn lemma_entries_map_lookup(s: Seq<(Vec<u8>, NoteEntry)>, j: int)
    requires
        distinct_keys(s),
        0 <= j < s.len(),
    ensures
        entries_map(s).dom().contains(s[j].0@),
        entries_map(s)[s[j].0@] == s[j].1@,
    decreases s.len(),
{
    if j == s.len() - 1 {
    } else {
        assert(distinct_keys(s.drop_last())) by {
            assert(forall|i: int, l: int|
                #![trigger s.drop_last()[i], s.drop_last()[l]]
                0 <= i < l < s.drop_last().len() ==> s.drop_last()[i] == s[i] && s.drop_last()[l]
                    == s[l]);
        }
        lemma_entries_map_lookup(s.drop_last(), j);
        assert(s[j].0@ != s.last().0@);
    }
}

proof fn lemma_entries_map_remove(s: Seq<(Vec<u8>, NoteEntry)>, j: int)
    requires
        distinct_keys(s),
        0 <= j < s.len(),
    ensures
        entries_map(s.remove(j)) == entries_map(s).remove(s[j].0@),
        distinct_keys(s.remove(j)),
        forall|i: int|
            0 <= i < s.remove(j).len() ==> (#[trigger] s.remove(j)[i]).0@ != s[j].0@,
    decreases s.len(),
{
    assert(forall|i: int|
        0 <= i < s.remove(j).len() ==> #[trigger] s.remove(j)[i] == if i < j {
            s[i]
        } else {
            s[i + 1]
        });
    assert(distinct_keys(s.remove(j)));
    assert(forall|i: int| 0 <= i < s.remove(j).len() ==> (#[trigger] s.remove(j)[i]).0@ != s[j].0@);
    if j == s.len() - 1 {
        assert(s.remove(j) =~= s.drop_last());
        lemma_entries_map_domain(s.drop_last());
        assert(!entries_map(s.drop_last()).dom().contains(s[j].0@)) by {
            assert(forall|i: int|
                0 <= i < s.drop_last().len() ==> (#[trigger] s.drop_last()[i]).0@ != s[j].0@);
        }
        assert(entries_map(s.drop_last()) =~= entries_map(s).remove(s[j].0@));
    } else {
        assert(distinct_keys(s.drop_last())) by {
            assert(forall|i: int, l: int|
                #![trigger s.drop_last()[i], s.drop_last()[l]]
                0 <= i < l < s.drop_last().len() ==> s.drop_last()[i] == s[i] && s.drop_last()[l]
                    == s[l]);
        }
        lemma_entries_map_remove(s.drop_last(), j);
        assert(s.remove(j).drop_last() =~= s.drop_last().remove(j));
        assert(s.remove(j).last() == s.last());
        assert(s[j].0@ != s.last().0@);
        assert(entries_map(s.drop_last()).remove(s[j].0@).insert(s.last().0@, s.last().1@)
            =~= entries_map(s).remove(s[j].0@));
    }
}

proof fn lemma_find_part_update(
    parts: Seq<AddressPartitions>,
    i: int,
    p: AddressPartitions,
    qk: Seq<u8>,
)
    requires
        0 <= i < parts.len(),
        p.pk@ == parts[i].pk@,
        forall|a: int, b: int|
            #![trigger parts[a], parts[b]]
            0 <= a < b < parts.len() ==> parts[a].pk@ != parts[b].pk@,
    ensures
        find_part(parts.update(i, p), qk) == if qk == parts[i].pk@ {
            Some(p)
        } else {
            find_part(parts, qk)
        },
    decreases parts.len(),
{
    let u = parts.update(i, p);
    if i == 0 {
        assert(u.first() == p);
        if qk != p.pk@ {
            assert(u.drop_first() =~= parts.drop_first());
        }
    } else {
        assert(u.first() == parts.first());
        if qk == parts.first().pk@ {
            assert(parts[i].pk@ != qk);
        } else {
            assert(u.drop_first() =~= parts.drop_first().update(i - 1, p));
            assert(forall|a: int, b: int|
                #![trigger parts.drop_first()[a], parts.drop_first()[b]]
                0 <= a < b < parts.drop_first().len() ==> parts.drop_first()[a] == parts[a + 1]
                    && parts.drop_first()[b] == parts[b + 1]);
            lemma_find_part_update(parts.drop_first(), i - 1, p, qk);
        }
    }
}

proof fn lemma_find_part_push(parts: Seq<AddressPartitions>, p: AddressPartitions, qk: Seq<u8>)
    ensures
        find_part(parts.push(p), qk) == match find_part(parts, qk) {
            Some(q) => Some(q),
            None => if p.pk@ == qk {
                Some(p)
            } else {
                None
            },
        },
    decreases parts.len(),
{
    if parts.len() == 0 {
        assert(parts.push(p).first() == p);
        if p.pk@ != qk {
            assert(parts.push(p).drop_first() =~= Seq::<AddressPartitions>::empty());
        }
    } else {
        assert(parts.push(p).first() == parts.first());
        assert(parts.push(p).drop_first() =~= parts.drop_first().push(p));
        lemma_find_part_push(parts.drop_first(), p, qk);
    }
}

proof fn lemma_find_part_index(parts: Seq<AddressPartitions>, i: int)
    requires
        0 <= i < parts.len(),
        forall|a: int| #![trigger parts[a]] 0 <= a < i ==> parts[a].pk@ != parts[i].pk@,
    ensures
        find_part(parts, parts[i].pk@) == Some(parts[i]),
    decreases i,
{
    if i > 0 {
        assert(forall|a: int|
            #![trigger parts.drop_first()[a]]
            0 <= a < parts.drop_first().len() ==> parts.drop_first()[a] == parts[a + 1]);
        lemma_find_part_index(parts.drop_first(), i - 1);
    }
}

proof fn lemma_find_part_none(parts: Seq<AddressPartitions>, qk: Seq<u8>)
    requires
        forall|a: int| #![trigger parts[a]] 0 <= a < parts.len() ==> parts[a].pk@ != qk,
    ensures
        find_part(parts, qk) is None,
    decreases parts.len(),
{
    if parts.len() > 0 {
        assert(forall|a: int|
            #![trigger parts.drop_first()[a]]
            0 <= a < parts.drop_first().len() ==> parts.drop_first()[a] == parts[a + 1]);
        lemma_find_part_none(parts.drop_first(), qk);
    }
}

proof fn lemma_find_part_none_converse(parts: Seq<AddressPartitions>, qk: Seq<u8>)
    requires
        find_part(parts, qk) is None,
    ensures
        forall|a: int| #![trigger parts[a]] 0 <= a < parts.len() ==> parts[a].pk@ != qk,
    decreases parts.len(),
{
    if parts.len() > 0 {
        lemma_find_part_none_converse(parts.drop_first(), qk);
        assert(forall|a: int|
            #![trigger parts[a]]
            1 <= a < parts.len() ==> parts[a] == parts.drop_first()[a - 1]);
    }
}

/// True when `r` could be the outcome of comparing the byte views.
pub(crate) fn bytes_eq(a: &Vec<u8>, b: &Vec<u8>) -> (r: bool)
    ensures
        r <==> a@ == b@,
{
    let r = a == b;
    proof {
        if r {
            assert(a@ =~= b@);
        } else {
            if a@ == b@ {
                assert(a.eq_spec(b));
            }
        }
    }
    r
}

/// A fresh vector holding the same bytes.
pub(crate) fn bytes_clone(v: &Vec<u8>) -> (r: Vec<u8>)
    ensures
        r@ == v@,
{
    let mut r: Vec<u8> = Vec::new();
    let mut i: usize = 0;
    while i < v.len()
        invariant
            i <= v@.len(),
            r@ == v@.take(i as int),
        decreases v@.len() - i,
    {
        r.push(v[i]);
        i = i + 1;
        assert(v@.take(i as int) =~= v@.take(i - 1).push(v@[i - 1]));
    }
    assert(v@.take(v@.len() as int) =~= v@);
    r
}

/// Finds an entry with the given key in a key-value listing.
fn find_entry_index(entries: &Vec<(Vec<u8>, NoteEntry)>, key: &Vec<u8>) -> (r: Option<usize>)
    ensures
        match r {
            Some(j) => j < entries@.len() && entries@[j as int].0@ == key@,
            None => forall|i: int|
                0 <= i < entries@.len() ==> (#[trigger] entries@[i]).0@ != key@,
        },
{
    let mut i: usize = 0;
    while i < entries.len()
        invariant
            i <= entries@.len(),
            forall|a: int| 0 <= a < i ==> (#[trigger] entries@[a]).0@ != key@,
        decreases entries@.len() - i,
    {
        if bytes_eq(&entries[i].0, key) {
            return Some(i);
        }
        i = i + 1;
    }
    None
}

/// Idempotent insertion: writing the same (nullifier, note) pair into a
/// partition twice leaves the partition exactly as writing it once does;
/// with the frame clauses of [`Cache::insert`], the whole cache state is
/// then identical too.
pub proof fn lemma_insert_idempotent(
    m: Map<Seq<u8>, NoteEntryView>,
    nf: Seq<u8>,
    e: NoteEntryView,
)
    ensures
        m.insert(nf, e).insert(nf, e) == m.insert(nf, e),
{
    assert(m.insert(nf, e).insert(nf, e) =~= m.insert(nf, e));
}

/// Partition records never repeat a public key, and no partition repeats
/// a nullifier.
spec fn parts_wf(parts: Seq<AddressPartitions>) -> bool {
    &&& forall|a: int, b: int|
        #![trigger parts[a], parts[b]]
        0 <= a < b < parts.len() ==> parts[a].pk@ != parts[b].pk@
    &&& forall|a: int|
        0 <= a < parts.len() ==> distinct_keys((#[trigger] parts[a]).live@) && distinct_keys(
            parts[a].spent@,
        )
}

/// The persistent per-wallet note cache.
///
/// Notes are grouped by owning public key; each key has a live partition
/// (spendable notes) and a spent partition (notes confirmed spent
/// on-chain), both keyed by nullifier bytes. Beside the partitions the
/// cache holds the highest synchronized position, the resume cursor of the
/// next run. Partitions are created lazily on first insertion.
pub struct Cache {
    parts: Vec<AddressPartitions>,
    last_pos: Option<u64>,
}

impl Cache {
    /// Partition records never repeat a public key, and no partition
    /// repeats a nullifier.
    pub closed spec fn wf(self) -> bool {
        parts_wf(self.parts@)
    }

    /// The live partition of `pk`, as a map from nullifier bytes to the
    /// stored note; empty when never written.
    pub closed spec fn live_map(self, pk: Seq<u8>) -> Map<Seq<u8>, NoteEntryView> {
        match find_part(self.parts@, pk) {
            Some(p) => entries_map(p.live@),
            None => Map::empty(),
        }
    }

    /// The spent partition of `pk`, as a map from nullifier bytes to the
    /// stored note; empty when never written.
    pub closed spec fn spent_map(self, pk: Seq<u8>) -> Map<Seq<u8>, NoteEntryView> {
        match find_part(self.parts@, pk) {
            Some(p) => entries_map(p.spent@),
            None => Map::empty(),
        }
    }

    /// The persisted high-water position, absent when never synced.
    pub closed spec fn pos_view(self) -> Option<u64> {
        self.last_pos
    }

    /// For every key, no nullifier is both live and spent: a note sits in
    /// exactly one partition at a time.
    pub open spec fn partitions_disjoint(self) -> bool {
        forall|qk: Seq<u8>|
            (#[trigger] self.live_map(qk)).dom().disjoint(self.spent_map(qk).dom())
    }

    /// An empty cache: no partitions and no recorded position.
    pub fn new() -> (c: Cache)
        ensures
            c.wf(),
            c.partitions_disjoint(),
            forall|qk: Seq<u8>| (#[trigger] c.live_map(qk)) == Map::<Seq<u8>, NoteEntryView>::empty(),
            forall|qk: Seq<u8>| (#[trigger] c.spent_map(qk)) == Map::<
                Seq<u8>,
                NoteEntryView,
            >::empty(),
            c.pos_view() is None,
    {
        let c = Cache { parts: Vec::new(), last_pos: None };
        proof {
            assert forall|qk: Seq<u8>| (#[trigger] c.live_map(qk)) == Map::<
                Seq<u8>,
                NoteEntryView,
            >::empty() by {
                lemma_find_part_none(c.parts@, qk);
            }
            assert forall|qk: Seq<u8>| (#[trigger] c.spent_map(qk)) == Map::<
                Seq<u8>,
                NoteEntryView,
            >::empty() by {
                lemma_find_part_none(c.parts@, qk);
            }
        }
        c
    }

    /// Reads the persisted high-water position; absent means the wallet
    /// was never synced.
    pub fn last_pos(&self) -> (r: Option<u64>)
        ensures
            r == self.pos_view(),
    {
        self.last_pos
    }

    /// Persists `pos` as the high-water position.
    ///
    /// The cache does not enforce monotonicity: callers pass the maximum
    /// of the previous position and the candidate, and the engine's
    /// processing loop is what keeps the persisted value from regressing.
    pub fn insert_last_pos(&mut self, pos: u64)
        ensures
            final(self).wf() == old(self).wf(),
            final(self).pos_view() == Some(pos),
            forall|qk: Seq<u8>| (#[trigger] final(self).live_map(qk)) == old(self).live_map(qk),
            forall|qk: Seq<u8>| (#[trigger] final(self).spent_map(qk)) == old(self).spent_map(qk),
    {
        self.last_pos = Some(pos);
    }

    /// Writes a note into the live partition of `pk`, keyed by its
    /// nullifier, creating the partition on first use.
    ///
    /// Re-inserting an existing nullifier overwrites its entry, so
    /// repeating an interrupted run is safe; when the data repeats too the
    /// cache is left exactly as one insertion leaves it. Inserting a
    /// nullifier that is not in the spent partition keeps live and spent
    /// disjoint.
    pub fn insert(&mut self, pk: &Vec<u8>, block_height: u64, note: Vec<u8>, nullifier: Vec<u8>)
        requires
            old(self).wf(),
        ensures
            final(self).wf(),
            final(self).live_map(pk@) == old(self).live_map(pk@).insert(
                nullifier@,
                (NoteEntryView { block_height, note: note@ }),
            ),
            forall|qk: Seq<u8>|
                qk != pk@ ==> (#[trigger] final(self).live_map(qk)) == old(self).live_map(qk),
            forall|qk: Seq<u8>| (#[trigger] final(self).spent_map(qk)) == old(self).spent_map(qk),
            final(self).pos_view() == old(self).pos_view(),
            old(self).partitions_disjoint() && !old(self).spent_map(pk@).dom().contains(nullifier@)
                ==> final(self).partitions_disjoint(),
    {
        let entry = NoteEntry { block_height, note };
        let iopt = self.find_part_index(pk);
        match iopt {
            Some(i) => {
                let ghost parts0 = self.parts@;
                let mut part = self.parts.remove(i);
                let jopt = find_entry_index(&part.live, &nullifier);
                let ghost live0 = part.live@;
                match jopt {
                    Some(j) => {
                        let _ = part.live.remove(j);
                        proof {
                            lemma_entries_map_remove(live0, j as int);
                        }
                    },
                    None => {},
                }
                let ghost live1 = part.live@;
                part.live.push((nullifier, entry));
                proof {
                    assert(part.live@.drop_last() =~= live1);
                    assert(forall|a: int|
                        0 <= a < live1.len() ==> (#[trigger] live1[a]).0@ != nullifier@);
                    assert(distinct_keys(part.live@));
                    if jopt is Some {
                        lemma_entries_map_domain(live0);
                        assert(entries_map(live1).insert(nullifier@, entry@) =~= entries_map(
                            live0,
                        ).insert(nullifier@, entry@));
                    }
                }
                let ghost newpart = part;
                self.parts.insert(i, part);
                proof {
                    assert(self.parts@ =~= parts0.update(i as int, newpart));
                    assert forall|qk: Seq<u8>| true implies {
                        &&& (#[trigger] find_part(self.parts@, qk)) == if qk == pk@ {
                            Some(newpart)
                        } else {
                            find_part(parts0, qk)
                        }
                    } by {
                        lemma_find_part_update(parts0, i as int, newpart, qk);
                    }
                    assert(parts_wf(self.parts@)) by {
                        let u = parts0.update(i as int, newpart);
                        assert(forall|a: int|
                            #![trigger u[a]]
                            0 <= a < u.len() ==> u[a] == if a == i as int {
                                newpart
                            } else {
                                parts0[a]
                            });
                    }
                    self.lemma_insert_post(*old(self), pk@, nullifier@);
                }
            },
            None => {
                let ghost parts0 = self.parts@;
                let mut first_live: Vec<(Vec<u8>, NoteEntry)> = Vec::new();
                first_live.push((nullifier, entry));
                let part = AddressPartitions {
                    pk: bytes_clone(pk),
                    live: first_live,
                    spent: Vec::new(),
                };
                let ghost newpart = part;
                self.parts.push(part);
                proof {
                    lemma_find_part_none_converse(parts0, pk@);
                    assert(newpart.live@.drop_last() =~= Seq::<(Vec<u8>, NoteEntry)>::empty());
                    assert(entries_map(Seq::<(Vec<u8>, NoteEntry)>::empty()) =~= Map::<
                        Seq<u8>,
                        NoteEntryView,
                    >::empty());
                    assert(entries_map(newpart.live@) =~= Map::<
                        Seq<u8>,
                        NoteEntryView,
                    >::empty().insert(nullifier@, entry@));
                    assert(self.parts@ =~= parts0.push(newpart));
                    assert forall|qk: Seq<u8>| true implies {
                        &&& (#[trigger] find_part(self.parts@, qk)) == if qk == pk@ {
                            Some(newpart)
                        } else {
                            find_part(parts0, qk)
                        }
                    } by {
                        lemma_find_part_push(parts0, newpart, qk);
                    }
                    assert(old(self).live_map(pk@) =~= Map::<Seq<u8>, NoteEntryView>::empty());
                    assert(parts_wf(self.parts@)) by {
                        let u = parts0.push(newpart);
                        assert(forall|a: int|
                            #![trigger u[a]]
                            0 <= a < parts0.len() ==> u[a] == parts0[a]);
                        assert(u[parts0.len() as int] == newpart);
                        assert(distinct_keys(newpart.live@));
                        assert(distinct_keys(newpart.spent@));
                    }
                    self.lemma_insert_post(*old(self), pk@, nullifier@);
                }
            },
        }
    }

    /// The disjointness and frame consequences of an insertion, derived
    /// once the per-partition maps are settled.
    proof fn lemma_insert_post(self, prev: Cache, pk: Seq<u8>, nf: Seq<u8>)
        requires
            forall|qk: Seq<u8>|
                qk != pk ==> (#[trigger] self.live_map(qk)) == prev.live_map(qk),
            forall|qk: Seq<u8>| (#[trigger] self.spent_map(qk)) == prev.spent_map(qk),
            self.live_map(pk).dom() <= prev.live_map(pk).dom().insert(nf),
        ensures
            prev.partitions_disjoint() && !prev.spent_map(pk).dom().contains(nf)
                ==> self.partitions_disjoint(),
    {
        if prev.partitions_disjoint() && !prev.spent_map(pk).dom().contains(nf) {
            assert forall|qk: Seq<u8>|
                (#[trigger] self.live_map(qk)).dom().disjoint(self.spent_map(qk).dom()) by {
                assert(prev.live_map(qk).dom().disjoint(prev.spent_map(qk).dom()));
                if qk == pk {
                    assert forall|x: Seq<u8>|
                        self.live_map(qk).dom().contains(x) && self.spent_map(
                            qk,
                        ).dom().contains(x) implies false by {
                        assert(prev.live_map(pk).dom().insert(nf).contains(x));
                    }
                }
            }
        }
    }

    /// Moves one note from the live partition of `pk` to its spent
    /// partition, keyed by the same nullifier and unmodified.
    ///
    /// Migration is the only transition between partitions and is
    /// one-directional; a nullifier absent from the live partition is a
    /// reconciliation invariant violation and is reported, not ignored.
    /// The move keeps live and spent disjoint.
    pub fn move_to_spent(&mut self, pk: &Vec<u8>, nullifier: &Vec<u8>) -> (r: Result<
        (),
        SyncError,
    >)
        requires
            old(self).wf(),
        ensures
            final(self).wf(),
            final(self).pos_view() == old(self).pos_view(),
            forall|qk: Seq<u8>|
                qk != pk@ ==> (#[trigger] final(self).live_map(qk)) == old(self).live_map(qk),
            forall|qk: Seq<u8>|
                qk != pk@ ==> (#[trigger] final(self).spent_map(qk)) == old(self).spent_map(qk),
            r is Ok <==> old(self).live_map(pk@).dom().contains(nullifier@),
            r is Ok ==> final(self).live_map(pk@) == old(self).live_map(pk@).remove(nullifier@),
            r is Ok ==> final(self).spent_map(pk@) == old(self).spent_map(pk@).insert(
                nullifier@,
                old(self).live_map(pk@)[nullifier@],
            ),
            r is Err ==> final(self).live_map(pk@) == old(self).live_map(pk@)
                && final(self).spent_map(pk@) == old(self).spent_map(pk@)
                && r == Err::<(), SyncError>(SyncError::NotFound),
            old(self).partitions_disjoint() ==> final(self).partitions_disjoint(),
    {
        let iopt = self.find_part_index(pk);
        match iopt {
            None => Err(SyncError::NotFound),
            Some(i) => {
                let jopt = find_entry_index(&self.parts[i].live, nullifier);
                match jopt {
                    None => {
                        proof {
                            lemma_entries_map_domain(self.parts@[i as int].live@);
                        }
                        Err(SyncError::NotFound)
                    },
                    Some(j) => {
                        let ghost parts0 = self.parts@;
                        let mut part = self.parts.remove(i);
                        let ghost live0 = part.live@;
                        let ghost spent0 = part.spent@;
                        let (key, entry) = part.live.remove(j);
                        proof {
                            lemma_entries_map_lookup(live0, j as int);
                            lemma_entries_map_remove(live0, j as int);
                        }
                        let mopt = find_entry_index(&part.spent, &key);
                        match mopt {
                            Some(m) => {
                                let _ = part.spent.remove(m);
                                proof {
                                    lemma_entries_map_domain(spent0);
                                    lemma_entries_map_remove(spent0, m as int);
                                }
                            },
                            None => {},
                        }
                        let ghost spent1 = part.spent@;
                        part.spent.push((key, entry));
                        proof {
                            assert(part.spent@.drop_last() =~= spent1);
                            assert(forall|a: int|
                                0 <= a < spent1.len() ==> (#[trigger] spent1[a]).0@ != nullifier@);
                            assert(distinct_keys(part.spent@));
                            if mopt is Some {
                                assert(entries_map(spent1).insert(nullifier@, entry@)
                                    =~= entries_map(spent0).insert(nullifier@, entry@));
                            }
                        }
                        let ghost newpart = part;
                        self.parts.insert(i, part);
                        proof {
                            assert(self.parts@ =~= parts0.update(i as int, newpart));
                            assert forall|qk: Seq<u8>| true implies {
                                &&& (#[trigger] find_part(self.parts@, qk)) == if qk == pk@ {
                                    Some(newpart)
                                } else {
                                    find_part(parts0, qk)
                                }
                            } by {
                                lemma_find_part_update(parts0, i as int, newpart, qk);
                            }
                            assert(parts_wf(self.parts@)) by {
                                let u = parts0.update(i as int, newpart);
                                assert(forall|a: int|
                                    #![trigger u[a]]
                                    0 <= a < u.len() ==> u[a] == if a == i as int {
                                        newpart
                                    } else {
                                        parts0[a]
                                    });
                            }
                            if old(self).partitions_disjoint() {
                                assert forall|qk: Seq<u8>|
                                    (#[trigger] self.live_map(qk)).dom().disjoint(
                                        self.spent_map(qk).dom(),
                                    ) by {
                                    assert(old(self).live_map(qk).dom().disjoint(
                                        old(self).spent_map(qk).dom(),
                                    ));
                                    if qk == pk@ {
                                        assert forall|x: Seq<u8>|
                                            self.live_map(qk).dom().contains(x) && self.spent_map(
                                                qk,
                                            ).dom().contains(x) implies false by {
                                            assert(old(self).live_map(pk@).dom().contains(x));
                                            assert(x != nullifier@);
                                        }
                                    }
                                }
                            }
                        }
                        Ok(())
                    },
                }
            },
        }
    }

    /// Every live entry of `pk`, in storage order: a finite listing of
    /// (nullifier, note) pairs that mentions each live nullifier exactly
    /// once.
    pub fn iterate_live(&self, pk: &Vec<u8>) -> (out: Vec<(Vec<u8>, NoteEntry)>)
        requires
            self.wf(),
        ensures
            forall|a: int|
                0 <= a < out@.len() ==> self.live_map(pk@).contains_pair(
                    (#[trigger] out@[a]).0@,
                    out@[a].1@,
                ),
            forall|k: Seq<u8>|
                #![trigger self.live_map(pk@).dom().contains(k)]
                self.live_map(pk@).dom().contains(k) ==> exists|a: int|
                    0 <= a < out@.len() && (#[trigger] out@[a]).0@ == k,
            forall|a: int, b: int|
                #![trigger out@[a], out@[b]]
                0 <= a < b < out@.len() ==> out@[a].0@ != out@[b].0@,
    {
        let mut out: Vec<(Vec<u8>, NoteEntry)> = Vec::new();
        let iopt = self.find_part_index(pk);
        match iopt {
            None => {
                proof {
                    assert(self.live_map(pk@) =~= Map::<Seq<u8>, NoteEntryView>::empty());
                    assert forall|k: Seq<u8>|
                        #![trigger self.live_map(pk@).dom().contains(k)]
                        !self.live_map(pk@).dom().contains(k) by {
                        assert(Map::<Seq<u8>, NoteEntryView>::empty().dom() =~= Set::<
                            Seq<u8>,
                        >::empty());
                    }
                }
                out
            },
            Some(i) => {
                let entries = &self.parts[i].live;
                let ghost live0 = entries@;
                let mut a: usize = 0;
                while a < entries.len()
                    invariant
                        entries@ == live0,
                        out@.len() == a <= live0.len(),
                        forall|c: int|
                            0 <= c < a ==> (#[trigger] out@[c]).0@ == live0[c].0@ && out@[c].1@
                                == live0[c].1@,
                    decreases live0.len() - a,
                {
                    let nf = bytes_clone(&entries[a].0);
                    let note = bytes_clone(&entries[a].1.note);
                    out.push((nf, NoteEntry { block_height: entries[a].1.block_height, note }));
                    a = a + 1;
                }
                proof {
                    lemma_entries_map_domain(live0);
                    assert forall|c: int| 0 <= c < out@.len() implies self.live_map(
                        pk@,
                    ).contains_pair((#[trigger] out@[c]).0@, out@[c].1@) by {
                        lemma_entries_map_lookup(live0, c);
                    }
                    assert forall|k: Seq<u8>|
                        #![trigger self.live_map(pk@).dom().contains(k)]
                        self.live_map(pk@).dom().contains(k) implies exists|c: int|
                        0 <= c < out@.len() && (#[trigger] out@[c]).0@ == k by {
                        let c = choose|c: int| 0 <= c < live0.len() && (#[trigger] live0[c]).0@ == k;
                        assert(out@[c].0@ == k);
                    }
                }
                out
            },
        }
    }

    /// Whether the live partition of `pk` holds an entry for this
    /// nullifier.
    pub fn live_contains(&self, pk: &Vec<u8>, nullifier: &Vec<u8>) -> (b: bool)
        requires
            self.wf(),
        ensures
            b == self.live_map(pk@).dom().contains(nullifier@),
    {
        let iopt = self.find_part_index(pk);
        match iopt {
            None => false,
            Some(i) => {
                let jopt = find_entry_index(&self.parts[i].live, nullifier);
                proof {
                    lemma_entries_map_domain(self.parts@[i as int].live@);
                }
                jopt.is_some()
            },
        }
    }

    /// Whether the spent partition of `pk` holds an entry for this
    /// nullifier.
    pub fn spent_contains(&self, pk: &Vec<u8>, nullifier: &Vec<u8>) -> (b: bool)
        requires
            self.wf(),
        ensures
            b == self.spent_map(pk@).dom().contains(nullifier@),
    {
        let iopt = self.find_part_index(pk);
        match iopt {
            None => false,
            Some(i) => {
                let jopt = find_entry_index(&self.parts[i].spent, nullifier);
                proof {
                    lemma_entries_map_domain(self.parts@[i as int].spent@);
                }
                jopt.is_some()
            },
        }
    }

    /// The index of the partition record for `pk`, if one exists.
    fn find_part_index(&self, pk: &Vec<u8>) -> (r: Option<usize>)
        ensures
            match r {
                Some(i) => i < self.parts@.len() && self.parts@[i as int].pk@ == pk@ && find_part(
                    self.parts@,
                    pk@,
                ) == Some(self.parts@[i as int]),
                None => find_part(self.parts@, pk@) is None,
            },
    {
        let mut i: usize = 0;
        while i < self.parts.len()
            invariant
                i <= self.parts@.len(),
                forall|a: int| 0 <= a < i ==> (#[trigger] self.parts@[a]).pk@ != pk@,
            decreases self.parts@.len() - i,
        {
            if bytes_eq(&self.parts[i].pk, pk) {
                proof {
                    lemma_find_part_index(self.parts@, i as int);
                }
                return Some(i);
            }
            i = i + 1;
        }
        proof {
            lemma_find_part_none(self.parts@, pk@);
        }
        None
    }
}

} // verus!
