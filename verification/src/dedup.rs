use vstd::prelude::*;

verus! {

/// Outcome of storing content: stored under the given id, or skipped because
/// the same content was stored before under `existing_id`.
#[derive(Debug, Clone, Copy, PartialEq, Eq, Structural)]
pub enum StoreResult {
    Stored(u128),
    Skipped { existing_id: u128 },
}

/// Exact-duplicate detection by content hash. Committed hashes map to the id
/// they were stored under; pending hashes are reserved by work in flight.
pub struct DedupChecker {
    entries: Vec<(String, u128)>,
    pending: Vec<String>,
}

/// Map from hash to id of a list of (hash, id) pairs.
pub open spec fn ids_of(entries: Seq<(String, u128)>) -> Map<Seq<char>, u128> {
    Map::new(
        |h: Seq<char>| exists|i: int| 0 <= i < entries.len() && entries[i].0@ == h,
        |h: Seq<char>|
            entries[choose|i: int| 0 <= i < entries.len() && entries[i].0@ == h].1,
    )
}

pub open spec fn strings_set(s: Seq<String>) -> Set<Seq<char>> {
    Set::new(|h: Seq<char>| exists|i: int| 0 <= i < s.len() && s[i]@ == h)
}

/// What storing `hash` under `id` answers, given the committed ids.
pub open spec fn store_outcome(ids: Map<Seq<char>, u128>, hash: Seq<char>, id: u128) -> StoreResult {
    if ids.contains_key(hash) {
        StoreResult::Skipped { existing_id: ids[hash] }
    } else {
        StoreResult::Stored(id)
    }
}

/// The committed ids after storing `hash` under `id`.
pub open spec fn store_after(ids: Map<Seq<char>, u128>, hash: Seq<char>, id: u128) -> Map<
    Seq<char>,
    u128,
> {
    if ids.contains_key(hash) {
        ids
    } else {
        ids.insert(hash, id)
    }
}

/// No hash occurs twice among the entries.
pub open spec fn unique_keys(entries: Seq<(String, u128)>) -> bool {
    forall|a: int, b: int|
        0 <= a < b < entries.len() ==> (#[trigger] entries[a]).0@ != (#[trigger] entries[b]).0@
}

proof fn lemma_lookup(entries: Seq<(String, u128)>, i: int)
    requires
        unique_keys(entries),
        0 <= i < entries.len(),
    ensures
        ids_of(entries).contains_key(entries[i].0@),
        ids_of(entries)[entries[i].0@] == entries[i].1,
{
    let h = entries[i].0@;
    assert(exists|j: int| 0 <= j < entries.len() && entries[j].0@ == h);
    let j = choose|j: int| 0 <= j < entries.len() && entries[j].0@ == h;
    if j != i {
        if j < i {
            assert(entries[j].0@ != entries[i].0@);
        } else {
            assert(entries[i].0@ != entries[j].0@);
        }
    }
}

proof fn lemma_ids_empty()
    ensures
        ids_of(Seq::<(String, u128)>::empty()) == Map::<Seq<char>, u128>::empty(),
        ids_of(Seq::<(String, u128)>::empty()).dom().finite(),
        ids_of(Seq::<(String, u128)>::empty()).dom().len() == 0,
{
    assert(ids_of(Seq::<(String, u128)>::empty()) =~= Map::<Seq<char>, u128>::empty());
}

proof fn lemma_ids_push(entries: Seq<(String, u128)>, e: (String, u128))
    requires
        unique_keys(entries),
        !ids_of(entries).contains_key(e.0@),
        ids_of(entries).dom().finite(),
        ids_of(entries).dom().len() == entries.len(),
    ensures
        unique_keys(entries.push(e)),
        ids_of(entries.push(e)) == ids_of(entries).insert(e.0@, e.1),
        ids_of(entries.push(e)).dom().finite(),
        ids_of(entries.push(e)).dom().len() == entries.push(e).len(),
{
    let ne = entries.push(e);
    let old_ids = ids_of(entries);
    let h0 = e.0@;
    assert forall|a: int, b: int| 0 <= a < b < ne.len() implies (#[trigger] ne[a]).0@ != (
    #[trigger] ne[b]).0@ by {
        assert(ne[a] == entries[a]);
        if b < entries.len() {
            assert(ne[b] == entries[b]);
        } else {
            if ne[a].0@ == h0 {
                assert(old_ids.contains_key(h0));
            }
        }
    }
    assert forall|h: Seq<char>| #![auto] ids_of(ne).contains_key(h) == old_ids.insert(
        h0,
        e.1,
    ).contains_key(h) by {
        if h != h0 && ids_of(ne).contains_key(h) {
            let j = choose|j: int| 0 <= j < ne.len() && ne[j].0@ == h;
            assert(entries[j].0@ == h);
        }
        if old_ids.contains_key(h) {
            let j = choose|j: int| 0 <= j < entries.len() && entries[j].0@ == h;
            assert(ne[j].0@ == h);
        }
        if h == h0 {
            assert(ne[entries.len() as int].0@ == h);
        }
    }
    assert forall|h: Seq<char>| ids_of(ne).contains_key(h) implies #[trigger] ids_of(ne)[h]
        == old_ids.insert(h0, e.1)[h] by {
        let j = choose|j: int| 0 <= j < ne.len() && ne[j].0@ == h;
        if h == h0 {
            if j < entries.len() {
                assert(entries[j].0@ == h);
            }
        } else {
            assert(j < entries.len());
            let k = choose|k: int| 0 <= k < entries.len() && entries[k].0@ == h;
            if j != k {
                if j < k {
                    assert(entries[j].0@ != entries[k].0@);
                } else {
                    assert(entries[k].0@ != entries[j].0@);
                }
            }
        }
    }
    assert(ids_of(ne) =~= old_ids.insert(h0, e.1));
    assert(ids_of(ne).dom() =~= old_ids.dom().insert(h0));
}

impl DedupChecker {
    #[verifier::type_invariant]
    spec fn wf(self) -> bool {
        &&& unique_keys(self.entries@)
        &&& forall|a: int, b: int|
            0 <= a < b < self.pending@.len() ==> (#[trigger] self.pending@[a])@ != (
            #[trigger] self.pending@[b])@
        &&& ids_of(self.entries@).dom().finite()
        &&& ids_of(self.entries@).dom().len() == self.entries@.len()
    }

    /// Committed hashes and the ids they were stored under.
    pub closed spec fn ids(&self) -> Map<Seq<char>, u128> {
        ids_of(self.entries@)
    }

    /// Hashes reserved by work in flight.
    pub closed spec fn pending_hashes(&self) -> Set<Seq<char>> {
        strings_set(self.pending@)
    }

    pub fn new() -> (c: DedupChecker)
        ensures
            c.ids() == Map::<Seq<char>, u128>::empty(),
            c.pending_hashes() == Set::<Seq<char>>::empty(),
    {
        let entries: Vec<(String, u128)> = Vec::new();
        let pending: Vec<String> = Vec::new();
        proof {
            lemma_ids_empty();
            assert(entries@ =~= Seq::<(String, u128)>::empty());
            assert(strings_set(pending@) =~= Set::<Seq<char>>::empty());
        }
        DedupChecker { entries, pending }
    }

    /// Position of `hash` among the committed entries.
    fn find(&self, hash: &String) -> (r: Option<usize>)
        ensures
            match r {
                Some(i) => i < self.entries@.len() && self.entries@[i as int].0@ == hash@,
                None => forall|i: int| 0 <= i < self.entries@.len() ==> self.entries@[i].0@ != hash@,
            },
    {
        let mut i: usize = 0;
        while i < self.entries.len()
            invariant
                i <= self.entries@.len(),
                forall|k: int| 0 <= k < i ==> self.entries@[k].0@ != hash@,
            decreases self.entries@.len() - i,
        {
            if self.entries[i].0 == *hash {
                return Some(i);
            }
            i = i + 1;
        }
        None
    }

    /// Position of `hash` among the pending hashes.
    fn find_pending(&self, hash: &String) -> (r: Option<usize>)
        ensures
            match r {
                Some(i) => i < self.pending@.len() && self.pending@[i as int]@ == hash@,
                None => forall|i: int| 0 <= i < self.pending@.len() ==> self.pending@[i]@ != hash@,
            },
    {
        let mut i: usize = 0;
        while i < self.pending.len()
            invariant
                i <= self.pending@.len(),
                forall|k: int| 0 <= k < i ==> self.pending@[k]@ != hash@,
            decreases self.pending@.len() - i,
        {
            if self.pending[i] == *hash {
                return Some(i);
            }
            i = i + 1;
        }
        None
    }

    /// Records `content_hash` under `id` unless it is already committed, in
    /// which case the committed id is reported and nothing changes.
    pub fn check_and_insert(&mut self, content_hash: &str, id: u128) -> (r: StoreResult)
        ensures
            r == store_outcome(old(self).ids(), content_hash@, id),
            final(self).ids() == store_after(old(self).ids(), content_hash@, id),
            final(self).pending_hashes() == old(self).pending_hashes(),
    {
        proof {
            use_type_invariant(&*self);
        }
        let key = content_hash.to_owned();
        match self.find(&key) {
            Some(i) => {
                proof {
                    use_type_invariant(&*self);
                    lemma_lookup(self.entries@, i as int);
                }
                StoreResult::Skipped { existing_id: self.entries[i].1 }
            },
            None => {
                let ghost old_entries = self.entries@;
                let ghost old_ids = ids_of(old_entries);
                assert(!old_ids.contains_key(content_hash@));
                let pair = (key, id);
                proof {
                    lemma_ids_push(old_entries, pair);
                    lemma_ids_empty();
                }
                let mut entries: Vec<(String, u128)> = Vec::new();
                std::mem::swap(&mut entries, &mut self.entries);
                entries.push(pair);
                self.entries = entries;
                StoreResult::Stored(id)
            },
        }
    }

    /// Whether the hash is committed.
    pub fn contains(&self, content_hash: &str) -> (b: bool)
        ensures
            b == self.ids().contains_key(content_hash@),
    {
        let key = content_hash.to_owned();
        match self.find(&key) {
            Some(i) => {
                proof {
                    use_type_invariant(self);
                    lemma_lookup(self.entries@, i as int);
                }
                true
            },
            None => false,
        }
    }

    /// Whether the hash is committed or reserved by work in flight.
    pub fn is_known(&self, content_hash: &str) -> (b: bool)
        ensures
            b == (self.ids().contains_key(content_hash@) || self.pending_hashes().contains(
                content_hash@,
            )),
    {
        let key = content_hash.to_owned();
        let committed = self.contains(content_hash);
        let pending = match self.find_pending(&key) {
            Some(i) => true,
            None => false,
        };
        committed || pending
    }

    /// The id a committed hash was stored under; `None` when it is unknown or
    /// only pending.
    pub fn committed_id(&self, content_hash: &str) -> (r: Option<u128>)
        ensures
            r == (if self.ids().contains_key(content_hash@) {
                Some(self.ids()[content_hash@])
            } else {
                None::<u128>
            }),
    {
        let key = content_hash.to_owned();
        match self.find(&key) {
            Some(i) => {
                proof {
                    use_type_invariant(self);
                    lemma_lookup(self.entries@, i as int);
                }
                Some(self.entries[i].1)
            },
            None => None,
        }
    }

    /// Reserves the hash as in flight.
    pub fn mark_pending(&mut self, content_hash: &str)
        ensures
            final(self).pending_hashes() == old(self).pending_hashes().insert(content_hash@),
            final(self).ids() == old(self).ids(),
    {
        proof {
            use_type_invariant(&*self);
        }
        let key = content_hash.to_owned();
        if let None = self.find_pending(&key) {
            let ghost old_p = self.pending@;
            let mut pending: Vec<String> = Vec::new();
            std::mem::swap(&mut pending, &mut self.pending);
            pending.push(key);
            proof {
                let np = pending@;
                assert forall|a: int, b: int| 0 <= a < b < np.len() implies (#[trigger] np[a])@ != (
                #[trigger] np[b])@ by {
                    assert(np[a] == old_p[a]);
                    if b < old_p.len() {
                        assert(np[b] == old_p[b]);
                    }
                }
                assert forall|h: Seq<char>| strings_set(old_p).contains(h) implies strings_set(
                    np,
                ).contains(h) by {
                    let j = choose|j: int| 0 <= j < old_p.len() && old_p[j]@ == h;
                    assert(np[j]@ == h);
                }
                assert(np[old_p.len() as int]@ == content_hash@);
                assert(strings_set(np) =~= strings_set(old_p).insert(content_hash@));
            }
            self.pending = pending;
        } else {
            assert(strings_set(self.pending@) =~= strings_set(self.pending@).insert(content_hash@));
        }
    }

    /// Drops the in-flight reservation of the hash.
    pub fn clear_pending(&mut self, content_hash: &str)
        ensures
            final(self).pending_hashes() == old(self).pending_hashes().remove(content_hash@),
            final(self).ids() == old(self).ids(),
    {
        proof {
            use_type_invariant(&*self);
        }
        let key = content_hash.to_owned();
        match self.find_pending(&key) {
            Some(i) => {
                let ghost old_p = self.pending@;
                let mut pending: Vec<String> = Vec::new();
                std::mem::swap(&mut pending, &mut self.pending);
                pending.remove(i);
                proof {
                    let np = pending@;
                    assert forall|a: int, b: int| 0 <= a < b < np.len() implies (#[trigger] np[a])@
                        != (#[trigger] np[b])@ by {
                        if a < i {
                            assert(np[a] == old_p[a]);
                        } else {
                            assert(np[a] == old_p[a + 1]);
                        }
                        if b < i {
                            assert(np[b] == old_p[b]);
                        } else {
                            assert(np[b] == old_p[b + 1]);
                        }
                    }
                    assert forall|h: Seq<char>|
                        #![auto]
                        strings_set(np).contains(h) == strings_set(old_p).remove(
                            content_hash@,
                        ).contains(h) by {
                        if strings_set(np).contains(h) {
                            let j = choose|j: int| 0 <= j < np.len() && np[j]@ == h;
                            if j < i {
                                assert(old_p[j]@ == h);
                                assert(old_p[j]@ != old_p[i as int]@);
                            } else {
                                assert(old_p[j + 1]@ == h);
                                assert(old_p[i as int]@ != old_p[j + 1]@);
                            }
                        }
                        if strings_set(old_p).contains(h) && h != content_hash@ {
                            let j = choose|j: int| 0 <= j < old_p.len() && old_p[j]@ == h;
                            if j < i {
                                assert(np[j]@ == h);
                            } else {
                                assert(j != i);
                                assert(np[j - 1]@ == h);
                            }
                        }
                    }
                    assert(strings_set(np) =~= strings_set(old_p).remove(content_hash@));
                }
                self.pending = pending;
            },
            None => {
                assert(strings_set(self.pending@) =~= strings_set(self.pending@).remove(
                    content_hash@,
                ));
            },
        }
    }

    /// Number of committed hashes.
    pub fn len(&self) -> (n: usize)
        ensures
            self.ids().dom().finite(),
            n == self.ids().dom().len(),
    {
        proof {
            use_type_invariant(self);
        }
        self.entries.len()
    }

    pub fn is_empty(&self) -> (b: bool)
        ensures
            b == (self.ids().dom().len() == 0),
    {
        proof {
            use_type_invariant(self);
        }
        self.entries.len() == 0
    }

}

impl Default for DedupChecker {
    fn default() -> (c: DedupChecker)
        ensures
            c.ids() == Map::<Seq<char>, u128>::empty(),
            c.pending_hashes() == Set::<Seq<char>>::empty(),
    {
        DedupChecker::new()
    }
}

/// Storing the same hash twice: the second store is skipped and reports the
/// id of the first, whatever id it was offered.
pub proof fn lemma_second_store_skipped(
    ids: Map<Seq<char>, u128>,
    hash: Seq<char>,
    id1: u128,
    id2: u128,
)
    ensures
        store_outcome(store_after(ids, hash, id1), hash, id2) == (StoreResult::Skipped {
            existing_id: match store_outcome(ids, hash, id1) {
                StoreResult::Stored(i) => i,
                StoreResult::Skipped { existing_id } => existing_id,
            },
        }),
        store_after(store_after(ids, hash, id1), hash, id2) == store_after(ids, hash, id1),
{
}

/// A store never forgets or changes a committed id.
pub proof fn lemma_store_keeps_committed(
    ids: Map<Seq<char>, u128>,
    hash: Seq<char>,
    id: u128,
    other: Seq<char>,
)
    requires
        ids.contains_key(other),
    ensures
        store_after(ids, hash, id).contains_key(other),
        store_after(ids, hash, id)[other] == ids[other],
{
}

/// Clearing a fresh reservation restores the reservations as they were.
pub proof fn lemma_clear_undoes_mark(pending: Set<Seq<char>>, hash: Seq<char>)
    requires
        !pending.contains(hash),
    ensures
        pending.insert(hash).remove(hash) == pending,
{
    assert(pending.insert(hash).remove(hash) =~= pending);
}

} // verus!
