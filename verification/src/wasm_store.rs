use vstd::prelude::*;

verus! {

use crate::ids::{is_v4, new_v4, uuid_text, uuid_to_string};

/// A stored entry: an id, the text, its embedding and its namespace.
#[derive(Debug, Clone)]
pub struct StoredEntry<E> {
    pub id: String,
    pub content: String,
    pub embedding: E,
    pub namespace: String,
}

/// Index of the first entry with this id, if any.
pub open spec fn first_entry<E>(entries: Seq<StoredEntry<E>>, id: Seq<char>) -> Option<int> {
    if exists|i: int| 0 <= i < entries.len() && entries[i].id@ == id {
        Some(
            choose|i: int|
                0 <= i < entries.len() && entries[i].id@ == id && forall|j: int|
                    0 <= j < i ==> entries[j].id@ != id,
        )
    } else {
        None
    }
}

/// Keeps the entries whose id differs from `id`.
pub open spec fn id_is_not<E>(id: Seq<char>) -> spec_fn(StoredEntry<E>) -> bool {
    |e: StoredEntry<E>| e.id@ != id
}

/// An in-memory store of entries in insertion order, for environments without
/// a vector database.
#[derive(Debug)]
pub struct InMemoryStore<E> {
    entries: Vec<StoredEntry<E>>,
}

impl<E> InMemoryStore<E> {
    pub closed spec fn entry_list(&self) -> Seq<StoredEntry<E>> {
        self.entries@
    }

    pub fn new() -> (s: InMemoryStore<E>)
        ensures
            s.entry_list() == Seq::<StoredEntry<E>>::empty(),
    {
        InMemoryStore { entries: Vec::new() }
    }

    /// Adds an entry under a fresh random UUID and returns the id.
    pub fn store(&mut self, content: &str, embedding: E, namespace: &str) -> (id: String)
        ensures
            exists|u: u128| is_v4(u) && id@ == uuid_text(u),
            final(self).entry_list().len() == old(self).entry_list().len() + 1,
            forall|i: int|
                0 <= i < old(self).entry_list().len() ==> final(self).entry_list()[i] == old(
                    self,
                ).entry_list()[i],
            final(self).entry_list().last().id@ == id@,
            final(self).entry_list().last().content@ == content@,
            final(self).entry_list().last().embedding == embedding,
            final(self).entry_list().last().namespace@ == namespace@,
    {
        let u = new_v4();
        let id = uuid_to_string(u);
        let e = StoredEntry {
            id: id.clone(),
            content: content.to_owned(),
            embedding,
            namespace: namespace.to_owned(),
        };
        self.entries.push(e);
        id
    }

    /// The first entry with this id.
    pub fn get(&self, id: &str) -> (e: Option<&StoredEntry<E>>)
        ensures
            match first_entry(self.entry_list(), id@) {
                Some(i) => e == Some(&self.entry_list()[i]),
                None => e is None,
            },
    {
        let key = id.to_owned();
        let mut i: usize = 0;
        while i < self.entries.len()
            invariant
                i <= self.entries.len(),
                key@ == id@,
                forall|j: int| 0 <= j < i ==> self.entries@[j].id@ != id@,
            decreases self.entries.len() - i,
        {
            if self.entries[i].id == key {
                proof {
                    let k = i as int;
                    assert(0 <= k < self.entry_list().len() && self.entry_list()[k].id@ == id@);
                    let c = first_entry(self.entry_list(), id@).unwrap();
                    if c < k {
                        assert(self.entries@[c].id@ != id@);
                    }
                }
                return Some(&self.entries[i]);
            }
            i = i + 1;
        }
        None
    }

    /// Removes every entry with this id; says whether any was removed.
    pub fn delete(&mut self, id: &str) -> (removed: bool)
        ensures
            final(self).entry_list() == old(self).entry_list().filter(id_is_not(id@)),
            removed == (first_entry(old(self).entry_list(), id@) is Some),
    {
        let key = id.to_owned();
        let mut kept: Vec<StoredEntry<E>> = Vec::new();
        let mut rest: Vec<StoredEntry<E>> = Vec::new();
        std::mem::swap(&mut rest, &mut self.entries);
        let ghost all = rest@;
        let ghost mut done: int = 0;
        let mut removed = false;
        while rest.len() > 0
            invariant
                0 <= done <= all.len(),
                rest@ == all.subrange(done, all.len() as int),
                key@ == id@,
                kept@ == all.subrange(0, done).filter(id_is_not(id@)),
                removed == exists|j: int| 0 <= j < done && all[j].id@ == id@,
            decreases rest.len(),
        {
            let e = rest.remove(0);
            proof {
                assert(e == all[done]);
            }
            if e.id == key {
                removed = true;
            } else {
                kept.push(e);
            }
            proof {
                reveal(Seq::filter);
                let p = id_is_not::<E>(id@);
                let next = all.subrange(0, done + 1);
                assert(next.drop_last() =~= all.subrange(0, done));
                assert(next.last() == all[done]);
                assert(next.filter(p) == (if p(next.last()) {
                    next.drop_last().filter(p).push(next.last())
                } else {
                    next.drop_last().filter(p)
                }));
                done = done + 1;
                assert(rest@ =~= all.subrange(done, all.len() as int));
            }
        }
        proof {
            assert(all.subrange(0, all.len() as int) =~= all);
            if removed {
                let j = choose|j: int| 0 <= j < all.len() && all[j].id@ == id@;
                assert(exists|i: int| 0 <= i < all.len() && all[i].id@ == id@);
            }
        }
        self.entries = kept;
        removed
    }

    pub fn count(&self) -> (n: usize)
        ensures
            n == self.entry_list().len(),
    {
        self.entries.len()
    }

    /// The entries, oldest first.
    pub fn entries(&self) -> (e: &[StoredEntry<E>])
        ensures
            e@ == self.entry_list(),
    {
        self.entries.as_slice()
    }
}

/// After a delete, the id is gone.
pub proof fn lemma_delete_forgets<E>(entries: Seq<StoredEntry<E>>, id: Seq<char>)
    ensures
        first_entry(entries.filter(id_is_not(id)), id) is None,
{
    let f = entries.filter(id_is_not(id));
    assert forall|i: int| 0 <= i < f.len() implies f[i].id@ != id by {
        entries.lemma_filter_pred(id_is_not(id), i);
    }
}

proof fn lemma_filter_keeps_all<E>(entries: Seq<StoredEntry<E>>, id: Seq<char>)
    requires
        forall|i: int| 0 <= i < entries.len() ==> (#[trigger] entries[i]).id@ != id,
    ensures
        entries.filter(id_is_not(id)) == entries,
    decreases entries.len(),
{
    reveal(Seq::filter);
    if entries.len() > 0 {
        lemma_filter_keeps_all(entries.drop_last(), id);
        assert(entries.drop_last().push(entries.last()) =~= entries);
    }
}

/// Deleting the id of an entry just stored under a fresh id restores the
/// store as it was.
pub proof fn lemma_delete_undoes_store<E>(entries: Seq<StoredEntry<E>>, e: StoredEntry<E>)
    requires
        first_entry(entries, e.id@) is None,
    ensures
        entries.push(e).filter(id_is_not(e.id@)) == entries,
{
    reveal(Seq::filter);
    assert(entries.push(e).drop_last() =~= entries);
    lemma_filter_keeps_all(entries, e.id@);
}

} // verus!
