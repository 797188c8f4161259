use vstd::prelude::*;
use vstd::string::StringSliceAdditionalSpecFns;
use vstd::utf8::encode_utf8;

verus! {

use crate::dedup::{DedupChecker, StoreResult, store_after};
use crate::entry::{content_hash_of, content_hash_spec};
use crate::error::{ShabtiError, ShabtiResult};
use crate::gate::{FeatureGate, tier_rank, tier_for};
use crate::types::OriginType;

/// Where the engine keeps its data and reaches its vector index.
pub struct EngineConfig {
    pub qdrant_url: String,
    pub collection_name: String,
    pub data_dir: String,
    pub vector_size: u64,
}

/// Optional settings of a store request.
#[derive(Debug, Clone)]
pub struct StoreOptions {
    pub namespace: Option<String>,
    pub session_id: Option<String>,
    pub origin_type: Option<OriginType>,
    pub keywords: Option<Vec<String>>,
    pub tags: Option<Vec<String>>,
    pub ttl_seconds: Option<u64>,
}

impl Default for StoreOptions {
    fn default() -> (o: StoreOptions)
        ensures
            o.namespace is None,
            o.session_id is None,
            o.origin_type is None,
            o.keywords is None,
            o.tags is None,
            o.ttl_seconds is None,
    {
        StoreOptions {
            namespace: None,
            session_id: None,
            origin_type: None,
            keywords: None,
            tags: None,
            ttl_seconds: None,
        }
    }
}

/// Whether bytes `i` and `i + 1` are both `.`.
pub open spec fn dot_pair(b: Seq<u8>, i: int) -> bool {
    b[i] == 46u8 && b[i + 1] == 46u8
}

/// Whether the bytes hold `..` somewhere.
pub open spec fn has_double_dot(b: Seq<u8>) -> bool {
    exists|i: int| 0 <= i < b.len() - 1 && #[trigger] dot_pair(b, i)
}

/// Why a namespace is refused, if it is: empty, longer than 256 bytes, or
/// holding `..` or starting with `/`.
pub open spec fn namespace_problem(b: Seq<u8>) -> Option<Seq<char>> {
    if b.len() == 0 {
        Some("namespace must not be empty"@)
    } else if b.len() > 256 {
        Some("namespace must not exceed 256 characters"@)
    } else if has_double_dot(b) || b[0] == 47u8 {
        Some("namespace contains invalid characters"@)
    } else {
        None
    }
}

/// Checks a namespace for safety and format; a refused one is a validation
/// error saying why.
pub fn validate_namespace(ns: &str) -> (r: ShabtiResult<()>)
    ensures
        match namespace_problem(ns.spec_bytes()) {
            None => r is Ok,
            Some(msg) => r matches Err(ShabtiError::Validation(m)) && m@ == msg,
        },
{
    let b = ns.as_bytes();
    if b.len() == 0 {
        return Err(ShabtiError::Validation("namespace must not be empty".to_owned()));
    }
    if b.len() > 256 {
        return Err(ShabtiError::Validation("namespace must not exceed 256 characters".to_owned()));
    }
    let mut dots = false;
    let mut i: usize = 0;
    while i + 1 < b.len()
        invariant
            i + 1 <= b@.len(),
            b@.len() <= 256,
            dots == exists|k: int| 0 <= k < i && #[trigger] dot_pair(b@, k),
        decreases b@.len() - i,
    {
        if b[i] == 46u8 && b[i + 1] == 46u8 {
            dots = true;
        }
        proof {
            assert(dot_pair(b@, i as int) == (b@[i as int] == 46u8 && b@[i + 1] == 46u8));
            if dots {
                if !(b@[i as int] == 46u8 && b@[i + 1] == 46u8) {
                    let k = choose|k: int| 0 <= k < i && #[trigger] dot_pair(b@, k);
                    assert(0 <= k < i + 1 && dot_pair(b@, k));
                }
            } else {
                assert forall|k: int| 0 <= k < i + 1 implies !#[trigger] dot_pair(b@, k) by {
                    if k < i {
                    }
                }
            }
        }
        i = i + 1;
    }
    if dots || b[0] == 47u8 {
        return Err(ShabtiError::Validation("namespace contains invalid characters".to_owned()));
    }
    Ok(())
}

/// What the first half of a store decided.
#[derive(Debug)]
pub enum StoreStep {
    /// The content is committed or in flight already; this is the answer.
    Skip(StoreResult),
    /// The content is new; its hash is now reserved, and the entry can be built.
    Proceed(String),
}

/// The answer for content already known: the id it was committed under, or
/// the nil id (0) while it is only in flight.
pub open spec fn known_answer(ids: Map<Seq<char>, u128>, hash: Seq<char>) -> StoreResult {
    StoreResult::Skipped {
        existing_id: if ids.contains_key(hash) {
            ids[hash]
        } else {
            0
        },
    }
}

/// What the first half of a store decides for content with this hash, once
/// its namespace is accepted: the answer when the hash is committed or in
/// flight, `None` when the store goes ahead.
pub open spec fn store_decision(ids: Map<Seq<char>, u128>, pending: Set<Seq<char>>, hash: Seq<char>) -> Option<StoreResult> {
    if ids.contains_key(hash) || pending.contains(hash) {
        Some(known_answer(ids, hash))
    } else {
        None
    }
}

/// First half of a store: checks the namespace of the options, hashes the
/// content, and either answers for content that is committed or in flight, or
/// reserves the hash so that concurrent stores of the same content skip.
pub fn begin_store(dedup: &mut DedupChecker, content: &str, options: &StoreOptions) -> (r: ShabtiResult<StoreStep>)
    ensures
        final(dedup).ids() == old(dedup).ids(),
        ({
            let hash = content_hash_spec(content.spec_bytes());
            let problem = match options.namespace {
                Some(ns) => namespace_problem(encode_utf8(ns@)),
                None => None,
            };
            match problem {
                Some(msg) => (r matches Err(ShabtiError::Validation(m)) && m@ == msg)
                    && final(dedup).pending_hashes() == old(dedup).pending_hashes(),
                None => match store_decision(old(dedup).ids(), old(dedup).pending_hashes(), hash) {
                    Some(answer) => r == Ok::<StoreStep, ShabtiError>(StoreStep::Skip(answer))
                        && final(dedup).pending_hashes() == old(dedup).pending_hashes(),
                    None => (r matches Ok(StoreStep::Proceed(h)) && h@ == hash)
                        && final(dedup).pending_hashes() == old(dedup).pending_hashes().insert(hash),
                },
            }
        }),
{
    match &options.namespace {
        Some(ns) => {
            validate_namespace(ns.as_str())?;
        },
        None => {},
    }
    let hash = content_hash_of(content);
    if dedup.is_known(hash.as_str()) {
        let existing_id = match dedup.committed_id(hash.as_str()) {
            Some(id) => id,
            None => 0,
        };
        return Ok(StoreStep::Skip(StoreResult::Skipped { existing_id }));
    }
    dedup.mark_pending(hash.as_str());
    Ok(StoreStep::Proceed(hash))
}

/// Second half of a store, once the entry is built under `id`: releases the
/// reservation, commits the hash, counts the entry, and says whether k-NN link
/// generation is due at the new count.
pub fn finish_store(dedup: &mut DedupChecker, content_hash: &str, id: u128, entry_count: usize) -> (r: (StoreResult, usize, bool))
    requires
        entry_count < usize::MAX,
    ensures
        final(dedup).ids() == store_after(old(dedup).ids(), content_hash@, id),
        final(dedup).pending_hashes() == old(dedup).pending_hashes().remove(content_hash@),
        r.0 == StoreResult::Stored(id),
        r.1 == entry_count + 1,
        r.2 == (tier_rank(tier_for((entry_count + 1) as nat)) >= 1),
{
    dedup.clear_pending(content_hash);
    dedup.check_and_insert(content_hash, id);
    let count = entry_count + 1;
    let gate = FeatureGate::from_count(count);
    (StoreResult::Stored(id), count, gate.knn_links)
}

/// Second half of a store, given what building the entry gave: the id it was
/// written under, or the error of the embedding, the log append or the index
/// write. On success the store is finished as by [`finish_store`]; on failure
/// it is abandoned as by [`abort_store`] and the error is passed on, so that a
/// failed store leaves no reservation behind and commits nothing.
pub fn complete_store(dedup: &mut DedupChecker, content_hash: &str, built: ShabtiResult<u128>, entry_count: usize) -> (r: ShabtiResult<(StoreResult, usize, bool)>)
    requires
        entry_count < usize::MAX,
    ensures
        final(dedup).pending_hashes() == old(dedup).pending_hashes().remove(content_hash@),
        match built {
            Ok(id) => {
                &&& final(dedup).ids() == store_after(old(dedup).ids(), content_hash@, id)
                &&& r == Ok::<(StoreResult, usize, bool), ShabtiError>((
                    StoreResult::Stored(id),
                    (entry_count + 1) as usize,
                    tier_rank(tier_for((entry_count + 1) as nat)) >= 1,
                ))
            },
            Err(e) => {
                &&& final(dedup).ids() == old(dedup).ids()
                &&& r == Err::<(StoreResult, usize, bool), ShabtiError>(e)
            },
        },
{
    match built {
        Ok(id) => Ok(finish_store(dedup, content_hash, id, entry_count)),
        Err(e) => {
            abort_store(dedup, content_hash);
            Err(e)
        },
    }
}

/// The committed ids after replaying the first `k` (hash, id) records.
pub open spec fn replayed(log: Seq<(String, u128)>, k: nat) -> Map<Seq<char>, u128>
    decreases k,
{
    if k == 0 {
        Map::empty()
    } else {
        store_after(replayed(log, (k - 1) as nat), log[k - 1].0@, log[k - 1].1)
    }
}

/// Rebuilds the duplicate checker from the (content hash, id) records of the
/// log, in order, and counts them.
pub fn rebuild_dedup(log: &[(String, u128)]) -> (r: (DedupChecker, usize))
    ensures
        r.0.ids() == replayed(log@, log@.len()),
        r.0.pending_hashes() == Set::<Seq<char>>::empty(),
        r.1 == log@.len(),
{
    let mut dedup = DedupChecker::new();
    let mut k: usize = 0;
    while k < log.len()
        invariant
            k <= log@.len(),
            dedup.ids() == replayed(log@, k as nat),
            dedup.pending_hashes() == Set::<Seq<char>>::empty(),
        decreases log@.len() - k,
    {
        dedup.check_and_insert(log[k].0.as_str(), log[k].1);
        k = k + 1;
    }
    (dedup, k)
}

/// The first position below `n` whose record carries `hash`, if any.
pub open spec fn first_in_log(log: Seq<(String, u128)>, hash: Seq<char>, n: nat) -> Option<int>
    decreases n,
{
    if n == 0 {
        None
    } else {
        match first_in_log(log, hash, (n - 1) as nat) {
            Some(j) => Some(j),
            None => if log[n - 1].0@ == hash {
                Some(n - 1)
            } else {
                None
            },
        }
    }
}

/// Replaying the first `n` records commits a hash exactly when one of them
/// carries it, under the id of the first such record.
proof fn lemma_replayed_first(log: Seq<(String, u128)>, hash: Seq<char>, n: nat)
    requires
        n <= log.len(),
    ensures
        match first_in_log(log, hash, n) {
            Some(j) => {
                &&& 0 <= j < n
                &&& log[j].0@ == hash
                &&& forall|k: int| 0 <= k < j ==> (#[trigger] log[k]).0@ != hash
                &&& replayed(log, n).contains_key(hash)
                &&& replayed(log, n)[hash] == log[j].1
            },
            None => {
                &&& forall|k: int| 0 <= k < n ==> (#[trigger] log[k]).0@ != hash
                &&& !replayed(log, n).contains_key(hash)
            },
        },
    decreases n,
{
    if n > 0 {
        lemma_replayed_first(log, hash, (n - 1) as nat);
    }
}

/// After the duplicate checker is rebuilt from the log, the content of any
/// record is committed, so a later store of it is skipped and reports the id
/// of the first record of the log with that content hash.
pub proof fn lemma_rebuilt_store_skips(log: Seq<(String, u128)>, i: int)
    requires
        0 <= i < log.len(),
    ensures
        replayed(log, log.len()).contains_key(log[i].0@),
        first_in_log(log, log[i].0@, log.len()) matches Some(j) && {
            &&& 0 <= j <= i
            &&& log[j].0@ == log[i].0@
            &&& forall|k: int| 0 <= k < j ==> (#[trigger] log[k]).0@ != log[i].0@
            &&& known_answer(replayed(log, log.len()), log[i].0@) == (StoreResult::Skipped {
                existing_id: log[j].1,
            })
            &&& store_decision(replayed(log, log.len()), Set::empty(), log[i].0@) == Some(
                StoreResult::Skipped { existing_id: log[j].1 },
            )
        },
{
    lemma_replayed_first(log, log[i].0@, log.len());
}

/// Abandons a store that [`begin_store`] let proceed, when building its entry
/// failed: the reservation of the content hash is dropped, so a later store of
/// the same content is not skipped, and nothing is committed.
pub fn abort_store(dedup: &mut DedupChecker, content_hash: &str)
    ensures
        final(dedup).pending_hashes() == old(dedup).pending_hashes().remove(content_hash@),
        final(dedup).ids() == old(dedup).ids(),
{
    dedup.clear_pending(content_hash);
}

/// Positions whose namespace is `ns` (all positions when `ns` is `None`),
/// ascending, among the first `n`.
pub open spec fn in_namespace(namespaces: Seq<String>, ns: Option<Seq<char>>, n: nat) -> Seq<usize>
    decreases n,
{
    if n == 0 {
        Seq::empty()
    } else {
        let before = in_namespace(namespaces, ns, (n - 1) as nat);
        match ns {
            Some(x) => if namespaces[n - 1]@ == x {
                before.push((n - 1) as usize)
            } else {
                before
            },
            None => before.push((n - 1) as usize),
        }
    }
}

/// Which stored entries a listing returns, given the entries' namespaces in
/// log order: those in the namespace (all when none is given), the first
/// `limit` of them when a limit is given. A refused namespace is an error.
pub fn select_entries(namespaces: &[String], namespace: Option<&str>, limit: Option<usize>) -> (r: ShabtiResult<Vec<usize>>)
    ensures
        match namespace {
            Some(ns) => match namespace_problem(ns.spec_bytes()) {
                Some(msg) => r matches Err(ShabtiError::Validation(m)) && m@ == msg,
                None => r matches Ok(v) && v@ == {
                    let all = in_namespace(namespaces@, Some(ns@), namespaces@.len());
                    match limit {
                        Some(n) => all.take(if n < all.len() { n as int } else { all.len() as int }),
                        None => all,
                    }
                },
            },
            None => r matches Ok(v) && v@ == {
                let all = in_namespace(namespaces@, None, namespaces@.len());
                match limit {
                    Some(n) => all.take(if n < all.len() { n as int } else { all.len() as int }),
                    None => all,
                }
            },
        },
{
    let key: Option<String> = match namespace {
        Some(ns) => {
            validate_namespace(ns)?;
            Some(ns.to_owned())
        },
        None => None,
    };
    let ghost want: Option<Seq<char>> = match namespace {
        Some(ns) => Some(ns@),
        None => None,
    };
    let mut all: Vec<usize> = Vec::new();
    let mut i: usize = 0;
    while i < namespaces.len()
        invariant
            i <= namespaces@.len(),
            want == match key {
                Some(k) => Some(k@),
                None => None::<Seq<char>>,
            },
            all@ == in_namespace(namespaces@, want, i as nat),
        decreases namespaces@.len() - i,
    {
        let keep = match &key {
            Some(k) => namespaces[i] == *k,
            None => true,
        };
        if keep {
            all.push(i);
        }
        i = i + 1;
    }
    match limit {
        Some(n) => {
            let mut out: Vec<usize> = Vec::new();
            let mut j: usize = 0;
            while j < all.len() && j < n
                invariant
                    j <= all@.len(),
                    j <= n,
                    out@ == all@.take(j as int),
                decreases all@.len() - j,
            {
                out.push(all[j]);
                j = j + 1;
                assert(out@ =~= all@.take(j as int));
            }
            Ok(out)
        },
        None => Ok(all),
    }
}

/// Content stored once is skipped afterwards with the id of the first store,
/// whatever id a later store would bring and whatever is in flight: once
/// `finish_store` (or `complete_store` with a built entry) committed `hash`
/// under `id`, `begin_store` on the same content answers
/// `Skipped { existing_id: id }`.
pub proof fn lemma_stored_content_is_skipped(
    ids: Map<Seq<char>, u128>,
    pending: Set<Seq<char>>,
    hash: Seq<char>,
    id: u128,
)
    requires
        !ids.contains_key(hash),
    ensures
        store_after(ids, hash, id).contains_key(hash),
        store_decision(store_after(ids, hash, id), pending, hash) == Some(
            StoreResult::Skipped { existing_id: id },
        ),
{
}

/// While content is reserved by a store in flight and not yet committed,
/// `begin_store` on the same content is answered with the nil id.
pub proof fn lemma_reserved_content_is_skipped(
    ids: Map<Seq<char>, u128>,
    pending: Set<Seq<char>>,
    hash: Seq<char>,
)
    requires
        pending.contains(hash),
        !ids.contains_key(hash),
    ensures
        store_decision(ids, pending, hash) == Some(StoreResult::Skipped { existing_id: 0 }),
{
}

/// A failed store leaves no trace: when `begin_store` let the content proceed
/// (its hash neither committed nor in flight) and the store then failed, the
/// reservations are as before, and a later `begin_store` on the same content
/// proceeds again instead of being skipped.
pub proof fn lemma_failed_store_leaves_no_trace(
    ids: Map<Seq<char>, u128>,
    pending: Set<Seq<char>>,
    hash: Seq<char>,
)
    requires
        store_decision(ids, pending, hash) is None,
    ensures
        pending.insert(hash).remove(hash) == pending,
        store_decision(ids, pending.insert(hash).remove(hash), hash) is None,
{
    assert(pending.insert(hash).remove(hash) =~= pending);
}

/// The rows as sequences.
pub open spec fn rows_view(rows: Seq<Vec<u128>>) -> Seq<Seq<u128>> {
    rows.map_values(|v: Vec<u128>| v@)
}

/// Whether neighbour `(r, k)` comes before neighbour `(r2, k2)`: seeds in
/// order, and each seed's neighbours in order.
pub open spec fn visited_before(r2: int, k2: int, r: int, k: int) -> bool {
    r2 < r || (r2 == r && k2 < k)
}

/// Whether neighbour `k` of seed `r` adds a new result: its id is no seed's
/// and no earlier neighbour's.
pub open spec fn first_sighting(seeds: Seq<u128>, neighbors: Seq<Seq<u128>>, r: int, k: int) -> bool {
    &&& 0 <= r < neighbors.len()
    &&& 0 <= k < neighbors[r].len()
    &&& !seeds.contains(neighbors[r][k])
    &&& forall|r2: int, k2: int|
        0 <= r2 < neighbors.len() && 0 <= k2 < neighbors[r2].len() && visited_before(r2, k2, r, k)
            ==> #[trigger] neighbors[r2][k2] != neighbors[r][k]
}

/// Graph expansion of search results: given the ids of the seed results and,
/// for each seed, the ids of its graph neighbours, the (seed, neighbour)
/// positions that join the results, in visiting order, one per new id.
pub fn expand_links(seeds: &[u128], neighbors: &Vec<Vec<u128>>) -> (picked: Vec<(usize, usize)>)
    requires
        seeds@.len() == neighbors@.len(),
    ensures
        forall|t: int|
            0 <= t < picked@.len() ==> first_sighting(
                seeds@,
                rows_view(neighbors@),
                (#[trigger] picked@[t]).0 as int,
                picked@[t].1 as int,
            ),
        forall|r: int, k: int|
            #[trigger] first_sighting(seeds@, rows_view(neighbors@), r, k) ==> exists|t: int|
                0 <= t < picked@.len() && #[trigger] picked@[t] == (r as usize, k as usize),
        forall|a: int, b: int|
            0 <= a < b < picked@.len() ==> visited_before(
                (#[trigger] picked@[a]).0 as int,
                picked@[a].1 as int,
                (#[trigger] picked@[b]).0 as int,
                picked@[b].1 as int,
            ),
{
    let ghost nb = rows_view(neighbors@);
    let mut seen: Vec<u128> = Vec::new();
    let mut z: usize = 0;
    while z < seeds.len()
        invariant
            z <= seeds@.len(),
            seen@ == seeds@.subrange(0, z as int),
        decreases seeds@.len() - z,
    {
        seen.push(seeds[z]);
        z = z + 1;
        assert(seen@ =~= seeds@.subrange(0, z as int));
    }
    assert(seen@ =~= seeds@);
    let mut picked: Vec<(usize, usize)> = Vec::new();
    let mut r: usize = 0;
    while r < neighbors.len()
        invariant
            r <= neighbors@.len(),
            nb == rows_view(neighbors@),
            nb.len() == neighbors@.len(),
            forall|x: u128| #[trigger] seen@.contains(x) <==> (seeds@.contains(x) || exists|r2: int, k2: int|
                0 <= r2 < nb.len() && 0 <= k2 < nb[r2].len() && visited_before(r2, k2, r as int, 0)
                    && #[trigger] nb[r2][k2] == x),
            forall|t: int|
                0 <= t < picked@.len() ==> first_sighting(seeds@, nb, (#[trigger] picked@[t]).0 as int, picked@[t].1 as int)
                    && visited_before(picked@[t].0 as int, picked@[t].1 as int, r as int, 0),
            forall|r2: int, k2: int|
                visited_before(r2, k2, r as int, 0) && #[trigger] first_sighting(seeds@, nb, r2, k2) ==> exists|t: int|
                    0 <= t < picked@.len() && #[trigger] picked@[t] == (r2 as usize, k2 as usize),
            forall|a: int, b: int|
                0 <= a < b < picked@.len() ==> visited_before(
                    (#[trigger] picked@[a]).0 as int,
                    picked@[a].1 as int,
                    (#[trigger] picked@[b]).0 as int,
                    picked@[b].1 as int,
                ),
        decreases neighbors@.len() - r,
    {
        let row = &neighbors[r];
        proof {
            assert(nb[r as int] == row@);
        }
        let mut k: usize = 0;
        while k < row.len()
            invariant
                r < neighbors@.len(),
                k <= row@.len(),
                nb == rows_view(neighbors@),
                nb.len() == neighbors@.len(),
                nb[r as int] == row@,
                forall|x: u128| #[trigger] seen@.contains(x) <==> (seeds@.contains(x) || exists|r2: int, k2: int|
                    0 <= r2 < nb.len() && 0 <= k2 < nb[r2].len() && visited_before(r2, k2, r as int, k as int)
                        && #[trigger] nb[r2][k2] == x),
                forall|t: int|
                    0 <= t < picked@.len() ==> first_sighting(seeds@, nb, (#[trigger] picked@[t]).0 as int, picked@[t].1 as int)
                        && visited_before(picked@[t].0 as int, picked@[t].1 as int, r as int, k as int),
                forall|r2: int, k2: int|
                    visited_before(r2, k2, r as int, k as int) && #[trigger] first_sighting(seeds@, nb, r2, k2) ==> exists|t: int|
                        0 <= t < picked@.len() && #[trigger] picked@[t] == (r2 as usize, k2 as usize),
                forall|a: int, b: int|
                    0 <= a < b < picked@.len() ==> visited_before(
                        (#[trigger] picked@[a]).0 as int,
                        picked@[a].1 as int,
                        (#[trigger] picked@[b]).0 as int,
                        picked@[b].1 as int,
                    ),
            decreases row@.len() - k,
        {
            let id = row[k];
            let mut known = false;
            let mut j: usize = 0;
            while j < seen.len()
                invariant
                    j <= seen@.len(),
                    known == exists|q: int| 0 <= q < j && seen@[q] == id,
                decreases seen@.len() - j,
            {
                if seen[j] == id {
                    known = true;
                }
                j = j + 1;
            }
            assert(known == seen@.contains(id));
            proof {
                assert(nb[r as int][k as int] == id);
                assert(known == !first_sighting(seeds@, nb, r as int, k as int)) by {
                    if known {
                        if !seeds@.contains(id) {
                            let (r2, k2) = choose|r2: int, k2: int|
                                0 <= r2 < nb.len() && 0 <= k2 < nb[r2].len() && visited_before(r2, k2, r as int, k as int)
                                    && #[trigger] nb[r2][k2] == id;
                            assert(nb[r2][k2] == nb[r as int][k as int]);
                        }
                    } else {
                        assert forall|r2: int, k2: int|
                            0 <= r2 < nb.len() && 0 <= k2 < nb[r2].len() && visited_before(r2, k2, r as int, k as int)
                                implies #[trigger] nb[r2][k2] != nb[r as int][k as int] by {
                            if nb[r2][k2] == id {
                                assert(seen@.contains(id));
                            }
                        }
                    }
                }
            }
            let ghost before = picked@;
            let ghost seen_before = seen@;
            if !known {
                picked.push((r, k));
                seen.push(id);
            }
            proof {
                assert forall|x: u128| #[trigger] seen@.contains(x) implies (seeds@.contains(x) || exists|r2: int, k2: int|
                    0 <= r2 < nb.len() && 0 <= k2 < nb[r2].len() && visited_before(r2, k2, r as int, k + 1)
                        && #[trigger] nb[r2][k2] == x) by {
                    let q = choose|q: int| 0 <= q < seen@.len() && seen@[q] == x;
                    if q < seen_before.len() {
                        assert(seen_before[q] == x);
                        assert(seen_before.contains(x));
                        if !seeds@.contains(x) {
                            let (r2, k2) = choose|r2: int, k2: int|
                                0 <= r2 < nb.len() && 0 <= k2 < nb[r2].len() && visited_before(r2, k2, r as int, k as int)
                                    && #[trigger] nb[r2][k2] == x;
                            assert(visited_before(r2, k2, r as int, k + 1));
                        }
                    } else {
                        assert(x == id);
                        assert(visited_before(r as int, k as int, r as int, k + 1) && nb[r as int][k as int] == x);
                    }
                }
                assert forall|x: u128| (seeds@.contains(x) || exists|r2: int, k2: int|
                    0 <= r2 < nb.len() && 0 <= k2 < nb[r2].len() && visited_before(r2, k2, r as int, k + 1)
                        && #[trigger] nb[r2][k2] == x) implies #[trigger] seen@.contains(x) by {
                    let in_before = seeds@.contains(x) || exists|r2: int, k2: int|
                        0 <= r2 < nb.len() && 0 <= k2 < nb[r2].len() && visited_before(r2, k2, r as int, k as int)
                            && #[trigger] nb[r2][k2] == x;
                    if !in_before {
                        let (r2, k2) = choose|r2: int, k2: int|
                            0 <= r2 < nb.len() && 0 <= k2 < nb[r2].len() && visited_before(r2, k2, r as int, k + 1)
                                && #[trigger] nb[r2][k2] == x;
                        if r2 == r && k2 == k {
                            if !known {
                                assert(seen@[seen@.len() - 1] == x);
                            } else {
                                assert(seen_before.contains(x));
                                assert(false);
                            }
                        } else {
                            assert(visited_before(r2, k2, r as int, k as int));
                            assert(false);
                        }
                    }
                    if in_before {
                        assert(seen_before.contains(x));
                        let q = choose|q: int| 0 <= q < seen_before.len() && seen_before[q] == x;
                        assert(seen@[q] == x);
                    }
                }
                assert forall|r2: int, k2: int|
                    visited_before(r2, k2, r as int, k + 1) && #[trigger] first_sighting(seeds@, nb, r2, k2) implies exists|t: int|
                        0 <= t < picked@.len() && #[trigger] picked@[t] == (r2 as usize, k2 as usize) by {
                    if r2 == r && k2 == k {
                        assert(picked@[picked@.len() - 1] == (r2 as usize, k2 as usize));
                    } else {
                        assert(visited_before(r2, k2, r as int, k as int));
                        let t = choose|t: int| 0 <= t < before.len() && #[trigger] before[t] == (r2 as usize, k2 as usize);
                        assert(picked@[t] == before[t]);
                    }
                }
            }
            k = k + 1;
        }
        proof {
            assert forall|x: u128| #[trigger] seen@.contains(x) <==> (seeds@.contains(x) || exists|r2: int, k2: int|
                0 <= r2 < nb.len() && 0 <= k2 < nb[r2].len() && visited_before(r2, k2, r + 1, 0)
                    && #[trigger] nb[r2][k2] == x) by {
                if exists|r2: int, k2: int|
                    0 <= r2 < nb.len() && 0 <= k2 < nb[r2].len() && visited_before(r2, k2, r + 1, 0)
                        && #[trigger] nb[r2][k2] == x {
                    let (r2, k2) = choose|r2: int, k2: int|
                        0 <= r2 < nb.len() && 0 <= k2 < nb[r2].len() && visited_before(r2, k2, r + 1, 0)
                            && #[trigger] nb[r2][k2] == x;
                    assert(visited_before(r2, k2, r as int, k as int));
                }
                if exists|r2: int, k2: int|
                    0 <= r2 < nb.len() && 0 <= k2 < nb[r2].len() && visited_before(r2, k2, r as int, k as int)
                        && #[trigger] nb[r2][k2] == x {
                    let (r2, k2) = choose|r2: int, k2: int|
                        0 <= r2 < nb.len() && 0 <= k2 < nb[r2].len() && visited_before(r2, k2, r as int, k as int)
                            && #[trigger] nb[r2][k2] == x;
                    assert(visited_before(r2, k2, r + 1, 0));
                }
            }
            assert forall|r2: int, k2: int|
                visited_before(r2, k2, r + 1, 0) && #[trigger] first_sighting(seeds@, nb, r2, k2) implies exists|t: int|
                    0 <= t < picked@.len() && #[trigger] picked@[t] == (r2 as usize, k2 as usize) by {
                assert(visited_before(r2, k2, r as int, k as int));
            }
        }
        r = r + 1;
    }
    proof {
        assert forall|r2: int, k2: int| #[trigger] first_sighting(seeds@, nb, r2, k2) implies exists|t: int|
            0 <= t < picked@.len() && #[trigger] picked@[t] == (r2 as usize, k2 as usize) by {
            assert(visited_before(r2, k2, r as int, 0));
        }
    }
    picked
}

} // verus!
