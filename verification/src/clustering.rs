use vstd::prelude::*;

verus! {

/// The positions among the first `n` whose label is `label`, ascending.
pub open spec fn indices_with(labels: Seq<i32>, label: i32, n: nat) -> Seq<usize>
    decreases n,
{
    if n == 0 {
        Seq::empty()
    } else {
        let before = indices_with(labels, label, (n - 1) as nat);
        if labels[n - 1] == label {
            before.push((n - 1) as usize)
        } else {
            before
        }
    }
}

/// Whether some position carries `label`.
pub open spec fn has_label(labels: Seq<i32>, label: i32) -> bool {
    exists|i: int| 0 <= i < labels.len() && labels[i] == label
}

pub open spec fn sorted_distinct(keys: Seq<i32>) -> bool {
    forall|a: int, b: int| 0 <= a < b < keys.len() ==> #[trigger] keys[a] < #[trigger] keys[b]
}

/// Position in the sorted `keys` where `label` is or would go.
fn key_slot(keys: &Vec<i32>, label: i32) -> (p: usize)
    requires
        sorted_distinct(keys@),
    ensures
        p <= keys@.len(),
        forall|a: int| 0 <= a < p ==> keys@[a] < label,
        forall|a: int| p < a < keys@.len() ==> keys@[a] > label,
        p < keys@.len() ==> keys@[p as int] >= label,
{
    let mut p: usize = 0;
    while p < keys.len() && keys[p] < label
        invariant
            p <= keys@.len(),
            forall|a: int| 0 <= a < p ==> keys@[a] < label,
        decreases keys@.len() - p,
    {
        p = p + 1;
    }
    proof {
        if p < keys@.len() {
            assert forall|a: int| p < a < keys@.len() implies keys@[a] > label by {
                assert(keys@[p as int] < keys@[a]);
            }
        }
    }
    p
}

/// The distinct non-negative labels, ascending.
fn cluster_labels(labels: &[i32]) -> (keys: Vec<i32>)
    ensures
        sorted_distinct(keys@),
        forall|k: int| 0 <= k < keys@.len() ==> #[trigger] keys@[k] >= 0 && has_label(labels@, keys@[k]),
        forall|i: int| 0 <= i < labels@.len() && labels@[i] >= 0 ==> exists|k: int|
            0 <= k < keys@.len() && #[trigger] keys@[k] == labels@[i],
{
    let mut keys: Vec<i32> = Vec::new();
    let mut i: usize = 0;
    while i < labels.len()
        invariant
            i <= labels@.len(),
            sorted_distinct(keys@),
            forall|k: int| 0 <= k < keys@.len() ==> #[trigger] keys@[k] >= 0 && has_label(labels@, keys@[k]),
            forall|j: int| 0 <= j < i && labels@[j] >= 0 ==> exists|k: int|
                0 <= k < keys@.len() && #[trigger] keys@[k] == labels@[j],
        decreases labels@.len() - i,
    {
        let label = labels[i];
        if label >= 0 {
            let ghost before = keys@;
            let p = key_slot(&keys, label);
            if p < keys.len() && keys[p] == label {
            } else {
                keys.insert(p, label);
                proof {
                    assert forall|a: int, b: int| 0 <= a < b < keys@.len() implies #[trigger] keys@[a]
                        < #[trigger] keys@[b] by {
                        if b < p {
                            assert(keys@[a] == before[a] && keys@[b] == before[b]);
                            assert(before[a] < before[b]);
                        } else if b == p {
                            assert(keys@[a] == before[a]);
                        } else if a < p {
                            assert(keys@[a] == before[a] && keys@[b] == before[b - 1]);
                        } else if a == p {
                            assert(keys@[b] == before[b - 1]);
                            if b - 1 > p {
                                assert(before[p as int] < before[b - 1]);
                            }
                        } else {
                            assert(keys@[a] == before[a - 1] && keys@[b] == before[b - 1]);
                            assert(before[a - 1] < before[b - 1]);
                        }
                    }
                    assert forall|k: int| 0 <= k < keys@.len() implies #[trigger] keys@[k] >= 0
                        && has_label(labels@, keys@[k]) by {
                        if k < p {
                            assert(keys@[k] == before[k]);
                        } else if k > p {
                            assert(keys@[k] == before[k - 1]);
                        } else {
                            assert(labels@[i as int] == label);
                        }
                    }
                    assert forall|j: int| 0 <= j < i && labels@[j] >= 0 implies exists|k: int|
                        0 <= k < keys@.len() && #[trigger] keys@[k] == labels@[j] by {
                        let k = choose|k: int| 0 <= k < before.len() && #[trigger] before[k] == labels@[j];
                        if k < p {
                            assert(keys@[k] == before[k]);
                        } else {
                            assert(keys@[k + 1] == before[k]);
                        }
                    }
                }
            }
            proof {
                let q = p as int;
                assert(keys@[q] == label);
                assert forall|j: int| 0 <= j < i + 1 && labels@[j] >= 0 implies exists|k: int|
                    0 <= k < keys@.len() && #[trigger] keys@[k] == labels@[j] by {
                    if j == i {
                        assert(keys@[q] == labels@[j]);
                    }
                }
            }
        }
        i = i + 1;
    }
    keys
}

/// The positions carrying `label`, ascending.
fn positions_of(labels: &[i32], label: i32) -> (idx: Vec<usize>)
    ensures
        idx@ == indices_with(labels@, label, labels@.len()),
{
    let mut idx: Vec<usize> = Vec::new();
    let mut i: usize = 0;
    while i < labels.len()
        invariant
            i <= labels@.len(),
            idx@ == indices_with(labels@, label, i as nat),
        decreases labels@.len() - i,
    {
        if labels[i] == label {
            idx.push(i);
        }
        i = i + 1;
    }
    idx
}

/// Groups positions by cluster label, skipping noise (negative labels): one
/// group per label, labels ascending, positions ascending within a group.
pub fn group_by_label(labels: &[i32]) -> (groups: Vec<(i32, Vec<usize>)>)
    ensures
        forall|a: int, b: int| 0 <= a < b < groups@.len() ==> (#[trigger] groups@[a]).0 < (
        #[trigger] groups@[b]).0,
        forall|k: int|
            0 <= k < groups@.len() ==> (#[trigger] groups@[k]).0 >= 0 && has_label(labels@, groups@[k].0),
        forall|i: int| 0 <= i < labels@.len() && labels@[i] >= 0 ==> exists|k: int|
            0 <= k < groups@.len() && (#[trigger] groups@[k]).0 == labels@[i],
        forall|k: int|
            0 <= k < groups@.len() ==> (#[trigger] groups@[k]).1@ == indices_with(
                labels@,
                groups@[k].0,
                labels@.len(),
            ),
{
    let keys = cluster_labels(labels);
    let mut groups: Vec<(i32, Vec<usize>)> = Vec::new();
    let mut k: usize = 0;
    while k < keys.len()
        invariant
            k <= keys@.len(),
            groups@.len() == k,
            forall|j: int| 0 <= j < k ==> (#[trigger] groups@[j]).0 == keys@[j],
            forall|j: int|
                0 <= j < k ==> (#[trigger] groups@[j]).1@ == indices_with(
                    labels@,
                    keys@[j],
                    labels@.len(),
                ),
        decreases keys@.len() - k,
    {
        let label = keys[k];
        let idx = positions_of(labels, label);
        groups.push((label, idx));
        k = k + 1;
    }
    proof {
        assert forall|a: int, b: int| 0 <= a < b < groups@.len() implies (#[trigger] groups@[a]).0 < (
        #[trigger] groups@[b]).0 by {
            assert(keys@[a] < keys@[b]);
        }
        assert forall|k: int| 0 <= k < groups@.len() implies (#[trigger] groups@[k]).0 >= 0 && has_label(
            labels@,
            groups@[k].0,
        ) by {
            assert(keys@[k] >= 0 && has_label(labels@, keys@[k]));
        }
        assert forall|i: int| 0 <= i < labels@.len() && labels@[i] >= 0 implies exists|k: int|
            0 <= k < groups@.len() && (#[trigger] groups@[k]).0 == labels@[i] by {
            let k = choose|k: int| 0 <= k < keys@.len() && #[trigger] keys@[k] == labels@[i];
            assert(groups@[k].0 == labels@[i]);
        }
    }
    groups
}

} // verus!
