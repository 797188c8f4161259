use vstd::prelude::*;

verus! {

/// Whether entry `i` is its group's representative: no entry of the group has
/// a higher access count, and every earlier entry of the group a lower one.
pub open spec fn is_group_winner(entries: Seq<(&str, u32)>, i: int) -> bool {
    &&& 0 <= i < entries.len()
    &&& forall|j: int|
        0 <= j < entries.len() && (#[trigger] entries[j]).0@ == entries[i].0@ ==> entries[j].1
            <= entries[i].1 && (j < i ==> entries[j].1 < entries[i].1)
}

/// Positions of the entries kept when results are deduplicated by group: per
/// group label, the entry with the highest access count, the earliest on a
/// tie. Positions ascending.
pub fn group_winners(entries: &[(&str, u32)]) -> (kept: Vec<usize>)
    ensures
        forall|a: int, b: int| 0 <= a < b < kept@.len() ==> #[trigger] kept@[a] < #[trigger] kept@[b],
        forall|k: int| 0 <= k < kept@.len() ==> is_group_winner(entries@, #[trigger] kept@[k] as int),
        forall|i: int| is_group_winner(entries@, i) ==> exists|k: int|
            0 <= k < kept@.len() && #[trigger] kept@[k] == i,
{
    let mut kept: Vec<usize> = Vec::new();
    let mut i: usize = 0;
    while i < entries.len()
        invariant
            i <= entries@.len(),
            forall|k: int| 0 <= k < kept@.len() ==> #[trigger] kept@[k] < i,
            forall|a: int, b: int| 0 <= a < b < kept@.len() ==> #[trigger] kept@[a] < #[trigger] kept@[b],
            forall|k: int| 0 <= k < kept@.len() ==> is_group_winner(entries@, #[trigger] kept@[k] as int),
            forall|x: int| 0 <= x < i && is_group_winner(entries@, x) ==> exists|k: int|
                0 <= k < kept@.len() && #[trigger] kept@[k] == x,
        decreases entries@.len() - i,
    {
        let (group, count) = entries[i];
        let mut wins = true;
        let mut j: usize = 0;
        while j < entries.len()
            invariant
                j <= entries@.len(),
                i < entries@.len(),
                group@ == entries@[i as int].0@,
                count == entries@[i as int].1,
                wins == forall|h: int|
                    0 <= h < j && (#[trigger] entries@[h]).0@ == group@ ==> entries@[h].1 <= count
                        && (h < i ==> entries@[h].1 < count),
            decreases entries@.len() - j,
        {
            let (other, c) = entries[j];
            let same = str_eq(other, group);
            if same && (c > count || (j < i && c == count)) {
                wins = false;
            }
            proof {
                if wins {
                    assert forall|h: int|
                        0 <= h < j + 1 && (#[trigger] entries@[h]).0@ == group@ implies entries@[h].1
                        <= count && (h < i ==> entries@[h].1 < count) by {
                        if h < j {
                        }
                    }
                }
            }
            j = j + 1;
        }
        if wins {
            let ghost before = kept@;
            kept.push(i);
            proof {
                assert forall|x: int| 0 <= x < i + 1 && is_group_winner(entries@, x) implies exists|k: int|
                    0 <= k < kept@.len() && #[trigger] kept@[k] == x by {
                    if x < i {
                        let k = choose|k: int| 0 <= k < before.len() && #[trigger] before[k] == x;
                        assert(kept@[k] == x);
                    } else {
                        assert(kept@[before.len() as int] == x);
                    }
                }
            }
        } else {
            proof {
                assert(!is_group_winner(entries@, i as int));
            }
        }
        i = i + 1;
    }
    kept
}

/// Whether two strings are equal, character by character.
fn str_eq(a: &str, b: &str) -> (r: bool)
    ensures
        r == (a@ == b@),
{
    let x = a.to_owned();
    let y = b.to_owned();
    x == y
}

/// A group never keeps two entries.
pub proof fn lemma_one_winner_per_group(entries: Seq<(&str, u32)>, i: int, j: int)
    requires
        is_group_winner(entries, i),
        is_group_winner(entries, j),
        entries[i].0@ == entries[j].0@,
    ensures
        i == j,
{
    if i < j {
        assert(entries[i].1 < entries[j].1);
        assert(entries[i].1 <= entries[j].1 && entries[j].1 <= entries[i].1);
    } else if j < i {
        assert(entries[j].1 < entries[i].1);
        assert(entries[i].1 <= entries[j].1);
    }
}

/// Among the first `n` entries labelled `g`, the first with the highest access
/// count.
proof fn best_in_group(entries: Seq<(&str, u32)>, g: Seq<char>, n: int) -> (r: Option<int>)
    requires
        0 <= n <= entries.len(),
    ensures
        match r {
            Some(b) => 0 <= b < n && entries[b].0@ == g && forall|j: int|
                0 <= j < n && (#[trigger] entries[j]).0@ == g ==> entries[j].1 <= entries[b].1 && (j
                    < b ==> entries[j].1 < entries[b].1),
            None => forall|j: int| 0 <= j < n ==> (#[trigger] entries[j]).0@ != g,
        },
    decreases n,
{
    if n == 0 {
        None
    } else {
        match best_in_group(entries, g, n - 1) {
            Some(b) => if entries[n - 1].0@ == g && entries[n - 1].1 > entries[b].1 {
                Some(n - 1)
            } else {
                Some(b)
            },
            None => if entries[n - 1].0@ == g {
                Some(n - 1)
            } else {
                None
            },
        }
    }
}

/// Every group keeps an entry: some entry of it is its representative.
pub proof fn lemma_every_group_has_winner(entries: Seq<(&str, u32)>, i: int)
    requires
        0 <= i < entries.len(),
    ensures
        exists|w: int| is_group_winner(entries, w) && entries[w].0@ == entries[i].0@,
{
    let g = entries[i].0@;
    match best_in_group(entries, g, entries.len() as int) {
        Some(b) => {
            assert(is_group_winner(entries, b));
        },
        None => {
            assert(entries[i].0@ != g);
        },
    }
}

} // verus!
