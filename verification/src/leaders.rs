//! Selection of the highest-scored entries of a scored list.

use vstd::prelude::*;
use vstd::set_lib::{set_int_range, lemma_int_range};

verus! {

/// Whether the entry at `i` is listed before the entry at `j`: the higher
/// score goes first, and of two equal scores the one that stands first.
pub open spec fn outranks(entries: Seq<(String, u64)>, i: int, j: int) -> bool {
    entries[i].1 > entries[j].1 || (entries[i].1 == entries[j].1 && i < j)
}

/// Whether the entry at `p` may follow the entries listed so far.
spec fn open_to(entries: Seq<(String, u64)>, leaders: Seq<usize>, p: int) -> bool {
    leaders.len() == 0 || outranks(entries, leaders.last() as int, p)
}

/// Whether `leaders` holds the place `q`.
pub open spec fn lists(leaders: Seq<usize>, q: int) -> bool {
    exists|k: int| 0 <= k < leaders.len() && leaders[k] == q
}

/// Whether `leaders` lists the places of the `count` foremost entries, the
/// foremost first; all entries where there are fewer than `count`.
pub open spec fn leading(entries: Seq<(String, u64)>, leaders: Seq<usize>, count: nat) -> bool {
    &&& leaders.len() == if count <= entries.len() {
        count
    } else {
        entries.len()
    }
    &&& forall|k: int| 0 <= k < leaders.len() ==> leaders[k] < entries.len()
    &&& forall|i: int, j: int|
        0 <= i < j < leaders.len() ==> outranks(entries, leaders[i] as int, leaders[j] as int)
    &&& forall|q: int|
        0 <= q < entries.len() ==> leaders.len() == 0 || #[trigger] lists(leaders, q) || outranks(
            entries,
            leaders.last() as int,
            q,
        )
}

/// Fewer distinct places than there are places leave one of them out.
proof fn lemma_some_place_is_free(leaders: Seq<usize>, n: nat)
    requires
        leaders.len() < n,
        forall|k: int| 0 <= k < leaders.len() ==> leaders[k] < n,
        forall|i: int, j: int| 0 <= i < j < leaders.len() ==> leaders[i] != leaders[j],
    ensures
        exists|q: int| 0 <= q < n && !#[trigger] lists(leaders, q),
{
    if forall|q: int| 0 <= q < n ==> #[trigger] lists(leaders, q) {
        let places = Seq::new(leaders.len(), |k: int| leaders[k] as int);
        assert(places.no_duplicates());
        places.unique_seq_to_set();
        lemma_int_range(0, n as int);
        assert forall|q: int| set_int_range(0, n as int).contains(q) implies places.to_set().contains(
            q,
        ) by {
            assert(lists(leaders, q));
            let k = choose|k: int| 0 <= k < leaders.len() && leaders[k] == q;
            assert(places[k] == q);
        }
        assert forall|q: int| places.to_set().contains(q) implies set_int_range(
            0,
            n as int,
        ).contains(q) by {
            let k = choose|k: int| 0 <= k < places.len() && places[k] == q;
            assert(leaders[k] < n);
        }
        assert(places.to_set() =~= set_int_range(0, n as int));
    }
}

/// The places of the `count` highest-scored entries, the highest first. Of
/// two entries with one score the one that stands first in `entries` is
/// listed first.
pub fn top_positions(entries: &Vec<(String, u64)>, count: usize) -> (leaders: Vec<usize>)
    ensures
        leading(entries@, leaders@, count as nat),
{
    let n = entries.len();
    let wanted: usize = if count <= n {
        count
    } else {
        n
    };
    let mut leaders: Vec<usize> = Vec::new();
    while leaders.len() < wanted
        invariant
            leaders.len() <= wanted <= n == entries.len(),
            forall|k: int| 0 <= k < leaders.len() ==> leaders[k] < n,
            forall|i: int, j: int|
                0 <= i < j < leaders.len() ==> outranks(
                    entries@,
                    leaders[i] as int,
                    leaders[j] as int,
                ),
            forall|q: int|
                0 <= q < n ==> leaders.len() == 0 || #[trigger] lists(leaders@, q) || outranks(
                    entries@,
                    leaders@.last() as int,
                    q,
                ),
        decreases wanted - leaders.len(),
    {
        let mut best: usize = n;
        let mut q: usize = 0;
        while q < n
            invariant
                q <= n == entries.len(),
                best <= n,
                forall|k: int| 0 <= k < leaders.len() ==> leaders[k] < n,
                best < n ==> best < q && open_to(entries@, leaders@, best as int),
                forall|p: int|
                    0 <= p < q && #[trigger] open_to(entries@, leaders@, p) ==> best < n && (p
                        == best || outranks(entries@, best as int, p)),
            decreases n - q,
        {
            let open: bool = if leaders.len() == 0 {
                true
            } else {
                let last = leaders[leaders.len() - 1];
                entries[last].1 > entries[q].1 || (entries[last].1 == entries[q].1 && last < q)
            };
            assert(open == open_to(entries@, leaders@, q as int));
            if open && (best == n || entries[q].1 > entries[best].1) {
                best = q;
            }
            q += 1;
        }
        proof {
            assert forall|i: int, j: int| 0 <= i < j < leaders.len() implies leaders[i]
                != leaders[j] by {
                assert(outranks(entries@, leaders[i] as int, leaders[j] as int));
            }
            lemma_some_place_is_free(leaders@, n as nat);
            let free = choose|p: int| 0 <= p < n && !#[trigger] lists(leaders@, p);
            assert(open_to(entries@, leaders@, free));
            assert(best < n);
        }
        let ghost before = leaders@;
        leaders.push(best);
        proof {
            assert forall|i: int, j: int| 0 <= i < j < leaders.len() implies outranks(
                entries@,
                leaders[i] as int,
                leaders[j] as int,
            ) by {
                if j == before.len() {
                    assert(open_to(entries@, before, best as int));
                    if i < before.len() - 1 {
                        assert(outranks(entries@, before[i] as int, before.last() as int));
                    }
                } else {
                    assert(outranks(entries@, before[i] as int, before[j] as int));
                }
            }
            assert forall|p: int| 0 <= p < n implies #[trigger] lists(leaders@, p) || outranks(
                entries@,
                leaders@.last() as int,
                p,
            ) by {
                if before.len() > 0 && lists(before, p) {
                    let k = choose|k: int| 0 <= k < before.len() && before[k] == p;
                    assert(leaders@[k] == p);
                } else if p == best {
                    assert(leaders@[before.len() as int] == best);
                } else {
                    assert(open_to(entries@, before, p));
                }
            }
        }
    }
    leaders
}

} // verus!
