use vstd::prelude::*;

verus! {

/// One slot of an alias table.
///
/// A slot is chosen uniformly among the table's slots. An `Aliased` slot then
/// resolves to `value` with probability `threshold / total`, where `total` is
/// the table's total weight, and to `alias` otherwise. An `Unaliased` slot
/// always resolves to the item it names.
#[derive(Clone, Copy, Debug, PartialEq, Eq, Structural)]
pub enum AliasEntry {
    Aliased { threshold: u128, value: usize, alias: usize },
    Unaliased(usize),
}

/// The item index that slot `e` resolves to when the within-slot draw is `u`
/// (a draw taken uniformly below the table's total weight).
pub open spec fn resolve(e: AliasEntry, u: int) -> int {
    match e {
        AliasEntry::Aliased { threshold, value, alias } => if u < threshold {
            value as int
        } else {
            alias as int
        },
        AliasEntry::Unaliased(i) => i as int,
    }
}

/// Every index in `e` is below `n`, and a split slot's threshold is below `total`.
pub open spec fn entry_wf(e: AliasEntry, n: int, total: int) -> bool {
    match e {
        AliasEntry::Aliased { threshold, value, alias } => threshold < total && value < n && alias
            < n,
        AliasEntry::Unaliased(i) => i < n,
    }
}

/// How many of the `total` equally likely within-slot draws make `e` resolve to item `i`.
pub open spec fn entry_mass(e: AliasEntry, i: int, total: int) -> int {
    match e {
        AliasEntry::Aliased { threshold, value, alias } => (if value == i {
            threshold as int
        } else {
            0
        }) + (if alias == i {
            total - threshold
        } else {
            0
        }),
        AliasEntry::Unaliased(j) => if j == i {
            total
        } else {
            0
        },
    }
}

/// Summed over all slots of `es`: how many of the `es.len() * total` equally likely
/// (slot, draw) pairs resolve to item `i`.
pub open spec fn item_mass(es: Seq<AliasEntry>, i: int, total: int) -> int
    decreases es.len(),
{
    if es.len() == 0 {
        0
    } else {
        item_mass(es.drop_last(), i, total) + entry_mass(es.last(), i, total)
    }
}

/// The sum of a sequence of weights.
pub open spec fn weight_sum(ws: Seq<u64>) -> int
    decreases ws.len(),
{
    if ws.len() == 0 {
        0
    } else {
        weight_sum(ws.drop_last()) + ws.last()
    }
}

/// A well-formed slot sequence for `n` items and total weight `total`: one slot
/// per item, each well-formed.
pub open spec fn entries_wf(es: Seq<AliasEntry>, n: int, total: int) -> bool {
    &&& es.len() == n
    &&& forall|k: int| 0 <= k < es.len() ==> #[trigger] entry_wf(es[k], n, total)
}

/// How many of the within-slot draws `0, 1, .., m - 1` make `e` resolve to item `i`.
pub open spec fn hits(e: AliasEntry, i: int, m: nat) -> int
    decreases m,
{
    if m == 0 {
        0
    } else {
        hits(e, i, (m - 1) as nat) + if resolve(e, m - 1) == i {
            1int
        } else {
            0int
        }
    }
}

/// How many of the `es.len() * total` equally likely (slot, draw) pairs of the
/// slots `es` resolve to item `i`.
pub open spec fn draws_to(es: Seq<AliasEntry>, i: int, total: nat) -> int
    decreases es.len(),
{
    if es.len() == 0 {
        0
    } else {
        draws_to(es.drop_last(), i, total) + hits(es.last(), i, total)
    }
}

/// Among the draws below `m`: those below the threshold count for `value`, the
/// others for `alias`.
proof fn lemma_hits_prefix(e: AliasEntry, i: int, m: nat)
    ensures
        hits(e, i, m) == match e {
            AliasEntry::Aliased { threshold, value, alias } => (if value == i {
                if m <= threshold {
                    m as int
                } else {
                    threshold as int
                }
            } else {
                0
            }) + (if alias == i && m > threshold {
                m - threshold
            } else {
                0
            }),
            AliasEntry::Unaliased(j) => if j == i {
                m as int
            } else {
                0
            },
        },
    decreases m,
{
    if m > 0 {
        lemma_hits_prefix(e, i, (m - 1) as nat);
    }
}

/// A slot's mass for item `i` is the number of within-slot draws that resolve to `i`.
pub proof fn lemma_entry_mass_counts_draws(e: AliasEntry, n: int, total: nat, i: int)
    requires
        entry_wf(e, n, total as int),
    ensures
        hits(e, i, total) == entry_mass(e, i, total as int),
{
    lemma_hits_prefix(e, i, total);
}

/// Over well-formed slots, an item's summed mass is the number of (slot, draw)
/// pairs that resolve to it.
pub proof fn lemma_item_mass_counts_draws(es: Seq<AliasEntry>, n: int, total: nat, i: int)
    requires
        forall|k: int| 0 <= k < es.len() ==> #[trigger] entry_wf(es[k], n, total as int),
    ensures
        draws_to(es, i, total) == item_mass(es, i, total as int),
    decreases es.len(),
{
    if es.len() > 0 {
        let d = es.drop_last();
        assert forall|k: int| 0 <= k < d.len() implies #[trigger] entry_wf(d[k], n, total as int) by {
            assert(d[k] == es[k]);
        }
        lemma_item_mass_counts_draws(d, n, total, i);
        assert(entry_wf(es[es.len() - 1], n, total as int));
        lemma_entry_mass_counts_draws(es.last(), n, total, i);
    }
}

/// Summed over the items `0, 1, .., k - 1`: how many (slot, draw) pairs of the
/// slots `es` resolve to one of them.
pub open spec fn draws_below(es: Seq<AliasEntry>, total: nat, k: nat) -> int
    decreases k,
{
    if k == 0 {
        0
    } else {
        draws_below(es, total, (k - 1) as nat) + draws_to(es, k - 1, total)
    }
}

/// Summed over the items below `k`: the mass of slot `e`.
spec fn entry_mass_below(e: AliasEntry, total: int, k: nat) -> int
    decreases k,
{
    if k == 0 {
        0
    } else {
        entry_mass_below(e, total, (k - 1) as nat) + entry_mass(e, k - 1, total)
    }
}

/// Summed over the items below `k`: their mass over the slots `es`.
spec fn item_mass_below(es: Seq<AliasEntry>, total: int, k: nat) -> int
    decreases k,
{
    if k == 0 {
        0
    } else {
        item_mass_below(es, total, (k - 1) as nat) + item_mass(es, k - 1, total)
    }
}

proof fn lemma_entry_mass_below(e: AliasEntry, total: int, k: nat)
    ensures
        entry_mass_below(e, total, k) == match e {
            AliasEntry::Aliased { threshold, value, alias } => (if value < k {
                threshold as int
            } else {
                0
            }) + (if alias < k {
                total - threshold
            } else {
                0
            }),
            AliasEntry::Unaliased(j) => if j < k {
                total
            } else {
                0
            },
        },
    decreases k,
{
    if k > 0 {
        lemma_entry_mass_below(e, total, (k - 1) as nat);
    }
}

proof fn lemma_item_mass_below_last(es: Seq<AliasEntry>, total: int, k: nat)
    requires
        es.len() > 0,
    ensures
        item_mass_below(es, total, k) == item_mass_below(es.drop_last(), total, k)
            + entry_mass_below(es.last(), total, k),
    decreases k,
{
    if k > 0 {
        lemma_item_mass_below_last(es, total, (k - 1) as nat);
    }
}

proof fn lemma_item_mass_below_all(es: Seq<AliasEntry>, n: nat, total: int)
    requires
        forall|k: int| 0 <= k < es.len() ==> #[trigger] entry_wf(es[k], n as int, total),
    ensures
        item_mass_below(es, total, n) == es.len() * total,
    decreases es.len(),
{
    if es.len() > 0 {
        let d = es.drop_last();
        assert forall|k: int| 0 <= k < d.len() implies #[trigger] entry_wf(d[k], n as int, total) by {
            assert(d[k] == es[k]);
        }
        lemma_item_mass_below_all(d, n, total);
        lemma_item_mass_below_last(es, total, n);
        assert(entry_wf(es[es.len() - 1], n as int, total));
        lemma_entry_mass_below(es.last(), total, n);
        assert(d.len() * total + total == es.len() * total) by (nonlinear_arith)
            requires
                d.len() + 1 == es.len(),
        ;
    } else {
        lemma_item_mass_below_empty(es, total, n);
    }
}

proof fn lemma_item_mass_below_empty(es: Seq<AliasEntry>, total: int, k: nat)
    requires
        es.len() == 0,
    ensures
        item_mass_below(es, total, k) == 0,
    decreases k,
{
    if k > 0 {
        lemma_item_mass_below_empty(es, total, (k - 1) as nat);
    }
}

proof fn lemma_draws_below_mass(es: Seq<AliasEntry>, n: int, total: nat, k: nat)
    requires
        forall|j: int| 0 <= j < es.len() ==> #[trigger] entry_wf(es[j], n, total as int),
    ensures
        draws_below(es, total, k) == item_mass_below(es, total as int, k),
    decreases k,
{
    if k > 0 {
        lemma_draws_below_mass(es, n, total, (k - 1) as nat);
        lemma_item_mass_counts_draws(es, n, total, k - 1);
    }
}

/// Every (slot, draw) pair of well-formed slots resolves to exactly one item, so
/// the items' counts add up to all `es.len() * total` pairs. An item's count
/// over that number is therefore the probability that it is drawn.
pub proof fn lemma_draws_cover_all_pairs(es: Seq<AliasEntry>, n: nat, total: nat)
    requires
        entries_wf(es, n as int, total as int),
    ensures
        draws_below(es, total, n) == n * total,
{
    lemma_draws_below_mass(es, n as int, total, n);
    lemma_item_mass_below_all(es, n, total as int);
}

} // verus!
